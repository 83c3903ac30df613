//! Deterministic completion of a partially filled board by backtracking,
//! board validation, and the uniqueness check built on the solver.

use vstd::prelude::*;
use std::collections::HashSet;
use crate::board::Sudoku;
use crate::grid::{
    agrees_before, before, consistent, extends, filled, grid_le, keys_of,
    lemma_extends_place, lemma_extends_trans, lemma_filled_extends_eq,
    lemma_grid_le_antisymmetric, lemma_inconsistent_unsolvable, lemma_keys_fresh,
    lemma_keys_place, lemma_nnz_filled, lemma_nnz_place, lemma_place_consistent,
    lemma_place_facts, lemma_place_noop, lemma_place_twice, lemma_cell_keys_distinct,
    lemma_solution_place, lemma_solution_unplace, lemma_unplaceable_no_solution, nnz, place,
    solution_of, solvable, wf_grid,
};

verus! {

broadcast use vstd::std_specs::hash::group_hash_axioms;

/// The candidate values tried at an empty cell: every value `1..=d`,
/// each present, in some order.
pub open spec fn candidate_list(s: Seq<u8>, d: int) -> bool {
    &&& s.len() == d
    &&& (forall|i: int| 0 <= i < s.len() ==> 1 <= (#[trigger] s[i]) as int <= d)
    &&& (forall|v: u8| 1 <= v as int <= d ==> #[trigger] s.contains(v))
}

/// The candidate order the solver uses: the values `1..=d` ascending.
pub open spec fn ascending(s: Seq<u8>) -> bool {
    forall|j: int| 0 <= j < s.len() ==> (#[trigger] s[j]) as int == j + 1
}

/// A permutation of a full candidate list is itself a full candidate list.
pub proof fn lemma_candidates_permuted(a: Seq<u8>, b: Seq<u8>, d: int)
    requires
        candidate_list(a, d),
        a.to_multiset() == b.to_multiset(),
    ensures
        candidate_list(b, d),
{
    a.to_multiset_ensures();
    b.to_multiset_ensures();
    assert(b.len() == d);
    assert forall|i: int| 0 <= i < b.len() implies 1 <= (#[trigger] b[i]) as int <= d by {
        assert(b.contains(b[i]));
        assert(b.to_multiset().count(b[i]) > 0);
        assert(a.to_multiset().count(b[i]) > 0);
        assert(a.contains(b[i]));
        let j = choose|j: int| 0 <= j < a.len() && a[j] == b[i];
        assert(1 <= a[j] as int <= d);
    }
    assert forall|v: u8| 1 <= v as int <= d implies #[trigger] b.contains(v) by {
        assert(a.contains(v));
        assert(a.to_multiset().count(v) > 0);
        assert(b.to_multiset().count(v) > 0);
    }
}

/// Helper that goes through the board and, at the first empty cell, tries
/// the candidate values in the order of `nums`, recursing on each placement
/// and undoing it when the recursion fails.  Returns `true` exactly when
/// the board admits a completion; on `true` the board holds one, on `false`
/// the board and index are exactly as given.
#[verifier::rlimit(100)]
pub fn solve_puzzle_util(game: &mut Sudoku, lk_up: &mut HashSet<u32>, nums: &Vec<u8>) -> (r: bool)
    requires
        old(game).wf(),
        consistent(old(game)@),
        old(lk_up)@ == keys_of(old(game)@),
        candidate_list(nums@, old(game)@.len() as int),
    ensures
        final(game).wf(),
        final(game)@.len() == old(game)@.len(),
        extends(old(game)@, final(game)@),
        consistent(final(game)@),
        final(lk_up)@ == keys_of(final(game)@),
        r == solvable(old(game)@),
        r ==> filled(final(game)@),
        ascending(nums@) && r ==> forall|s: Seq<Seq<u8>>|
            #[trigger] solution_of(s, old(game)@) ==> grid_le(final(game)@, s),
        !r ==> final(game)@ == old(game)@ && final(lk_up)@ == old(lk_up)@,
    decreases game@.len() * game@.len() - nnz(game@),
{
    let ghost g0 = game@;
    proof {
        lemma_nnz_filled(g0);
    }
    let d = game.dims();
    match game.first_empty() {
        None => {
            proof {
                assert(solution_of(g0, g0));
                assert forall|s: Seq<Seq<u8>>|
                    #[trigger] solution_of(s, g0) implies grid_le(g0, s) by {
                    lemma_filled_extends_eq(g0, s);
                }
            }
            true
        },
        Some((row, col)) => {
            let mut i: usize = 0;
            while i < d
                invariant
                    game.wf(),
                    game@ == g0,
                    g0 == old(game)@,
                    old(lk_up)@ == keys_of(g0),
                    d == g0.len(),
                    lk_up@ == keys_of(g0),
                    consistent(g0),
                    candidate_list(nums@, d as int),
                    row < d,
                    col < d,
                    g0[row as int][col as int] == 0,
                    forall|r2: int, c2: int|
                        0 <= r2 < d && 0 <= c2 < d && before(r2, c2, row as int, col as int)
                            ==> (#[trigger] g0[r2][c2]) != 0,
                    i <= d,
                    forall|s: Seq<Seq<u8>>, j: int|
                        #![trigger solution_of(s, g0), nums@[j]]
                        solution_of(s, g0) && 0 <= j < i ==> s[row as int][col as int] != nums@[j],
                decreases d - i,
            {
                let cell_val = nums[i];
                if game.is_valid(lk_up, cell_val, row, col) {
                    game.set_value(row, col, cell_val);
                    let ghost g1 = game@;
                    let cache = game.make_cache(row, col, cell_val);
                    lk_up.insert(cache.row_cache);
                    lk_up.insert(cache.col_cache);
                    lk_up.insert(cache.box_cache);
                    proof {
                        lemma_place_facts(g0, row as int, col as int, cell_val);
                        lemma_keys_place(g0, row as int, col as int, cell_val);
                        lemma_place_consistent(g0, row as int, col as int, cell_val);
                        lemma_extends_place(g0, row as int, col as int, cell_val);
                        lemma_nnz_place(g0, row as int, col as int, cell_val);
                        lemma_nnz_filled(g1);
                        assert(lk_up@ =~= keys_of(g1));
                    }
                    if game.is_filled() {
                        proof {
                            assert(solution_of(g1, g0));
                            if ascending(nums@) {
                                assert forall|s: Seq<Seq<u8>>|
                                    #[trigger] solution_of(s, g1) implies grid_le(g1, s) by {
                                    lemma_filled_extends_eq(g1, s);
                                }
                                lemma_least_here(g0, g1, g1, nums@, row as int, col as int, i as int);
                            }
                        }
                        return true;
                    }
                    let rec = solve_puzzle_util(game, lk_up, nums);
                    if rec {
                        proof {
                            lemma_extends_trans(g0, g1, game@);
                            assert(solution_of(game@, g0));
                            if ascending(nums@) {
                                lemma_least_here(g0, g1, game@, nums@, row as int, col as int, i as int);
                            }
                        }
                        return true;
                    }
                    lk_up.remove(&cache.row_cache);
                    lk_up.remove(&cache.col_cache);
                    lk_up.remove(&cache.box_cache);
                    game.set_value(row, col, 0);
                    proof {
                        lemma_place_twice(g0, row as int, col as int, cell_val, 0);
                        lemma_place_noop(g0, row as int, col as int);
                        assert(game@ == g0);
                        lemma_keys_fresh(g0, row as int, col as int, cell_val);
                        lemma_cell_keys_distinct(g0, row as int, col as int, cell_val);
                        assert(lk_up@ =~= keys_of(g0));
                        assert forall|s: Seq<Seq<u8>>|
                            solution_of(s, g0) implies s[row as int][col as int] != cell_val by {
                            if s[row as int][col as int] == cell_val {
                                lemma_solution_place(g0, row as int, col as int, cell_val, s);
                            }
                        }
                    }
                } else {
                    proof {
                        assert forall|s: Seq<Seq<u8>>|
                            solution_of(s, g0) implies s[row as int][col as int] != cell_val by {
                            lemma_unplaceable_no_solution(g0, row as int, col as int, cell_val, s);
                        }
                    }
                }
                i += 1;
            }
            proof {
                assert forall|s: Seq<Seq<u8>>| !solution_of(s, g0) by {
                    if solution_of(s, g0) {
                        let v = s[row as int][col as int];
                        assert(v != 0);
                        assert(1 <= v as int <= d);
                        assert(nums@.contains(v));
                        let j = choose|j: int| 0 <= j < nums@.len() && nums@[j] == v;
                        assert(s[row as int][col as int] != nums@[j]);
                        assert(false);
                    }
                }
            }
            false
        },
    }
}

/// In the candidate loop's context -- `(row, col)` the first empty cell,
/// the ascending candidates below index `i` all excluded, and `fin` the
/// least solution of the board with candidate `i` placed -- `fin` is the
/// least solution of the board itself.
proof fn lemma_least_here(
    g0: Seq<Seq<u8>>,
    g1: Seq<Seq<u8>>,
    fin: Seq<Seq<u8>>,
    nums: Seq<u8>,
    row: int,
    col: int,
    i: int,
)
    requires
        wf_grid(g0),
        0 <= row < g0.len(),
        0 <= col < g0.len(),
        g0[row][col] == 0,
        forall|r2: int, c2: int|
            0 <= r2 < g0.len() && 0 <= c2 < g0.len() && before(r2, c2, row, col) ==> (
            #[trigger] g0[r2][c2]) != 0,
        candidate_list(nums, g0.len() as int),
        ascending(nums),
        0 <= i < nums.len(),
        g1 == place(g0, row, col, nums[i]),
        forall|s: Seq<Seq<u8>>, j: int|
            #![trigger solution_of(s, g0), nums[j]]
            solution_of(s, g0) && 0 <= j < i ==> s[row][col] != nums[j],
        solution_of(fin, g1),
        forall|s: Seq<Seq<u8>>| #[trigger] solution_of(s, g1) ==> grid_le(fin, s),
    ensures
        forall|s: Seq<Seq<u8>>| #[trigger] solution_of(s, g0) ==> grid_le(fin, s),
{
    let d = g0.len() as int;
    let v = nums[i];
    assert(v as int == i + 1);
    lemma_place_facts(g0, row, col, v);
    assert forall|s: Seq<Seq<u8>>| #[trigger] solution_of(s, g0) implies grid_le(fin, s) by {
        let vs = s[row][col];
        assert(vs != 0);
        assert(1 <= vs as int <= d);
        if vs as int <= i {
            assert(nums[vs as int - 1] == vs);
            assert(s[row][col] != nums[vs as int - 1]);
            assert(false);
        }
        if vs == v {
            lemma_solution_place(g0, row, col, v, s);
            assert(grid_le(fin, s));
        } else {
            assert(fin[row][col] == v);
            assert forall|r2: int, c2: int|
                0 <= r2 < fin.len() && 0 <= c2 < fin.len() && before(r2, c2, row, col)
                    implies (#[trigger] fin[r2][c2]) == s[r2][c2] by {
                assert(g0[r2][c2] != 0);
                assert(g1[r2][c2] == g0[r2][c2]);
                assert(fin[r2][c2] == g1[r2][c2]);
                assert(s[r2][c2] == g0[r2][c2]);
            }
            assert(agrees_before(fin, s, row, col));
            assert(0 <= row < fin.len() && 0 <= col < fin.len() && fin[row][col] < s[row][col]);
            assert(grid_le(fin, s));
        }
    }
}

/// The solver is deterministic: its result is the row-major
/// lexicographically least solution of its input, and the least solution
/// is unique, so equal input boards force equal solved boards.
pub proof fn lemma_least_solution_unique(g: Seq<Seq<u8>>, a: Seq<Seq<u8>>, b: Seq<Seq<u8>>)
    requires
        solution_of(a, g),
        solution_of(b, g),
        forall|s: Seq<Seq<u8>>| #[trigger] solution_of(s, g) ==> grid_le(a, s),
        forall|s: Seq<Seq<u8>>| #[trigger] solution_of(s, g) ==> grid_le(b, s),
    ensures
        a == b,
{
    assert(grid_le(a, b));
    assert(grid_le(b, a));
    lemma_grid_le_antisymmetric(a, b);
}

/// Solve the board in place.  Returns `true` exactly when the given cells
/// admit a completion; the given cells are never changed, and on failure
/// (including a board that already clashes) the board is left untouched.
/// Solving an already filled, clash-free board returns `true` and changes
/// nothing.
pub fn solve_puzzle(game: &mut Sudoku) -> (r: bool)
    requires
        old(game).wf(),
    ensures
        final(game).wf(),
        final(game)@.len() == old(game)@.len(),
        extends(old(game)@, final(game)@),
        r == solvable(old(game)@),
        r ==> filled(final(game)@) && consistent(final(game)@),
        r ==> forall|s: Seq<Seq<u8>>|
            #[trigger] solution_of(s, old(game)@) ==> grid_le(final(game)@, s),
        !r ==> final(game)@ == old(game)@,
        filled(old(game)@) && consistent(old(game)@) ==> r && final(game)@ == old(game)@,
{
    let ghost g0 = game@;
    let d = game.dims();
    let mut nums: Vec<u8> = Vec::new();
    let mut i: usize = 0;
    while i < d
        invariant
            i <= d,
            d <= 225,
            nums@.len() == i,
            forall|j: int| 0 <= j < i ==> (#[trigger] nums@[j]) as int == j + 1,
        decreases d - i,
    {
        nums.push((i + 1) as u8);
        i += 1;
    }
    proof {
        assert forall|v: u8| 1 <= v as int <= d implies #[trigger] nums@.contains(v) by {
            assert(nums@[v as int - 1] == v);
        }
        assert(candidate_list(nums@, d as int));
        assert(ascending(nums@));
    }
    let mut lk_up = match game.make_lk_up() {
        Ok(lk) => lk,
        Err(_) => {
            proof {
                lemma_inconsistent_unsolvable(g0);
            }
            return false;
        },
    };
    let r = solve_puzzle_util(game, &mut lk_up, &nums);
    proof {
        if filled(g0) && consistent(g0) {
            assert(solution_of(g0, g0));
            assert(r);
            crate::grid::lemma_filled_extends_eq(g0, game@);
        }
    }
    r
}

/// True exactly when the board is completely filled and free of clashes:
/// the constraint index then holds three keys for each of the `d * d`
/// cells.
pub fn valid_board(game: &Sudoku) -> (r: bool)
    requires
        game.wf(),
    ensures
        r == (filled(game@) && consistent(game@)),
{
    match game.make_lk_up() {
        Err(_) => false,
        Ok(lk) => {
            let d = game.dims();
            proof {
                lemma_nnz_filled(game@);
                assert((d as int) * (d as int) * 3 <= 151875) by (nonlinear_arith)
                    requires
                        0 <= d as int <= 225,
                ;
            }
            lk.len() == d * d * 3
        },
    }
}

/// Some solution of `g` writes `v` into cell `(row, col)`.
pub open spec fn completes(g: Seq<Seq<u8>>, row: int, col: int, v: u8) -> bool {
    exists|s: Seq<Seq<u8>>| solution_of(s, g) && s[row][col] == v
}

/// At least two distinct candidate values strictly below the dimension
/// each lead to a completion at the given cell.
pub open spec fn two_candidate_completions(g: Seq<Seq<u8>>, row: int, col: int) -> bool {
    exists|v1: u8, v2: u8|
        v1 != v2 && 1 <= v1 as int && (v1 as int) < g.len() && 1 <= v2 as int && (v2 as int) < g.len()
            && #[trigger] completes(g, row, col, v1) && #[trigger] completes(g, row, col, v2)
}

/// Uniqueness check for the empty cell `(row, col)`: sweeps the candidate
/// values `1..dimension` (the sweep deliberately stops below the dimension
/// itself) and solves a copy of the board for each placeable one.  Returns
/// `false` exactly when two distinct swept values each complete the board;
/// zero completions and exactly one completion both return `true`.
pub fn unique_soln(game: &Sudoku, row: usize, col: usize) -> (r: bool)
    requires
        game.wf(),
        row < game@.len(),
        col < game@.len(),
        game@[row as int][col as int] == 0,
    ensures
        r == !two_candidate_completions(game@, row as int, col as int),
{
    let ghost g = game@;
    let d = game.dims();
    let lk_up = match game.make_lk_up() {
        Ok(lk) => lk,
        Err(_) => {
            proof {
                lemma_inconsistent_unsolvable(g);
                if two_candidate_completions(g, row as int, col as int) {
                    let (v1, v2) = choose|v1: u8, v2: u8|
                        v1 != v2 && 1 <= v1 as int && (v1 as int) < g.len() && 1 <= v2 as int && (v2 as int)
                            < g.len() && #[trigger] completes(g, row as int, col as int, v1)
                            && #[trigger] completes(g, row as int, col as int, v2);
                    let s = choose|s: Seq<Seq<u8>>|
                        solution_of(s, g) && s[row as int][col as int] == v1;
                    assert(solvable(g));
                }
            }
            return true;
        },
    };
    let mut found: bool = false;
    let mut val: u8 = 1;
    while (val as usize) < d
        invariant
            game.wf(),
            g == game@,
            d == g.len(),
            row < d,
            col < d,
            g[row as int][col as int] == 0,
            consistent(g),
            lk_up@ == keys_of(g),
            1 <= val as int <= d,
            found == exists|v: u8|
                1 <= v as int && (v as int) < val as int && #[trigger] completes(g, row as int, col as int, v),
            forall|v1: u8, v2: u8|
                v1 != v2 && 1 <= v1 as int && (v1 as int) < val as int && 1 <= v2 as int && (v2 as int) < val as int ==> !(
                #[trigger] completes(g, row as int, col as int, v1) && #[trigger] completes(
                    g,
                    row as int,
                    col as int,
                    v2,
                )),
        decreases d - val as int,
    {
        let ghost gplaced = place(g, row as int, col as int, val);
        if game.is_valid(&lk_up, val, row, col) {
            let mut board_search = game.duplicate();
            board_search.set_value(row, col, val);
            let solved = solve_puzzle(&mut board_search);
            proof {
                lemma_place_consistent(g, row as int, col as int, val);
                lemma_place_facts(g, row as int, col as int, val);
            }
            if board_search.is_filled() {
                proof {
                    if solved {
                        assert(solution_of(board_search@, gplaced));
                    } else {
                        assert(board_search@ == gplaced);
                        assert(solution_of(board_search@, gplaced));
                    }
                    lemma_solution_unplace(g, row as int, col as int, val, board_search@);
                    assert(completes(g, row as int, col as int, val));
                }
                if found {
                    proof {
                        let vp = choose|v: u8|
                            1 <= v as int && (v as int) < val as int && #[trigger] completes(g, row as int, col as int, v);
                        assert(two_candidate_completions(g, row as int, col as int));
                    }
                    return false;
                }
                found = true;
            } else {
                proof {
                    assert(!solved);
                    assert(!solvable(gplaced));
                    if completes(g, row as int, col as int, val) {
                        let s = choose|s: Seq<Seq<u8>>|
                            solution_of(s, g) && s[row as int][col as int] == val;
                        lemma_solution_place(g, row as int, col as int, val, s);
                        assert(solvable(gplaced));
                    }
                }
            }
        } else {
            proof {
                if completes(g, row as int, col as int, val) {
                    let s = choose|s: Seq<Seq<u8>>|
                        solution_of(s, g) && s[row as int][col as int] == val;
                    lemma_unplaceable_no_solution(g, row as int, col as int, val, s);
                }
            }
        }
        val += 1;
    }
    true
}

/// One value written twice into a row is a clash: such a grid is never
/// reported valid.
pub proof fn lemma_row_duplicate_inconsistent(g: Seq<Seq<u8>>, r: int, c1: int, c2: int)
    requires
        wf_grid(g),
        0 <= r < g.len(),
        0 <= c1 < g.len(),
        0 <= c2 < g.len(),
        c1 != c2,
        g[r][c1] != 0,
        g[r][c1] == g[r][c2],
    ensures
        !consistent(g),
{
    let d = g.len() as int;
    if consistent(g) {
        assert(crate::grid::before(r, c1, d, 0) && crate::grid::before(r, c2, d, 0));
        assert(!crate::grid::shares_unit(g, r, c1, r, c2));
        assert(false);
    }
}

} // verus!
