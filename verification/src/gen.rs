//! Randomized full-board generation and the digging procedure that turns a
//! full board into a puzzle while keeping each removal uniquely completable.

use vstd::prelude::*;
use std::collections::HashSet;
use rand::seq::SliceRandom;
use rand::Rng;
use crate::board::{Sudoku, SudokuError};
use crate::grid::{
    consistent, extends, filled, key_in_upto, keys_of,
    lemma_cell_keys_distinct, lemma_clear_consistent, lemma_extends_clear, lemma_extends_place,
    lemma_extends_trans, lemma_keys_fresh, lemma_keys_place, lemma_nnz_clear, lemma_nnz_filled,
    lemma_nnz_place, lemma_place_consistent, lemma_place_facts, lemma_place_noop,
    lemma_place_twice, lemma_solution_place, lemma_unplaceable_no_solution, nnz, place,
    solution_of, solvable, supported_dim, wf_grid,
};
use crate::solver::{candidate_list, lemma_candidates_permuted, unique_soln};

verus! {

broadcast use vstd::std_specs::hash::group_hash_axioms;

#[verifier::external_type_specification]
#[verifier::external_body]
pub struct ExStdRng(rand::rngs::StdRng);

/// Relies on rand::Rng::gen_range over the half-open range `0..bound`: the
/// sample always lies below `bound`; the call panics on an empty range, so
/// the bound must be positive.
#[verifier::external_body]
fn rand_below(rng: &mut rand::rngs::StdRng, bound: usize) -> (r: usize)
    requires
        bound > 0,
    ensures
        r < bound,
{
    rng.gen_range(0..bound)
}

/// Relies on rand::seq::SliceRandom::shuffle: an in-place Fisher-Yates pass
/// that permutes the slice and changes nothing else.
#[verifier::external_body]
fn shuffle_values(nums: &mut Vec<u8>, rng: &mut rand::rngs::StdRng)
    ensures
        final(nums)@.to_multiset() == old(nums)@.to_multiset(),
{
    nums.shuffle(rng);
}

impl Sudoku {
    /// Fill every empty cell with values drawn in a freshly shuffled order
    /// per cell, backtracking on failure.  On `true` the board is a full,
    /// clash-free grid extending the given one; on `false` it is unchanged.
    pub fn fill_board(
        &mut self,
        lk_up: &mut HashSet<u32>,
        nums: &mut Vec<u8>,
        rng: &mut rand::rngs::StdRng,
    ) -> (r: bool)
        requires
            old(self).wf(),
            consistent(old(self)@),
            old(lk_up)@ == keys_of(old(self)@),
            candidate_list(old(nums)@, old(self)@.len() as int),
        ensures
            final(self).wf(),
            final(self)@.len() == old(self)@.len(),
            extends(old(self)@, final(self)@),
            consistent(final(self)@),
            final(lk_up)@ == keys_of(final(self)@),
            candidate_list(final(nums)@, old(self)@.len() as int),
            r == solvable(old(self)@),
            r ==> filled(final(self)@),
            !r ==> final(self)@ == old(self)@ && final(lk_up)@ == old(lk_up)@,
        decreases self@.len() * self@.len() - nnz(self@),
    {
        let ghost g0 = self@;
        proof {
            lemma_nnz_filled(g0);
        }
        let d = self.dims();
        match self.first_empty() {
            None => {
                proof {
                    assert(solution_of(g0, g0));
                }
                true
            },
            Some((row, col)) => {
                let ghost before_shuffle = nums@;
                shuffle_values(nums, rng);
                proof {
                    lemma_candidates_permuted(before_shuffle, nums@, d as int);
                }
                // The recursion reshuffles `nums`, so the order tried at
                // this cell is pinned in a snapshot: every shuffled value
                // gets its turn.
                let mut order: Vec<u8> = Vec::new();
                let mut t: usize = 0;
                while t < d
                    invariant
                        t <= d,
                        d == nums@.len(),
                        order@ == nums@.take(t as int),
                    decreases d - t,
                {
                    order.push(nums[t]);
                    proof {
                        assert(order@ =~= nums@.take(t as int + 1));
                    }
                    t += 1;
                }
                proof {
                    assert(order@ =~= nums@);
                }
                let mut i: usize = 0;
                while i < d
                    invariant
                        self.wf(),
                        self@ == g0,
                        g0 == old(self)@,
                        old(lk_up)@ == keys_of(g0),
                        d == g0.len(),
                        lk_up@ == keys_of(g0),
                        consistent(g0),
                        candidate_list(nums@, d as int),
                        candidate_list(order@, d as int),
                        row < d,
                        col < d,
                        g0[row as int][col as int] == 0,
                        i <= d,
                        forall|s: Seq<Seq<u8>>, j: int|
                            #![trigger solution_of(s, g0), order@[j]]
                            solution_of(s, g0) && 0 <= j < i ==> s[row as int][col as int]
                                != order@[j],
                    decreases d - i,
                {
                    let cell_val = order[i];
                    if self.is_valid(lk_up, cell_val, row, col) {
                        self.set_value(row, col, cell_val);
                        let ghost g1 = self@;
                        let cache = self.make_cache(row, col, cell_val);
                        lk_up.insert(cache.row_cache);
                        lk_up.insert(cache.col_cache);
                        lk_up.insert(cache.box_cache);
                        proof {
                            lemma_place_facts(g0, row as int, col as int, cell_val);
                            lemma_keys_place(g0, row as int, col as int, cell_val);
                            lemma_place_consistent(g0, row as int, col as int, cell_val);
                            lemma_extends_place(g0, row as int, col as int, cell_val);
                            lemma_nnz_place(g0, row as int, col as int, cell_val);
                            lemma_nnz_filled(g1);
                            assert(lk_up@ =~= keys_of(g1));
                        }
                        if self.is_filled() {
                            proof {
                                assert(solution_of(g1, g0));
                            }
                            return true;
                        }
                        if self.fill_board(lk_up, nums, rng) {
                            proof {
                                lemma_extends_trans(g0, g1, self@);
                                assert(solution_of(self@, g0));
                            }
                            return true;
                        }
                        lk_up.remove(&cache.row_cache);
                        lk_up.remove(&cache.col_cache);
                        lk_up.remove(&cache.box_cache);
                        self.set_value(row, col, 0);
                        proof {
                            lemma_place_twice(g0, row as int, col as int, cell_val, 0);
                            lemma_place_noop(g0, row as int, col as int);
                            assert(self@ == g0);
                            lemma_keys_fresh(g0, row as int, col as int, cell_val);
                            lemma_cell_keys_distinct(g0, row as int, col as int, cell_val);
                            assert(lk_up@ =~= keys_of(g0));
                            assert forall|s: Seq<Seq<u8>>|
                                solution_of(s, g0) implies s[row as int][col as int]
                                != cell_val by {
                                if s[row as int][col as int] == cell_val {
                                    lemma_solution_place(g0, row as int, col as int, cell_val, s);
                                }
                            }
                        }
                    } else {
                        proof {
                            assert forall|s: Seq<Seq<u8>>|
                                solution_of(s, g0) implies s[row as int][col as int]
                                != cell_val by {
                                lemma_unplaceable_no_solution(
                                    g0,
                                    row as int,
                                    col as int,
                                    cell_val,
                                    s,
                                );
                            }
                        }
                    }
                    i += 1;
                }
                self.set_value(row, col, 0);
                proof {
                    lemma_place_noop(g0, row as int, col as int);
                    assert(self@ == g0);
                    assert forall|s: Seq<Seq<u8>>| !solution_of(s, g0) by {
                        if solution_of(s, g0) {
                            let v = s[row as int][col as int];
                            assert(v != 0);
                            assert(1 <= v as int <= d);
                            assert(order@.contains(v));
                            let j = choose|j: int| 0 <= j < order@.len() && order@[j] == v;
                            assert(s[row as int][col as int] != order@[j]);
                            assert(false);
                        }
                    }
                }
                false
            },
        }
    }
}

/// Dig values out of the board: sixty times, pick a random non-empty cell
/// (bounded retries), clear it, and keep the removal only when the cell
/// still has a unique completion.  Every value still on the board afterwards
/// is the board's original value.
pub fn dig(game: &mut Sudoku, rng: &mut rand::rngs::StdRng) -> (r: Result<(), SudokuError>)
    requires
        old(game).wf(),
        consistent(old(game)@),
    ensures
        final(game).wf(),
        final(game)@.len() == old(game)@.len(),
        consistent(final(game)@),
        extends(final(game)@, old(game)@),
        nnz(final(game)@) >= nnz(old(game)@) - 60,
        r matches Err(e) ==> e == SudokuError::ExhaustedRetry,
{
    let d = game.dims();
    let mut itr: usize = 0;
    while itr < 60
        invariant
            game.wf(),
            d == game@.len(),
            1 <= d,
            consistent(game@),
            extends(game@, old(game)@),
            nnz(game@) >= nnz(old(game)@) - itr,
            itr <= 60,
        decreases 60 - itr,
    {
        let mut r = rand_below(rng, d);
        let mut c = rand_below(rng, d);
        let mut search_c: usize = 0;
        while game.get_value(r, c) == 0
            invariant
                game.wf(),
                d == game@.len(),
                1 <= d,
                r < d,
                c < d,
                search_c < 70,
                consistent(game@),
                extends(game@, old(game)@),
                nnz(game@) >= nnz(old(game)@) - itr,
                itr < 60,
            decreases 70 - search_c,
        {
            r = rand_below(rng, d);
            c = rand_below(rng, d);
            search_c += 1;
            if search_c >= 70 {
                return Err(SudokuError::ExhaustedRetry);
            }
        }
        let num_bkup = game.get_value(r, c);
        let ghost gpre = game@;
        game.set_value(r, c, 0);
        proof {
            lemma_clear_consistent(gpre, r as int, c as int);
            lemma_extends_clear(gpre, r as int, c as int);
            lemma_extends_trans(game@, gpre, old(game)@);
            lemma_nnz_clear(gpre, r as int, c as int);
        }
        if !unique_soln(game, r, c) {
            game.set_value(r, c, num_bkup);
            proof {
                lemma_place_twice(gpre, r as int, c as int, 0, num_bkup);
                lemma_place_noop(gpre, r as int, c as int);
                assert(game@ == gpre);
            }
        }
        itr += 1;
    }
    Ok(())
}

/// Digging preserves recoverability: digging only removes values, and the
/// solver only fills empties, so any solution of the dug board agrees with
/// the full board on every cell the dig kept.
pub proof fn lemma_dig_then_solve_keeps_givens(
    full: Seq<Seq<u8>>,
    dug: Seq<Seq<u8>>,
    solved: Seq<Seq<u8>>,
)
    requires
        extends(dug, full),
        extends(dug, solved),
    ensures
        forall|r: int, c: int|
            0 <= r < dug.len() && 0 <= c < dug.len() && (#[trigger] dug[r][c]) != 0 ==> solved[r][c]
                == full[r][c],
{
}

/// Generate a puzzle: build a full random board for the dimension, then dig
/// values out while each removal keeps a unique completion.  The result is a
/// clash-free board that extends to a full clash-free solution (the filled
/// board it was dug from), with at most sixty cells cleared.  A fill that
/// exhausts its search, like an exhausted dig retry, is reported as
/// `ExhaustedRetry` rather than silently returning a partial board.
pub fn gen_board(dim: usize, rng: &mut rand::rngs::StdRng) -> (result: Result<Sudoku, SudokuError>)
    ensures
        match result {
            Ok(b) => supported_dim(dim as int) && b.wf() && b@.len() == dim && consistent(b@)
                && solvable(b@) && nnz(b@) >= dim * dim - 60 && exists|f: Seq<Seq<u8>>|
                wf_grid(f) && filled(f) && consistent(f) && #[trigger] extends(b@, f),
            Err(e) => (e == SudokuError::InvalidDimension && !supported_dim(dim as int)) || (e
                == SudokuError::ExhaustedRetry && supported_dim(dim as int)),
        },
{
    let mut game = match Sudoku::new(dim) {
        Ok(g) => g,
        Err(e) => {
            return Err(e);
        },
    };
    let d = game.dims();
    let mut nums: Vec<u8> = Vec::new();
    let mut i: usize = 0;
    while i < d
        invariant
            i <= d,
            d <= 225,
            nums@.len() == i,
            forall|j: int| 0 <= j < i ==> (#[trigger] nums@[j]) as int == j + 1,
        decreases d - i,
    {
        nums.push((i + 1) as u8);
        i += 1;
    }
    proof {
        assert forall|v: u8| 1 <= v as int <= d implies #[trigger] nums@.contains(v) by {
            assert(nums@[v as int - 1] == v);
        }
        assert(candidate_list(nums@, d as int));
    }
    let mut lk_up: HashSet<u32> = HashSet::new();
    proof {
        assert forall|k: u32| !keys_of(game@).contains(k) by {
            if key_in_upto(game@, d as int, 0, k as int) {
                let (r2, c2) = choose|r2: int, c2: int|
                    0 <= r2 < game@.len() && 0 <= c2 < game@.len() && crate::grid::before(
                        r2,
                        c2,
                        d as int,
                        0,
                    ) && (#[trigger] game@[r2][c2]) != 0 && crate::grid::cell_keyed(
                        game@,
                        r2,
                        c2,
                        k as int,
                    );
                assert(false);
            }
        }
        assert(lk_up@ =~= keys_of(game@));
    }
    if !game.fill_board(&mut lk_up, &mut nums, rng) {
        return Err(SudokuError::ExhaustedRetry);
    }
    let ghost gfull = game@;
    proof {
        lemma_nnz_filled(gfull);
    }
    match dig(&mut game, rng) {
        Ok(()) => {
            proof {
                assert(solution_of(gfull, game@));
            }
            Ok(game)
        },
        Err(e) => Err(e),
    }
}

} // verus!
