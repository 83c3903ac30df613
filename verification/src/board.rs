//! The board type, its bounds-checked accessors, and the constraint-key
//! index built from a board's non-empty cells.

use vstd::prelude::*;
use std::collections::HashSet;
use crate::grid::{
    before, box_has_upto, box_key, bsize, cell_keyed, col_has_upto, col_key, consistent,
    consistent_upto, enc, filled, is_square, key_in_upto, keys_of, keys_upto,
    lemma_box_coord_bounds, lemma_cell_keys_distinct, lemma_col_key_membership,
    lemma_consistent_upto_row_end, lemma_consistent_upto_step, lemma_enc_bounds,
    lemma_keys_upto_row_end, lemma_keys_upto_step_empty, lemma_keys_upto_step_filled,
    lemma_keys_upto_zero, lemma_place_facts, lemma_row_key_membership, lemma_row_nnz_bounds,
    lemma_sqrt_of, nnz, nnz_upto, place, placeable, row_has_upto, row_key, row_nnz, same_box,
    shares_unit, supported_dim, wf_grid, lemma_box_key_membership,
};

verus! {

broadcast use vstd::std_specs::hash::group_hash_axioms;

/// Faults of the engine itself, as opposed to faults of a textual input.
#[derive(Debug, Clone, PartialEq, Eq)]
pub enum SudokuError {
    /// The requested dimension is not a supported perfect square.
    InvalidDimension,
    /// Building a constraint index found the same value twice in one
    /// row, column or box; the offending cell is reported.
    DuplicateValue { row: usize, col: usize, value: u8 },
    /// The bounded random search for a non-empty cell gave up.
    ExhaustedRetry,
}

/// The three constraint keys of one placement, each packed into one word.
#[derive(Debug, Clone, PartialEq, Eq)]
pub struct Cache {
    pub row_cache: u32,
    pub col_cache: u32,
    pub box_cache: u32,
}

impl Cache {
    /// For each entry of the board there are three keys: `(row, value,
    /// dim + 1)` for row uniqueness, `(dim + 1, value, col)` for column
    /// uniqueness and `(row / box_size, value, col / box_size)` for box
    /// uniqueness, packed byte-wise into a `u32`.
    pub fn new(r: u8, c: u8, cell_val: u8, dim: u8, box_size: u8) -> (cache: Cache)
        requires
            dim <= 254,
            box_size >= 1,
        ensures
            cache.row_cache as int == enc(r as int, cell_val as int, dim as int + 1),
            cache.col_cache as int == enc(dim as int + 1, cell_val as int, c as int),
            cache.box_cache as int == enc(
                r as int / box_size as int,
                cell_val as int,
                c as int / box_size as int,
            ),
    {
        Cache {
            row_cache: (r as u32) * 65536 + (cell_val as u32) * 256 + (dim as u32 + 1),
            col_cache: (dim as u32 + 1) * 65536 + (cell_val as u32) * 256 + (c as u32),
            box_cache: ((r / box_size) as u32) * 65536 + (cell_val as u32) * 256 + ((c
                / box_size) as u32),
        }
    }
}

/// A Sudoku board: a square matrix of cell values, `0` for an empty cell.
#[derive(Debug, Clone, PartialEq, Eq)]
pub struct Sudoku {
    board: Vec<Vec<u8>>,
}

impl View for Sudoku {
    type V = Seq<Seq<u8>>;

    closed spec fn view(&self) -> Seq<Seq<u8>> {
        Seq::new(self.board@.len(), |i: int| self.board@[i]@)
    }
}

/// Integer square root restricted to the supported dimension range.
fn isqrt_checked(d: usize) -> (r: Option<u8>)
    requires
        1 <= d <= 225,
    ensures
        match r {
            Some(b) => b as int * b as int == d && b >= 1,
            None => !is_square(d as int),
        },
{
    let mut b: u8 = 1;
    while b <= 15
        invariant
            1 <= b <= 16,
            1 <= d <= 225,
            forall|m: int| 1 <= m < b ==> #[trigger] (m * m) != d,
        decreases 16 - b as int,
    {
        proof {
            assert((b as int) * (b as int) <= 225) by (nonlinear_arith)
                requires
                    0 <= b as int <= 15,
            ;
        }
        if (b as usize) * (b as usize) == d {
            return Some(b);
        }
        b = b + 1;
    }
    proof {
        assert forall|m: int| 0 <= m implies #[trigger] (m * m) != d by {
            if m == 0 {
                assert(m * m == 0);
            } else if m <= 15 {
            } else {
                assert(m * m >= 256) by (nonlinear_arith)
                    requires
                        m >= 16,
                ;
            }
        }
    }
    None
}

impl Sudoku {
    pub open spec fn wf(&self) -> bool {
        wf_grid(self@)
    }

    /// An empty board of the given dimension; only non-zero perfect-square
    /// dimensions up to the key-encoding limit are supported.
    pub fn new(dim: usize) -> (result: Result<Sudoku, SudokuError>)
        ensures
            match result {
                Ok(b) => supported_dim(dim as int) && b.wf() && b@.len() == dim && forall|
                    r: int,
                    c: int,
                |
                    0 <= r < dim && 0 <= c < dim ==> (#[trigger] b@[r][c]) == 0,
                Err(e) => e == SudokuError::InvalidDimension && !supported_dim(dim as int),
            },
    {
        if dim < 1 || dim > 225 {
            return Err(SudokuError::InvalidDimension);
        }
        match isqrt_checked(dim) {
            None => Err(SudokuError::InvalidDimension),
            Some(bs) => {
                let mut board: Vec<Vec<u8>> = Vec::new();
                let mut r: usize = 0;
                while r < dim
                    invariant
                        r <= dim,
                        board@.len() == r,
                        forall|i: int|
                            0 <= i < r ==> (#[trigger] board@[i])@.len() == dim && forall|j: int|
                                0 <= j < dim ==> board@[i]@[j] == 0,
                    decreases dim - r,
                {
                    let mut rowv: Vec<u8> = Vec::new();
                    let mut c: usize = 0;
                    while c < dim
                        invariant
                            c <= dim,
                            rowv@.len() == c,
                            forall|j: int| 0 <= j < c ==> (#[trigger] rowv@[j]) == 0,
                        decreases dim - c,
                    {
                        rowv.push(0);
                        c += 1;
                    }
                    board.push(rowv);
                    r += 1;
                }
                let game = Sudoku { board };
                proof {
                    assert(is_square(dim as int)) by {
                        assert((bs as int) * (bs as int) == dim && 0 <= bs as int);
                    }
                    assert(game.wf());
                }
                Ok(game)
            },
        }
    }

    pub fn dims(&self) -> (d: usize)
        ensures
            d == self@.len(),
    {
        self.board.len()
    }

    pub fn get_value(&self, r: usize, c: usize) -> (v: u8)
        requires
            r < self@.len(),
            c < self@[r as int].len(),
        ensures
            v == self@[r as int][c as int],
    {
        self.board[r][c]
    }

    pub fn set_value(&mut self, r: usize, c: usize, val: u8)
        requires
            old(self).wf(),
            r < old(self)@.len(),
            c < old(self)@.len(),
            val as int <= old(self)@.len(),
        ensures
            final(self)@ == place(old(self)@, r as int, c as int, val),
            final(self).wf(),
    {
        proof {
            lemma_place_facts(old(self)@, r as int, c as int, val);
        }
        self.board[r][c] = val;
        proof {
            assert(self@ =~~= place(old(self)@, r as int, c as int, val));
        }
    }

    /// The box side length, derived from the dimension.
    pub fn find_box_size(&self) -> (b: u8)
        requires
            self.wf(),
        ensures
            b as int == bsize(self@),
            1 <= b,
            b as int * b as int == self@.len(),
    {
        let d = self.dims();
        match isqrt_checked(d) {
            Some(b) => {
                proof {
                    lemma_sqrt_of(d as int, b as int);
                }
                b
            },
            None => {
                proof {
                    assert(false);
                }
                vstd::pervasive::unreached()
            },
        }
    }

    /// A deep copy whose abstract contents equal this board's.
    pub fn duplicate(&self) -> (r: Sudoku)
        requires
            self.wf(),
        ensures
            r@ == self@,
            r.wf(),
    {
        let d = self.dims();
        let mut board: Vec<Vec<u8>> = Vec::new();
        let mut r: usize = 0;
        while r < d
            invariant
                self.wf(),
                d == self@.len(),
                r <= d,
                board@.len() == r,
                forall|i: int| 0 <= i < r ==> (#[trigger] board@[i])@ == self@[i],
            decreases d - r,
        {
            let mut rowv: Vec<u8> = Vec::new();
            let mut c: usize = 0;
            while c < d
                invariant
                    self.wf(),
                    d == self@.len(),
                    r < d,
                    c <= d,
                    rowv@.len() == c,
                    forall|j: int| 0 <= j < c ==> (#[trigger] rowv@[j]) == self@[r as int][j],
                decreases d - c,
            {
                rowv.push(self.get_value(r, c));
                c += 1;
            }
            proof {
                assert(rowv@ =~= self@[r as int]);
            }
            board.push(rowv);
            r += 1;
        }
        let dup = Sudoku { board };
        proof {
            assert(dup@ =~~= self@);
        }
        dup
    }

    /// True exactly when every cell holds a non-zero value.
    pub fn is_filled(&self) -> (r: bool)
        requires
            self.wf(),
        ensures
            r == filled(self@),
    {
        let d = self.dims();
        let mut row: usize = 0;
        while row < d
            invariant
                self.wf(),
                d == self@.len(),
                row <= d,
                forall|r2: int, c2: int|
                    0 <= r2 < row && 0 <= c2 < d ==> (#[trigger] self@[r2][c2]) != 0,
            decreases d - row,
        {
            let mut col: usize = 0;
            while col < d
                invariant
                    self.wf(),
                    d == self@.len(),
                    row < d,
                    col <= d,
                    forall|r2: int, c2: int|
                        0 <= r2 < row && 0 <= c2 < d ==> (#[trigger] self@[r2][c2]) != 0,
                    forall|c2: int| 0 <= c2 < col ==> (#[trigger] self@[row as int][c2]) != 0,
                decreases d - col,
            {
                if self.get_value(row, col) == 0 {
                    return false;
                }
                col += 1;
            }
            row += 1;
        }
        true
    }

    /// The first empty cell in row-major order, if any: every cell before
    /// the returned one is non-empty.
    pub fn first_empty(&self) -> (r: Option<(usize, usize)>)
        requires
            self.wf(),
        ensures
            match r {
                Some(p) => p.0 < self@.len() && p.1 < self@.len() && self@[p.0 as int][p.1 as int]
                    == 0 && forall|r2: int, c2: int|
                    0 <= r2 < self@.len() && 0 <= c2 < self@.len() && before(
                        r2,
                        c2,
                        p.0 as int,
                        p.1 as int,
                    ) ==> (#[trigger] self@[r2][c2]) != 0,
                None => filled(self@),
            },
    {
        let d = self.dims();
        let mut row: usize = 0;
        while row < d
            invariant
                self.wf(),
                d == self@.len(),
                row <= d,
                forall|r2: int, c2: int|
                    0 <= r2 < row && 0 <= c2 < d ==> (#[trigger] self@[r2][c2]) != 0,
            decreases d - row,
        {
            let mut col: usize = 0;
            while col < d
                invariant
                    self.wf(),
                    d == self@.len(),
                    row < d,
                    col <= d,
                    forall|r2: int, c2: int|
                        0 <= r2 < row && 0 <= c2 < d ==> (#[trigger] self@[r2][c2]) != 0,
                    forall|c2: int| 0 <= c2 < col ==> (#[trigger] self@[row as int][c2]) != 0,
                decreases d - col,
            {
                if self.get_value(row, col) == 0 {
                    return Some((row, col));
                }
                col += 1;
            }
            row += 1;
        }
        None
    }

    /// The three packed constraint keys of writing `cell_val` at `(r, c)`.
    pub fn make_cache(&self, r: usize, c: usize, cell_val: u8) -> (cache: Cache)
        requires
            self.wf(),
            r < self@.len(),
            c < self@.len(),
            cell_val as int <= self@.len(),
        ensures
            cache.row_cache as int == row_key(self@, r as int, cell_val),
            cache.col_cache as int == col_key(self@, c as int, cell_val),
            cache.box_cache as int == box_key(self@, r as int, c as int, cell_val),
    {
        let dim = self.dims();
        let bs = self.find_box_size();
        let cache = Cache::new(r as u8, c as u8, cell_val, dim as u8, bs);
        proof {
            assert((r as u8) as int == r as int);
            assert((c as u8) as int == c as int);
            assert((dim as u8) as int == dim as int);
        }
        cache
    }

    /// True exactly when none of the three keys of `(row, col, cell_val)`
    /// is already taken in the index.
    pub fn is_valid(&self, lk_up: &HashSet<u32>, cell_val: u8, row: usize, col: usize) -> (r: bool)
        requires
            self.wf(),
            row < self@.len(),
            col < self@.len(),
            1 <= cell_val as int <= self@.len(),
            lk_up@ == keys_of(self@),
        ensures
            r == placeable(self@, row as int, col as int, cell_val),
    {
        let cache = self.make_cache(row, col, cell_val);
        let r = !lk_up.contains(&cache.row_cache) && !lk_up.contains(&cache.col_cache)
            && !lk_up.contains(&cache.box_cache);
        proof {
            let g = self@;
            let d = g.len() as int;
            lemma_box_coord_bounds(g, row as int, col as int);
            lemma_enc_bounds(row as int, cell_val as int, d + 1);
            lemma_enc_bounds(d + 1, cell_val as int, col as int);
            lemma_enc_bounds(row as int / bsize(g), cell_val as int, col as int / bsize(g));
            lemma_row_key_membership(g, d, 0, row as int, cell_val);
            lemma_col_key_membership(g, d, 0, col as int, cell_val);
            lemma_box_key_membership(g, d, 0, row as int, col as int, cell_val);
        }
        r
    }

    /// Build the constraint index of every non-empty cell; the scan stops
    /// at the first cell that clashes with an earlier one.
    pub fn make_lk_up(&self) -> (result: Result<HashSet<u32>, SudokuError>)
        requires
            self.wf(),
        ensures
            match result {
                Ok(lk) => consistent(self@) && lk@ == keys_of(self@) && lk@.finite() && lk@.len()
                    == 3 * nnz(self@),
                Err(e) => !consistent(self@) && (e matches SudokuError::DuplicateValue {
                    row,
                    col,
                    value,
                } && row < self@.len() && col < self@.len() && self@[row as int][col as int]
                    == value && value != 0 && exists|r2: int, c2: int|
                    0 <= r2 < self@.len() && 0 <= c2 < self@.len() && !(r2 == row && c2 == col)
                        && (#[trigger] self@[r2][c2]) == value && shares_unit(
                        self@,
                        row as int,
                        col as int,
                        r2,
                        c2,
                    )),
            },
    {
        let d = self.dims();
        let ghost g = self@;
        let mut lk: HashSet<u32> = HashSet::new();
        proof {
            lemma_keys_upto_zero(g);
            assert(lk@ =~= keys_upto(g, 0, 0));
        }
        let mut row: usize = 0;
        while row < d
            invariant
                self.wf(),
                g == self@,
                d == g.len(),
                row <= d,
                lk@ == keys_upto(g, row as int, 0),
                lk@.finite(),
                lk@.len() == 3 * nnz_upto(g, row as int),
                consistent_upto(g, row as int, 0),
            decreases d - row,
        {
            let mut col: usize = 0;
            while col < d
                invariant
                    self.wf(),
                    g == self@,
                    d == g.len(),
                    row < d,
                    col <= d,
                    lk@ == keys_upto(g, row as int, col as int),
                    lk@.finite(),
                    lk@.len() == 3 * (nnz_upto(g, row as int) + row_nnz(g[row as int], col as int)),
                    consistent_upto(g, row as int, col as int),
                decreases d - col,
            {
                let v = self.get_value(row, col);
                if v != 0 {
                    let cache = self.make_cache(row, col, v);
                    proof {
                        lemma_box_coord_bounds(g, row as int, col as int);
                        lemma_enc_bounds(row as int, v as int, d as int + 1);
                        lemma_enc_bounds(d as int + 1, v as int, col as int);
                        lemma_enc_bounds(
                            row as int / bsize(g),
                            v as int,
                            col as int / bsize(g),
                        );
                        lemma_row_key_membership(g, row as int, col as int, row as int, v);
                        lemma_col_key_membership(g, row as int, col as int, col as int, v);
                        lemma_box_key_membership(g, row as int, col as int, row as int, col as int, v);
                    }
                    if lk.contains(&cache.row_cache) || lk.contains(&cache.col_cache)
                        || lk.contains(&cache.box_cache) {
                        proof {
                            lemma_duplicate_found(g, row as int, col as int);
                        }
                        return Err(SudokuError::DuplicateValue { row, col, value: v });
                    }
                    lk.insert(cache.row_cache);
                    lk.insert(cache.col_cache);
                    lk.insert(cache.box_cache);
                    proof {
                        lemma_cell_keys_distinct(g, row as int, col as int, v);
                        lemma_keys_upto_step_filled(g, row as int, col as int);
                        lemma_consistent_upto_step(g, row as int, col as int);
                        lemma_row_nnz_bounds(g[row as int], col as int);
                        assert(lk@ =~= keys_upto(g, row as int, col as int + 1));
                    }
                } else {
                    proof {
                        lemma_keys_upto_step_empty(g, row as int, col as int);
                        lemma_consistent_upto_step(g, row as int, col as int);
                        assert(lk@ =~= keys_upto(g, row as int, col as int + 1));
                    }
                }
                col += 1;
            }
            proof {
                lemma_keys_upto_row_end(g, row as int);
                lemma_consistent_upto_row_end(g, row as int);
                assert(lk@ =~= keys_upto(g, row as int + 1, 0));
            }
            row += 1;
        }
        Ok(lk)
    }
}

/// A key of the current cell already present among the earlier cells'
/// keys means the whole grid clashes.
proof fn lemma_duplicate_found(g: Seq<Seq<u8>>, r: int, c: int)
    requires
        wf_grid(g),
        0 <= r < g.len(),
        0 <= c < g.len(),
        g[r][c] != 0,
        row_has_upto(g, r, c, r, g[r][c]) || col_has_upto(g, r, c, c, g[r][c]) || box_has_upto(
            g,
            r,
            c,
            r / bsize(g),
            c / bsize(g),
            g[r][c],
        ),
    ensures
        !consistent(g),
        exists|r2: int, c2: int|
            0 <= r2 < g.len() && 0 <= c2 < g.len() && !(r2 == r && c2 == c) && (
            #[trigger] g[r2][c2]) == g[r][c] && shares_unit(g, r, c, r2, c2),
{
    let d = g.len() as int;
    let v = g[r][c];
    if row_has_upto(g, r, c, r, v) {
        let c2 = choose|c2: int|
            0 <= c2 < g.len() && before(r, c2, r, c) && (#[trigger] g[r][c2]) == v;
        assert(g[r][c2] == v && shares_unit(g, r, c, r, c2));
    } else if col_has_upto(g, r, c, c, v) {
        let r2 = choose|r2: int|
            0 <= r2 < g.len() && before(r2, c, r, c) && (#[trigger] g[r2][c]) == v;
        assert(g[r2][c] == v && shares_unit(g, r, c, r2, c));
    } else {
        let (r2, c2) = choose|r2: int, c2: int|
            0 <= r2 < g.len() && 0 <= c2 < g.len() && before(r2, c2, r, c)
                && r2 / bsize(g) == r / bsize(g) && c2 / bsize(g) == c / bsize(g)
                && (#[trigger] g[r2][c2]) == v;
        assert(same_box(g, r, c, r2, c2));
        assert(g[r2][c2] == v && shares_unit(g, r, c, r2, c2));
    }
    let (r2, c2) = choose|r2: int, c2: int|
        0 <= r2 < g.len() && 0 <= c2 < g.len() && !(r2 == r && c2 == c) && (#[trigger] g[r2][c2])
            == v && shares_unit(g, r, c, r2, c2);
    if consistent(g) {
        assert(before(r2, c2, d, 0) && before(r, c, d, 0));
        assert(!shares_unit(g, r, c, r2, c2));
        assert(false);
    }
}

} // verus!
