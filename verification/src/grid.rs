//! Mathematical model of a Sudoku grid and of the constraint-key index.
//!
//! A grid is a square matrix of cell values; `0` marks an empty cell and
//! `1..=dimension` are placed values.  Each placed value contributes three
//! canonical constraint keys (row, column, box); a grid is consistent
//! exactly when no two distinct cells holding the same non-zero value share
//! a row, a column or a box.

use vstd::prelude::*;
use vstd::arithmetic::div_mod::{lemma_div_nonincreasing, lemma_div_pos_is_pos};

verus! {

/// A dimension is supported when it is a non-zero perfect square small
/// enough that every constraint-key component fits in one byte.
pub open spec fn is_square(n: int) -> bool {
    exists|m: int| 0 <= m && #[trigger] (m * m) == n
}

pub open spec fn supported_dim(d: int) -> bool {
    1 <= d <= 225 && is_square(d)
}

/// The non-negative square root of a perfect square.
pub open spec fn sqrt_of(n: int) -> int {
    choose|m: int| 0 <= m && #[trigger] (m * m) == n
}

pub proof fn lemma_sqrt_of(n: int, m: int)
    requires
        0 <= m,
        m * m == n,
    ensures
        sqrt_of(n) == m,
{
    let k = sqrt_of(n);
    assert(0 <= k && k * k == n);
    assert(k == m) by (nonlinear_arith)
        requires
            0 <= k,
            0 <= m,
            k * k == m * m,
    ;
}

pub open spec fn wf_grid(g: Seq<Seq<u8>>) -> bool {
    let d = g.len() as int;
    &&& supported_dim(d)
    &&& (forall|r: int| 0 <= r < d ==> (#[trigger] g[r]).len() == d)
    &&& (forall|r: int, c: int| 0 <= r < d && 0 <= c < d ==> (#[trigger] g[r][c]) as int <= d)
}

/// The side length of one box.
pub open spec fn bsize(g: Seq<Seq<u8>>) -> int {
    sqrt_of(g.len() as int)
}

pub proof fn lemma_bsize_bounds(g: Seq<Seq<u8>>)
    requires
        wf_grid(g),
    ensures
        1 <= bsize(g) <= g.len(),
        bsize(g) * bsize(g) == g.len(),
{
    let d = g.len() as int;
    let m = choose|m: int| 0 <= m && #[trigger] (m * m) == d;
    lemma_sqrt_of(d, m);
    let b = bsize(g);
    assert(1 <= b && b <= d) by (nonlinear_arith)
        requires
            b * b == d,
            1 <= d,
            0 <= b,
    ;
}

pub open spec fn same_box(g: Seq<Seq<u8>>, r1: int, c1: int, r2: int, c2: int) -> bool {
    r1 / bsize(g) == r2 / bsize(g) && c1 / bsize(g) == c2 / bsize(g)
}

/// Two cell positions constrain each other when they share a row, a column
/// or a box.
pub open spec fn shares_unit(g: Seq<Seq<u8>>, r1: int, c1: int, r2: int, c2: int) -> bool {
    r1 == r2 || c1 == c2 || same_box(g, r1, c1, r2, c2)
}

/// Row-major order: cell `(r1, c1)` comes strictly before position `(r2, c2)`.
pub open spec fn before(r1: int, c1: int, r2: int, c2: int) -> bool {
    r1 < r2 || (r1 == r2 && c1 < c2)
}

/// No two distinct cells among those strictly before position `(upr, upc)`
/// hold the same non-zero value in a shared unit.
pub open spec fn consistent_upto(g: Seq<Seq<u8>>, upr: int, upc: int) -> bool {
    forall|r1: int, c1: int, r2: int, c2: int|
        0 <= r1 < g.len() && 0 <= c1 < g.len() && 0 <= r2 < g.len() && 0 <= c2 < g.len()
            && before(r1, c1, upr, upc) && before(r2, c2, upr, upc) && !(r1 == r2 && c1 == c2)
            && (#[trigger] g[r1][c1]) != 0 && g[r1][c1] == (#[trigger] g[r2][c2])
            ==> !shares_unit(g, r1, c1, r2, c2)
}

pub open spec fn consistent(g: Seq<Seq<u8>>) -> bool {
    consistent_upto(g, g.len() as int, 0)
}

pub open spec fn filled(g: Seq<Seq<u8>>) -> bool {
    forall|r: int, c: int|
        0 <= r < g.len() && 0 <= c < g.len() ==> (#[trigger] g[r][c]) != 0
}

/// Every placed value of `g1` is kept unchanged in `g2`.
pub open spec fn extends(g1: Seq<Seq<u8>>, g2: Seq<Seq<u8>>) -> bool {
    &&& g1.len() == g2.len()
    &&& forall|r: int, c: int|
        0 <= r < g1.len() && 0 <= c < g1.len() && (#[trigger] g1[r][c]) != 0
            ==> g2[r][c] == g1[r][c]
}

pub open spec fn solution_of(s: Seq<Seq<u8>>, g: Seq<Seq<u8>>) -> bool {
    &&& wf_grid(s)
    &&& extends(g, s)
    &&& filled(s)
    &&& consistent(s)
}

pub open spec fn solvable(g: Seq<Seq<u8>>) -> bool {
    exists|s: Seq<Seq<u8>>| solution_of(s, g)
}

/// The grid with value `v` written into cell `(r, c)`.
pub open spec fn place(g: Seq<Seq<u8>>, r: int, c: int, v: u8) -> Seq<Seq<u8>> {
    g.update(r, g[r].update(c, v))
}

// ---------------------------------------------------------------------------
// Constraint keys.  Each key packs three byte-wide components into one
// machine word; the `d + 1` sentinel separates the row family from the
// column family, and box keys keep both outer components below `d + 1`.
// ---------------------------------------------------------------------------

pub open spec fn enc(a: int, b: int, c: int) -> int {
    a * 65536 + b * 256 + c
}

pub open spec fn row_key(g: Seq<Seq<u8>>, r: int, v: u8) -> int {
    enc(r, v as int, g.len() as int + 1)
}

pub open spec fn col_key(g: Seq<Seq<u8>>, c: int, v: u8) -> int {
    enc(g.len() as int + 1, v as int, c)
}

pub open spec fn box_key(g: Seq<Seq<u8>>, r: int, c: int, v: u8) -> int {
    enc(r / bsize(g), v as int, c / bsize(g))
}

pub proof fn lemma_enc_injective(a1: int, b1: int, c1: int, a2: int, b2: int, c2: int)
    requires
        0 <= a1 < 256,
        0 <= b1 < 256,
        0 <= c1 < 256,
        0 <= a2 < 256,
        0 <= b2 < 256,
        0 <= c2 < 256,
        enc(a1, b1, c1) == enc(a2, b2, c2),
    ensures
        a1 == a2,
        b1 == b2,
        c1 == c2,
{
}

pub proof fn lemma_enc_bounds(a: int, b: int, c: int)
    requires
        0 <= a < 256,
        0 <= b < 256,
        0 <= c < 256,
    ensures
        0 <= enc(a, b, c) < 0x1000000,
{
}

/// Box coordinates of an in-range cell stay within the byte range of its
/// own coordinates.
pub proof fn lemma_box_coord_bounds(g: Seq<Seq<u8>>, r: int, c: int)
    requires
        wf_grid(g),
        0 <= r < g.len(),
        0 <= c < g.len(),
    ensures
        0 <= r / bsize(g) <= r,
        0 <= c / bsize(g) <= c,
{
    lemma_bsize_bounds(g);
    lemma_div_pos_is_pos(r, bsize(g));
    lemma_div_nonincreasing(r, bsize(g));
    lemma_div_pos_is_pos(c, bsize(g));
    lemma_div_nonincreasing(c, bsize(g));
}

/// `k` is one of the three constraint keys of the (non-empty) cell `(r, c)`.
pub open spec fn cell_keyed(g: Seq<Seq<u8>>, r: int, c: int, k: int) -> bool {
    ||| k == row_key(g, r, g[r][c])
    ||| k == col_key(g, c, g[r][c])
    ||| k == box_key(g, r, c, g[r][c])
}

/// `k` is a constraint key of some non-empty cell strictly before `(upr, upc)`.
pub open spec fn key_in_upto(g: Seq<Seq<u8>>, upr: int, upc: int, k: int) -> bool {
    exists|r: int, c: int|
        0 <= r < g.len() && 0 <= c < g.len() && before(r, c, upr, upc)
            && (#[trigger] g[r][c]) != 0 && cell_keyed(g, r, c, k)
}

pub open spec fn keys_upto(g: Seq<Seq<u8>>, upr: int, upc: int) -> Set<u32> {
    Set::new(|k: u32| key_in_upto(g, upr, upc, k as int))
}

/// All constraint keys of the grid's non-empty cells.
pub open spec fn keys_of(g: Seq<Seq<u8>>) -> Set<u32> {
    keys_upto(g, g.len() as int, 0)
}

pub open spec fn row_has_upto(g: Seq<Seq<u8>>, upr: int, upc: int, r: int, v: u8) -> bool {
    exists|c: int|
        0 <= c < g.len() && before(r, c, upr, upc) && (#[trigger] g[r][c]) == v
}

pub open spec fn col_has_upto(g: Seq<Seq<u8>>, upr: int, upc: int, c: int, v: u8) -> bool {
    exists|r: int|
        0 <= r < g.len() && before(r, c, upr, upc) && (#[trigger] g[r][c]) == v
}

pub open spec fn box_has_upto(g: Seq<Seq<u8>>, upr: int, upc: int, br: int, bc: int, v: u8) -> bool {
    exists|r: int, c: int|
        0 <= r < g.len() && 0 <= c < g.len() && before(r, c, upr, upc)
            && r / bsize(g) == br && c / bsize(g) == bc && (#[trigger] g[r][c]) == v
}

pub open spec fn row_has(g: Seq<Seq<u8>>, r: int, v: u8) -> bool {
    row_has_upto(g, g.len() as int, 0, r, v)
}

pub open spec fn col_has(g: Seq<Seq<u8>>, c: int, v: u8) -> bool {
    col_has_upto(g, g.len() as int, 0, c, v)
}

pub open spec fn box_has(g: Seq<Seq<u8>>, br: int, bc: int, v: u8) -> bool {
    box_has_upto(g, g.len() as int, 0, br, bc, v)
}

/// Value `v` may be written into cell `(r, c)` without clashing with any
/// already placed value.
pub open spec fn placeable(g: Seq<Seq<u8>>, r: int, c: int, v: u8) -> bool {
    &&& !row_has(g, r, v)
    &&& !col_has(g, c, v)
    &&& !box_has(g, r / bsize(g), c / bsize(g), v)
}

// ---------------------------------------------------------------------------
// Membership of a family key in the prefix key set is exactly the matching
// "value already used in this row / column / box" predicate.
// ---------------------------------------------------------------------------

pub proof fn lemma_row_key_membership(g: Seq<Seq<u8>>, upr: int, upc: int, r: int, v: u8)
    requires
        wf_grid(g),
        0 <= r < g.len(),
        1 <= v as int <= g.len(),
    ensures
        key_in_upto(g, upr, upc, row_key(g, r, v)) <==> row_has_upto(g, upr, upc, r, v),
{
    let d = g.len() as int;
    let k = row_key(g, r, v);
    if key_in_upto(g, upr, upc, k) {
        let (r2, c2) = choose|r2: int, c2: int|
            0 <= r2 < g.len() && 0 <= c2 < g.len() && before(r2, c2, upr, upc)
                && (#[trigger] g[r2][c2]) != 0 && cell_keyed(g, r2, c2, k);
        let v2 = g[r2][c2];
        lemma_box_coord_bounds(g, r2, c2);
        if k == row_key(g, r2, v2) {
            lemma_enc_injective(r2, v2 as int, d + 1, r, v as int, d + 1);
            assert(g[r][c2] == v);
            assert(row_has_upto(g, upr, upc, r, v));
        } else if k == col_key(g, c2, v2) {
            lemma_enc_injective(d + 1, v2 as int, c2, r, v as int, d + 1);
            assert(false);
        } else {
            lemma_enc_injective(r2 / bsize(g), v2 as int, c2 / bsize(g), r, v as int, d + 1);
            assert(false);
        }
    }
    if row_has_upto(g, upr, upc, r, v) {
        let c2 = choose|c2: int|
            0 <= c2 < g.len() && before(r, c2, upr, upc) && (#[trigger] g[r][c2]) == v;
        assert(g[r][c2] != 0);
        assert(cell_keyed(g, r, c2, k));
        assert(key_in_upto(g, upr, upc, k));
    }
}

pub proof fn lemma_col_key_membership(g: Seq<Seq<u8>>, upr: int, upc: int, c: int, v: u8)
    requires
        wf_grid(g),
        0 <= c < g.len(),
        1 <= v as int <= g.len(),
    ensures
        key_in_upto(g, upr, upc, col_key(g, c, v)) <==> col_has_upto(g, upr, upc, c, v),
{
    let d = g.len() as int;
    let k = col_key(g, c, v);
    if key_in_upto(g, upr, upc, k) {
        let (r2, c2) = choose|r2: int, c2: int|
            0 <= r2 < g.len() && 0 <= c2 < g.len() && before(r2, c2, upr, upc)
                && (#[trigger] g[r2][c2]) != 0 && cell_keyed(g, r2, c2, k);
        let v2 = g[r2][c2];
        lemma_box_coord_bounds(g, r2, c2);
        if k == row_key(g, r2, v2) {
            lemma_enc_injective(r2, v2 as int, d + 1, d + 1, v as int, c);
            assert(false);
        } else if k == col_key(g, c2, v2) {
            lemma_enc_injective(d + 1, v2 as int, c2, d + 1, v as int, c);
            assert(g[r2][c] == v);
            assert(col_has_upto(g, upr, upc, c, v));
        } else {
            lemma_enc_injective(r2 / bsize(g), v2 as int, c2 / bsize(g), d + 1, v as int, c);
            assert(false);
        }
    }
    if col_has_upto(g, upr, upc, c, v) {
        let r2 = choose|r2: int|
            0 <= r2 < g.len() && before(r2, c, upr, upc) && (#[trigger] g[r2][c]) == v;
        assert(g[r2][c] != 0);
        assert(cell_keyed(g, r2, c, k));
        assert(key_in_upto(g, upr, upc, k));
    }
}

pub proof fn lemma_box_key_membership(g: Seq<Seq<u8>>, upr: int, upc: int, r: int, c: int, v: u8)
    requires
        wf_grid(g),
        0 <= r < g.len(),
        0 <= c < g.len(),
        1 <= v as int <= g.len(),
    ensures
        key_in_upto(g, upr, upc, box_key(g, r, c, v)) <==> box_has_upto(
            g,
            upr,
            upc,
            r / bsize(g),
            c / bsize(g),
            v,
        ),
{
    let d = g.len() as int;
    let k = box_key(g, r, c, v);
    lemma_box_coord_bounds(g, r, c);
    if key_in_upto(g, upr, upc, k) {
        let (r2, c2) = choose|r2: int, c2: int|
            0 <= r2 < g.len() && 0 <= c2 < g.len() && before(r2, c2, upr, upc)
                && (#[trigger] g[r2][c2]) != 0 && cell_keyed(g, r2, c2, k);
        let v2 = g[r2][c2];
        lemma_box_coord_bounds(g, r2, c2);
        if k == row_key(g, r2, v2) {
            lemma_enc_injective(r2, v2 as int, d + 1, r / bsize(g), v as int, c / bsize(g));
            assert(false);
        } else if k == col_key(g, c2, v2) {
            lemma_enc_injective(d + 1, v2 as int, c2, r / bsize(g), v as int, c / bsize(g));
            assert(false);
        } else {
            lemma_enc_injective(
                r2 / bsize(g),
                v2 as int,
                c2 / bsize(g),
                r / bsize(g),
                v as int,
                c / bsize(g),
            );
            assert(box_has_upto(g, upr, upc, r / bsize(g), c / bsize(g), v));
        }
    }
    if box_has_upto(g, upr, upc, r / bsize(g), c / bsize(g), v) {
        let (r2, c2) = choose|r2: int, c2: int|
            0 <= r2 < g.len() && 0 <= c2 < g.len() && before(r2, c2, upr, upc)
                && r2 / bsize(g) == r / bsize(g) && c2 / bsize(g) == c / bsize(g)
                && (#[trigger] g[r2][c2]) == v;
        assert(g[r2][c2] != 0);
        assert(cell_keyed(g, r2, c2, k));
        assert(key_in_upto(g, upr, upc, k));
    }
}

/// The three keys of one placement are pairwise distinct.
pub proof fn lemma_cell_keys_distinct(g: Seq<Seq<u8>>, r: int, c: int, v: u8)
    requires
        wf_grid(g),
        0 <= r < g.len(),
        0 <= c < g.len(),
        1 <= v as int <= g.len(),
    ensures
        row_key(g, r, v) != col_key(g, c, v),
        row_key(g, r, v) != box_key(g, r, c, v),
        col_key(g, c, v) != box_key(g, r, c, v),
{
    let d = g.len() as int;
    lemma_box_coord_bounds(g, r, c);
    if row_key(g, r, v) == col_key(g, c, v) {
        lemma_enc_injective(r, v as int, d + 1, d + 1, v as int, c);
    }
    if row_key(g, r, v) == box_key(g, r, c, v) {
        lemma_enc_injective(r, v as int, d + 1, r / bsize(g), v as int, c / bsize(g));
    }
    if col_key(g, c, v) == box_key(g, r, c, v) {
        lemma_enc_injective(d + 1, v as int, c, r / bsize(g), v as int, c / bsize(g));
    }
}

// ---------------------------------------------------------------------------
// Placement: cell-level facts, preservation of well-formedness and
// consistency, and the effect on the key set.
// ---------------------------------------------------------------------------

pub proof fn lemma_place_facts(g: Seq<Seq<u8>>, r: int, c: int, v: u8)
    requires
        wf_grid(g),
        0 <= r < g.len(),
        0 <= c < g.len(),
        v as int <= g.len(),
    ensures
        place(g, r, c, v).len() == g.len(),
        place(g, r, c, v)[r][c] == v,
        forall|r2: int, c2: int|
            0 <= r2 < g.len() && 0 <= c2 < g.len() && !(r2 == r && c2 == c)
                ==> #[trigger] place(g, r, c, v)[r2][c2] == g[r2][c2],
        wf_grid(place(g, r, c, v)),
        bsize(place(g, r, c, v)) == bsize(g),
{
    let g2 = place(g, r, c, v);
    assert forall|r2: int, c2: int|
        0 <= r2 < g.len() && 0 <= c2 < g.len() && !(r2 == r && c2 == c)
            implies #[trigger] g2[r2][c2] == g[r2][c2] by {
        if r2 == r {
            assert(g2[r2] == g[r].update(c, v));
        }
    }
    assert(forall|r2: int| 0 <= r2 < g2.len() ==> (#[trigger] g2[r2]).len() == g2.len());
}

/// Placing a fresh, placeable value keeps the grid consistent.
pub proof fn lemma_place_consistent(g: Seq<Seq<u8>>, r: int, c: int, v: u8)
    requires
        wf_grid(g),
        0 <= r < g.len(),
        0 <= c < g.len(),
        g[r][c] == 0,
        1 <= v as int <= g.len(),
        consistent(g),
        placeable(g, r, c, v),
    ensures
        consistent(place(g, r, c, v)),
{
    let g2 = place(g, r, c, v);
    let d = g.len() as int;
    lemma_place_facts(g, r, c, v);
    assert forall|r1: int, c1: int, r2: int, c2: int|
        0 <= r1 < g2.len() && 0 <= c1 < g2.len() && 0 <= r2 < g2.len() && 0 <= c2 < g2.len()
            && before(r1, c1, d, 0) && before(r2, c2, d, 0) && !(r1 == r2 && c1 == c2)
            && (#[trigger] g2[r1][c1]) != 0 && g2[r1][c1] == (#[trigger] g2[r2][c2])
            implies !shares_unit(g2, r1, c1, r2, c2) by {
        if r1 == r && c1 == c {
            assert(g2[r2][c2] == g[r2][c2] && g[r2][c2] == v);
            if r2 == r1 {
                assert(row_has(g, r, v));
            } else if c2 == c1 {
                assert(col_has(g, c, v));
            } else if same_box(g2, r1, c1, r2, c2) {
                assert(box_has(g, r / bsize(g), c / bsize(g), v));
            }
        } else if r2 == r && c2 == c {
            assert(g2[r1][c1] == g[r1][c1] && g[r1][c1] == v);
            if r1 == r2 {
                assert(row_has(g, r, v));
            } else if c1 == c2 {
                assert(col_has(g, c, v));
            } else if same_box(g2, r1, c1, r2, c2) {
                assert(box_has(g, r / bsize(g), c / bsize(g), v));
            }
        } else {
            assert(g2[r1][c1] == g[r1][c1] && g2[r2][c2] == g[r2][c2]);
            assert(!shares_unit(g, r1, c1, r2, c2));
        }
    }
}

/// Clearing a cell can never create a clash.
pub proof fn lemma_clear_consistent(g: Seq<Seq<u8>>, r: int, c: int)
    requires
        wf_grid(g),
        0 <= r < g.len(),
        0 <= c < g.len(),
        consistent(g),
    ensures
        consistent(place(g, r, c, 0)),
        wf_grid(place(g, r, c, 0)),
{
    let g2 = place(g, r, c, 0);
    let d = g.len() as int;
    lemma_place_facts(g, r, c, 0);
    assert forall|r1: int, c1: int, r2: int, c2: int|
        0 <= r1 < g2.len() && 0 <= c1 < g2.len() && 0 <= r2 < g2.len() && 0 <= c2 < g2.len()
            && before(r1, c1, d, 0) && before(r2, c2, d, 0) && !(r1 == r2 && c1 == c2)
            && (#[trigger] g2[r1][c1]) != 0 && g2[r1][c1] == (#[trigger] g2[r2][c2])
            implies !shares_unit(g2, r1, c1, r2, c2) by {
        assert(!(r1 == r && c1 == c) && !(r2 == r && c2 == c));
        assert(g2[r1][c1] == g[r1][c1] && g2[r2][c2] == g[r2][c2]);
        assert(!shares_unit(g, r1, c1, r2, c2));
    }
}

/// Overwriting one cell twice keeps only the second write.
pub proof fn lemma_place_twice(g: Seq<Seq<u8>>, r: int, c: int, v: u8, w: u8)
    requires
        0 <= r < g.len(),
        0 <= c < g.len(),
        c < g[r].len(),
    ensures
        place(place(g, r, c, v), r, c, w) == place(g, r, c, w),
{
    assert(place(place(g, r, c, v), r, c, w) =~~= place(g, r, c, w));
}

/// Writing a cell's own value back changes nothing.
pub proof fn lemma_place_noop(g: Seq<Seq<u8>>, r: int, c: int)
    requires
        0 <= r < g.len(),
        0 <= c < g.len(),
        c < g[r].len(),
    ensures
        place(g, r, c, g[r][c]) == g,
{
    assert(place(g, r, c, g[r][c]) =~~= g);
}

pub proof fn lemma_keys_place(g: Seq<Seq<u8>>, r: int, c: int, v: u8)
    requires
        wf_grid(g),
        0 <= r < g.len(),
        0 <= c < g.len(),
        g[r][c] == 0,
        1 <= v as int <= g.len(),
    ensures
        keys_of(place(g, r, c, v)) =~= keys_of(g).insert((row_key(g, r, v)) as u32).insert(
            (col_key(g, c, v)) as u32,
        ).insert((box_key(g, r, c, v)) as u32),
{
    let g2 = place(g, r, c, v);
    let d = g.len() as int;
    lemma_place_facts(g, r, c, v);
    lemma_box_coord_bounds(g, r, c);
    lemma_enc_bounds(r, v as int, d + 1);
    lemma_enc_bounds(d + 1, v as int, c);
    lemma_enc_bounds(r / bsize(g), v as int, c / bsize(g));
    let rhs = keys_of(g).insert((row_key(g, r, v)) as u32).insert(
        (col_key(g, c, v)) as u32,
    ).insert((box_key(g, r, c, v)) as u32);
    assert forall|k: u32| keys_of(g2).contains(k) implies rhs.contains(k) by {
        let ki = k as int;
        let (r2, c2) = choose|r2: int, c2: int|
            0 <= r2 < g2.len() && 0 <= c2 < g2.len() && before(r2, c2, d, 0)
                && (#[trigger] g2[r2][c2]) != 0 && cell_keyed(g2, r2, c2, ki);
        if r2 == r && c2 == c {
            assert(g2[r][c] == v);
            assert(row_key(g2, r, v) == row_key(g, r, v));
            assert(col_key(g2, c, v) == col_key(g, c, v));
            assert(box_key(g2, r, c, v) == box_key(g, r, c, v));
            if ki == row_key(g, r, v) {
                assert(k == (row_key(g, r, v)) as u32);
            } else if ki == col_key(g, c, v) {
                assert(k == (col_key(g, c, v)) as u32);
            } else {
                assert(k == (box_key(g, r, c, v)) as u32);
            }
        } else {
            assert(g2[r2][c2] == g[r2][c2]);
            assert(cell_keyed(g, r2, c2, ki));
            assert(key_in_upto(g, d, 0, ki));
        }
    }
    assert forall|k: u32| rhs.contains(k) implies keys_of(g2).contains(k) by {
        let ki = k as int;
        if keys_of(g).contains(k) {
            let (r2, c2) = choose|r2: int, c2: int|
                0 <= r2 < g.len() && 0 <= c2 < g.len() && before(r2, c2, d, 0)
                    && (#[trigger] g[r2][c2]) != 0 && cell_keyed(g, r2, c2, ki);
            assert(!(r2 == r && c2 == c));
            assert(g2[r2][c2] == g[r2][c2]);
            assert(cell_keyed(g2, r2, c2, ki));
            assert(key_in_upto(g2, d, 0, ki));
        } else {
            assert(g2[r][c] == v && v != 0);
            assert(cell_keyed(g2, r, c, ki)) by {
                assert(row_key(g2, r, v) == row_key(g, r, v));
                assert(col_key(g2, c, v) == col_key(g, c, v));
                assert(box_key(g2, r, c, v) == box_key(g, r, c, v));
            }
            assert(key_in_upto(g2, d, 0, ki));
        }
    }
}

/// A placeable value's keys are absent from the grid's key set.
pub proof fn lemma_keys_fresh(g: Seq<Seq<u8>>, r: int, c: int, v: u8)
    requires
        wf_grid(g),
        0 <= r < g.len(),
        0 <= c < g.len(),
        1 <= v as int <= g.len(),
        placeable(g, r, c, v),
    ensures
        !keys_of(g).contains((row_key(g, r, v)) as u32),
        !keys_of(g).contains((col_key(g, c, v)) as u32),
        !keys_of(g).contains((box_key(g, r, c, v)) as u32),
{
    let d = g.len() as int;
    lemma_box_coord_bounds(g, r, c);
    lemma_enc_bounds(r, v as int, d + 1);
    lemma_enc_bounds(d + 1, v as int, c);
    lemma_enc_bounds(r / bsize(g), v as int, c / bsize(g));
    lemma_row_key_membership(g, d, 0, r, v);
    lemma_col_key_membership(g, d, 0, c, v);
    lemma_box_key_membership(g, d, 0, r, c, v);
}

// ---------------------------------------------------------------------------
// Solutions: transfer across placements, and impossibility results.
// ---------------------------------------------------------------------------

pub proof fn lemma_extends_trans(a: Seq<Seq<u8>>, b: Seq<Seq<u8>>, c: Seq<Seq<u8>>)
    requires
        extends(a, b),
        extends(b, c),
    ensures
        extends(a, c),
{
}

pub proof fn lemma_extends_place(g: Seq<Seq<u8>>, r: int, c: int, v: u8)
    requires
        wf_grid(g),
        0 <= r < g.len(),
        0 <= c < g.len(),
        g[r][c] == 0,
        v as int <= g.len(),
    ensures
        extends(g, place(g, r, c, v)),
{
    lemma_place_facts(g, r, c, v);
}

pub proof fn lemma_extends_clear(g: Seq<Seq<u8>>, r: int, c: int)
    requires
        wf_grid(g),
        0 <= r < g.len(),
        0 <= c < g.len(),
    ensures
        extends(place(g, r, c, 0), g),
{
    lemma_place_facts(g, r, c, 0);
}

/// A solution that chooses `v` at the empty cell `(r, c)` is a solution of
/// the grid with `v` already placed there.
pub proof fn lemma_solution_place(g: Seq<Seq<u8>>, r: int, c: int, v: u8, s: Seq<Seq<u8>>)
    requires
        wf_grid(g),
        0 <= r < g.len(),
        0 <= c < g.len(),
        g[r][c] == 0,
        v as int <= g.len(),
        solution_of(s, g),
        s[r][c] == v,
    ensures
        solution_of(s, place(g, r, c, v)),
{
    let g2 = place(g, r, c, v);
    lemma_place_facts(g, r, c, v);
    assert forall|r2: int, c2: int|
        0 <= r2 < g2.len() && 0 <= c2 < g2.len() && (#[trigger] g2[r2][c2]) != 0
            implies s[r2][c2] == g2[r2][c2] by {
        if !(r2 == r && c2 == c) {
            assert(g2[r2][c2] == g[r2][c2]);
        }
    }
}

pub proof fn lemma_solution_unplace(g: Seq<Seq<u8>>, r: int, c: int, v: u8, s: Seq<Seq<u8>>)
    requires
        wf_grid(g),
        0 <= r < g.len(),
        0 <= c < g.len(),
        g[r][c] == 0,
        1 <= v as int <= g.len(),
        solution_of(s, place(g, r, c, v)),
    ensures
        solution_of(s, g),
        s[r][c] == v,
{
    let g2 = place(g, r, c, v);
    lemma_place_facts(g, r, c, v);
    assert forall|r2: int, c2: int|
        0 <= r2 < g.len() && 0 <= c2 < g.len() && (#[trigger] g[r2][c2]) != 0
            implies s[r2][c2] == g[r2][c2] by {
        assert(!(r2 == r && c2 == c));
        assert(g2[r2][c2] == g[r2][c2]);
    }
    assert(g2[r][c] == v && v != 0);
}

/// No solution can put an unplaceable value into an empty cell.
pub proof fn lemma_unplaceable_no_solution(g: Seq<Seq<u8>>, r: int, c: int, v: u8, s: Seq<Seq<u8>>)
    requires
        wf_grid(g),
        0 <= r < g.len(),
        0 <= c < g.len(),
        g[r][c] == 0,
        1 <= v as int <= g.len(),
        !placeable(g, r, c, v),
        solution_of(s, g),
    ensures
        s[r][c] != v,
{
    let d = g.len() as int;
    if s[r][c] == v {
        assert(bsize(s) == bsize(g));
        if row_has(g, r, v) {
            let c2 = choose|c2: int|
                0 <= c2 < g.len() && before(r, c2, d, 0) && (#[trigger] g[r][c2]) == v;
            assert(c2 != c);
            assert(s[r][c2] == v);
            assert(!shares_unit(s, r, c, r, c2));
        } else if col_has(g, c, v) {
            let r2 = choose|r2: int|
                0 <= r2 < g.len() && before(r2, c, d, 0) && (#[trigger] g[r2][c]) == v;
            assert(r2 != r);
            assert(s[r2][c] == v);
            assert(!shares_unit(s, r, c, r2, c));
        } else {
            let (r2, c2) = choose|r2: int, c2: int|
                0 <= r2 < g.len() && 0 <= c2 < g.len() && before(r2, c2, d, 0)
                    && r2 / bsize(g) == r / bsize(g) && c2 / bsize(g) == c / bsize(g)
                    && (#[trigger] g[r2][c2]) == v;
            assert(!(r2 == r && c2 == c));
            assert(s[r2][c2] == v);
            assert(same_box(s, r, c, r2, c2));
            assert(!shares_unit(s, r, c, r2, c2));
        }
        assert(false);
    }
}

/// A grid that already holds a clash has no solution.
pub proof fn lemma_inconsistent_unsolvable(g: Seq<Seq<u8>>)
    requires
        wf_grid(g),
        !consistent(g),
    ensures
        !solvable(g),
{
    let d = g.len() as int;
    if solvable(g) {
        let s = choose|s: Seq<Seq<u8>>| solution_of(s, g);
        let (r1, c1, r2, c2) = choose|r1: int, c1: int, r2: int, c2: int|
            0 <= r1 < g.len() && 0 <= c1 < g.len() && 0 <= r2 < g.len() && 0 <= c2 < g.len()
                && before(r1, c1, d, 0) && before(r2, c2, d, 0) && !(r1 == r2 && c1 == c2)
                && (#[trigger] g[r1][c1]) != 0 && g[r1][c1] == (#[trigger] g[r2][c2])
                && shares_unit(g, r1, c1, r2, c2);
        assert(s[r1][c1] == g[r1][c1] && s[r2][c2] == g[r2][c2]);
        assert(bsize(s) == bsize(g));
        assert(!shares_unit(s, r1, c1, r2, c2));
        assert(false);
    }
}

/// A filled grid admits only itself as an extension of equal dimensions.
pub proof fn lemma_filled_extends_eq(g: Seq<Seq<u8>>, s: Seq<Seq<u8>>)
    requires
        wf_grid(g),
        wf_grid(s),
        extends(g, s),
        filled(g),
    ensures
        g == s,
{
    assert(g =~~= s);
}

// ---------------------------------------------------------------------------
// Row-major lexicographic order on grids, used to pin the solver's output.
// ---------------------------------------------------------------------------

/// The two grids agree on every cell strictly before `(r, c)` in row-major
/// order.
pub open spec fn agrees_before(a: Seq<Seq<u8>>, b: Seq<Seq<u8>>, r: int, c: int) -> bool {
    forall|r2: int, c2: int|
        0 <= r2 < a.len() && 0 <= c2 < a.len() && before(r2, c2, r, c) ==> (#[trigger] a[r2][c2])
            == b[r2][c2]
}

/// Row-major lexicographic order: equal, or smaller at the first cell on
/// which the grids differ.
pub open spec fn grid_le(a: Seq<Seq<u8>>, b: Seq<Seq<u8>>) -> bool {
    ||| a == b
    ||| exists|r: int, c: int|
        0 <= r < a.len() && 0 <= c < a.len() && (#[trigger] a[r][c]) < b[r][c] && agrees_before(
            a,
            b,
            r,
            c,
        )
}

pub proof fn lemma_grid_le_antisymmetric(a: Seq<Seq<u8>>, b: Seq<Seq<u8>>)
    requires
        a.len() == b.len(),
        grid_le(a, b),
        grid_le(b, a),
    ensures
        a == b,
{
    if a != b {
        let (r1, c1) = choose|r1: int, c1: int|
            0 <= r1 < a.len() && 0 <= c1 < a.len() && (#[trigger] a[r1][c1]) < b[r1][c1]
                && agrees_before(a, b, r1, c1);
        let (r2, c2) = choose|r2: int, c2: int|
            0 <= r2 < b.len() && 0 <= c2 < b.len() && (#[trigger] b[r2][c2]) < a[r2][c2]
                && agrees_before(b, a, r2, c2);
        if r1 == r2 && c1 == c2 {
            assert(false);
        } else if before(r1, c1, r2, c2) {
            assert(b[r1][c1] == a[r1][c1]);
            assert(false);
        } else {
            assert(before(r2, c2, r1, c1));
            assert(a[r2][c2] == b[r2][c2]);
            assert(false);
        }
    }
}

// ---------------------------------------------------------------------------
// Counting non-empty cells.
// ---------------------------------------------------------------------------

pub open spec fn row_nnz(row: Seq<u8>, c: int) -> int
    decreases c,
{
    if c <= 0 {
        0
    } else {
        row_nnz(row, c - 1) + if row[c - 1] != 0 {
            1int
        } else {
            0int
        }
    }
}

pub open spec fn nnz_upto(g: Seq<Seq<u8>>, r: int) -> int
    decreases r,
{
    if r <= 0 {
        0
    } else {
        nnz_upto(g, r - 1) + row_nnz(g[r - 1], g.len() as int)
    }
}

/// The number of non-empty cells of the whole grid.
pub open spec fn nnz(g: Seq<Seq<u8>>) -> int {
    nnz_upto(g, g.len() as int)
}

pub proof fn lemma_row_nnz_bounds(row: Seq<u8>, c: int)
    requires
        0 <= c,
    ensures
        0 <= row_nnz(row, c) <= c,
        row_nnz(row, c) == c <==> (forall|j: int| 0 <= j < c ==> (#[trigger] row[j]) != 0),
    decreases c,
{
    if c > 0 {
        lemma_row_nnz_bounds(row, c - 1);
    }
}

pub proof fn lemma_nnz_upto_bounds(g: Seq<Seq<u8>>, r: int)
    requires
        wf_grid(g),
        0 <= r <= g.len(),
    ensures
        0 <= nnz_upto(g, r) <= r * g.len(),
        nnz_upto(g, r) == r * g.len() <==> (forall|r2: int, c2: int|
            0 <= r2 < r && 0 <= c2 < g.len() ==> (#[trigger] g[r2][c2]) != 0),
    decreases r,
{
    let d = g.len() as int;
    if r > 0 {
        lemma_nnz_upto_bounds(g, r - 1);
        lemma_row_nnz_bounds(g[r - 1], d);
        assert(r * d == (r - 1) * d + d) by (nonlinear_arith);
    }
}

pub proof fn lemma_nnz_filled(g: Seq<Seq<u8>>)
    requires
        wf_grid(g),
    ensures
        0 <= nnz(g) <= g.len() * g.len(),
        nnz(g) == g.len() * g.len() <==> filled(g),
{
    lemma_nnz_upto_bounds(g, g.len() as int);
}

pub proof fn lemma_row_nnz_update(row: Seq<u8>, c: int, v: u8, j: int)
    requires
        0 <= c < row.len(),
        row[c] == 0,
        v != 0,
        0 <= j <= row.len(),
    ensures
        row_nnz(row.update(c, v), j) == row_nnz(row, j) + if c < j {
            1int
        } else {
            0int
        },
    decreases j,
{
    if j > 0 {
        lemma_row_nnz_update(row, c, v, j - 1);
    }
}

// ---------------------------------------------------------------------------
// Stepping a row-major scan one cell forward.
// ---------------------------------------------------------------------------

pub proof fn lemma_keys_upto_zero(g: Seq<Seq<u8>>)
    ensures
        keys_upto(g, 0, 0) =~= Set::<u32>::empty(),
{
}

pub proof fn lemma_keys_upto_step_empty(g: Seq<Seq<u8>>, r: int, c: int)
    requires
        0 <= r < g.len(),
        0 <= c < g.len(),
        g[r][c] == 0,
    ensures
        keys_upto(g, r, c + 1) =~= keys_upto(g, r, c),
{
    assert forall|k: u32| keys_upto(g, r, c + 1).contains(k) implies keys_upto(g, r, c).contains(
        k,
    ) by {
        let ki = k as int;
        let (r2, c2) = choose|r2: int, c2: int|
            0 <= r2 < g.len() && 0 <= c2 < g.len() && before(r2, c2, r, c + 1)
                && (#[trigger] g[r2][c2]) != 0 && cell_keyed(g, r2, c2, ki);
        assert(!(r2 == r && c2 == c));
        assert(before(r2, c2, r, c));
        assert(key_in_upto(g, r, c, ki));
    }
}

pub proof fn lemma_keys_upto_step_filled(g: Seq<Seq<u8>>, r: int, c: int)
    requires
        wf_grid(g),
        0 <= r < g.len(),
        0 <= c < g.len(),
        g[r][c] != 0,
    ensures
        keys_upto(g, r, c + 1) =~= keys_upto(g, r, c).insert(
            (row_key(g, r, g[r][c])) as u32,
        ).insert((col_key(g, c, g[r][c])) as u32).insert((box_key(g, r, c, g[r][c])) as u32),
{
    let v = g[r][c];
    let d = g.len() as int;
    lemma_box_coord_bounds(g, r, c);
    lemma_enc_bounds(r, v as int, d + 1);
    lemma_enc_bounds(d + 1, v as int, c);
    lemma_enc_bounds(r / bsize(g), v as int, c / bsize(g));
    let rhs = keys_upto(g, r, c).insert((row_key(g, r, v)) as u32).insert(
        (col_key(g, c, v)) as u32,
    ).insert((box_key(g, r, c, v)) as u32);
    assert forall|k: u32| keys_upto(g, r, c + 1).contains(k) implies rhs.contains(k) by {
        let ki = k as int;
        let (r2, c2) = choose|r2: int, c2: int|
            0 <= r2 < g.len() && 0 <= c2 < g.len() && before(r2, c2, r, c + 1)
                && (#[trigger] g[r2][c2]) != 0 && cell_keyed(g, r2, c2, ki);
        if r2 == r && c2 == c {
            if ki == row_key(g, r, v) {
                assert(k == (row_key(g, r, v)) as u32);
            } else if ki == col_key(g, c, v) {
                assert(k == (col_key(g, c, v)) as u32);
            } else {
                assert(k == (box_key(g, r, c, v)) as u32);
            }
        } else {
            assert(before(r2, c2, r, c));
            assert(key_in_upto(g, r, c, ki));
        }
    }
    assert forall|k: u32| rhs.contains(k) implies keys_upto(g, r, c + 1).contains(k) by {
        let ki = k as int;
        if keys_upto(g, r, c).contains(k) {
            let (r2, c2) = choose|r2: int, c2: int|
                0 <= r2 < g.len() && 0 <= c2 < g.len() && before(r2, c2, r, c)
                    && (#[trigger] g[r2][c2]) != 0 && cell_keyed(g, r2, c2, ki);
            assert(before(r2, c2, r, c + 1));
            assert(key_in_upto(g, r, c + 1, ki));
        } else {
            assert(before(r, c, r, c + 1));
            assert(cell_keyed(g, r, c, ki));
            assert(key_in_upto(g, r, c + 1, ki));
        }
    }
}

pub proof fn lemma_keys_upto_row_end(g: Seq<Seq<u8>>, r: int)
    requires
        0 <= r < g.len(),
    ensures
        keys_upto(g, r, g.len() as int) =~= keys_upto(g, r + 1, 0),
{
    let d = g.len() as int;
    assert forall|k: u32| keys_upto(g, r, d).contains(k) implies keys_upto(g, r + 1, 0).contains(
        k,
    ) by {
        let ki = k as int;
        let (r2, c2) = choose|r2: int, c2: int|
            0 <= r2 < g.len() && 0 <= c2 < g.len() && before(r2, c2, r, d)
                && (#[trigger] g[r2][c2]) != 0 && cell_keyed(g, r2, c2, ki);
        assert(before(r2, c2, r + 1, 0));
        assert(key_in_upto(g, r + 1, 0, ki));
    }
    assert forall|k: u32| keys_upto(g, r + 1, 0).contains(k) implies keys_upto(g, r, d).contains(
        k,
    ) by {
        let ki = k as int;
        let (r2, c2) = choose|r2: int, c2: int|
            0 <= r2 < g.len() && 0 <= c2 < g.len() && before(r2, c2, r + 1, 0)
                && (#[trigger] g[r2][c2]) != 0 && cell_keyed(g, r2, c2, ki);
        assert(before(r2, c2, r, d));
        assert(key_in_upto(g, r, d, ki));
    }
}

pub proof fn lemma_consistent_upto_row_end(g: Seq<Seq<u8>>, r: int)
    requires
        0 <= r < g.len(),
    ensures
        consistent_upto(g, r, g.len() as int) <==> consistent_upto(g, r + 1, 0),
{
    let d = g.len() as int;
    if consistent_upto(g, r, d) {
        assert forall|r1: int, c1: int, r2: int, c2: int|
            0 <= r1 < g.len() && 0 <= c1 < g.len() && 0 <= r2 < g.len() && 0 <= c2 < g.len()
                && before(r1, c1, r + 1, 0) && before(r2, c2, r + 1, 0) && !(r1 == r2 && c1 == c2)
                && (#[trigger] g[r1][c1]) != 0 && g[r1][c1] == (#[trigger] g[r2][c2])
                implies !shares_unit(g, r1, c1, r2, c2) by {
            assert(before(r1, c1, r, d) && before(r2, c2, r, d));
        }
    }
    if consistent_upto(g, r + 1, 0) {
        assert forall|r1: int, c1: int, r2: int, c2: int|
            0 <= r1 < g.len() && 0 <= c1 < g.len() && 0 <= r2 < g.len() && 0 <= c2 < g.len()
                && before(r1, c1, r, d) && before(r2, c2, r, d) && !(r1 == r2 && c1 == c2)
                && (#[trigger] g[r1][c1]) != 0 && g[r1][c1] == (#[trigger] g[r2][c2])
                implies !shares_unit(g, r1, c1, r2, c2) by {
            assert(before(r1, c1, r + 1, 0) && before(r2, c2, r + 1, 0));
        }
    }
}

/// A freshly scanned cell that clashes with no earlier cell keeps the prefix
/// consistent.
pub proof fn lemma_consistent_upto_step(g: Seq<Seq<u8>>, r: int, c: int)
    requires
        wf_grid(g),
        0 <= r < g.len(),
        0 <= c < g.len(),
        consistent_upto(g, r, c),
        g[r][c] != 0 ==> !row_has_upto(g, r, c, r, g[r][c]) && !col_has_upto(g, r, c, c, g[r][c])
            && !box_has_upto(g, r, c, r / bsize(g), c / bsize(g), g[r][c]),
    ensures
        consistent_upto(g, r, c + 1),
{
    let v = g[r][c];
    assert forall|r1: int, c1: int, r2: int, c2: int|
        0 <= r1 < g.len() && 0 <= c1 < g.len() && 0 <= r2 < g.len() && 0 <= c2 < g.len()
            && before(r1, c1, r, c + 1) && before(r2, c2, r, c + 1) && !(r1 == r2 && c1 == c2)
            && (#[trigger] g[r1][c1]) != 0 && g[r1][c1] == (#[trigger] g[r2][c2])
            implies !shares_unit(g, r1, c1, r2, c2) by {
        if before(r1, c1, r, c) && before(r2, c2, r, c) {
            assert(!shares_unit(g, r1, c1, r2, c2));
        } else if r1 == r && c1 == c {
            assert(before(r2, c2, r, c));
            if shares_unit(g, r1, c1, r2, c2) {
                if r2 == r1 {
                    assert(row_has_upto(g, r, c, r, v));
                } else if c2 == c1 {
                    assert(col_has_upto(g, r, c, c, v));
                } else {
                    assert(box_has_upto(g, r, c, r / bsize(g), c / bsize(g), v));
                }
                assert(false);
            }
        } else {
            assert(r2 == r && c2 == c && before(r1, c1, r, c));
            if shares_unit(g, r1, c1, r2, c2) {
                if r1 == r2 {
                    assert(row_has_upto(g, r, c, r, v));
                } else if c1 == c2 {
                    assert(col_has_upto(g, r, c, c, v));
                } else {
                    assert(same_box(g, r2, c2, r1, c1));
                    assert(box_has_upto(g, r, c, r / bsize(g), c / bsize(g), v));
                }
                assert(false);
            }
        }
    }
}

pub proof fn lemma_nnz_place(g: Seq<Seq<u8>>, r: int, c: int, v: u8)
    requires
        wf_grid(g),
        0 <= r < g.len(),
        0 <= c < g.len(),
        g[r][c] == 0,
        v != 0,
        v as int <= g.len(),
    ensures
        nnz(place(g, r, c, v)) == nnz(g) + 1,
{
    lemma_place_facts(g, r, c, v);
    lemma_nnz_place_upto(g, r, c, v, g.len() as int);
}

/// Clearing a non-empty cell lowers the count by exactly one.
pub proof fn lemma_nnz_clear(g: Seq<Seq<u8>>, r: int, c: int)
    requires
        wf_grid(g),
        0 <= r < g.len(),
        0 <= c < g.len(),
        g[r][c] != 0,
    ensures
        nnz(place(g, r, c, 0)) == nnz(g) - 1,
{
    let g2 = place(g, r, c, 0);
    lemma_place_facts(g, r, c, 0);
    lemma_place_twice(g, r, c, 0, g[r][c]);
    lemma_place_noop(g, r, c);
    assert(place(g2, r, c, g[r][c]) == g);
    lemma_nnz_place(g2, r, c, g[r][c]);
}

proof fn lemma_nnz_place_upto(g: Seq<Seq<u8>>, r: int, c: int, v: u8, j: int)
    requires
        wf_grid(g),
        0 <= r < g.len(),
        0 <= c < g.len(),
        g[r][c] == 0,
        v != 0,
        v as int <= g.len(),
        0 <= j <= g.len(),
    ensures
        nnz_upto(place(g, r, c, v), j) == nnz_upto(g, j) + if r < j {
            1int
        } else {
            0int
        },
    decreases j,
{
    let g2 = place(g, r, c, v);
    lemma_place_facts(g, r, c, v);
    if j > 0 {
        lemma_nnz_place_upto(g, r, c, v, j - 1);
        if j - 1 == r {
            assert(g2[r] == g[r].update(c, v));
            lemma_row_nnz_update(g[r], c, v, g.len() as int);
        } else {
            assert(g2[j - 1] == g[j - 1]);
        }
    }
}

} // verus!
