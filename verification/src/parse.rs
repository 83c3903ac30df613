//! Parsing the framed text form of a 9-by-9 grid.  The format drops the
//! first line, skips blank lines, treats every fourth remaining line as a
//! dash rule, and reads nine digits from each data line, ignoring the `|`
//! and space framing.  The whole format is modelled by spec functions over
//! the input bytes, and the parser is proved to return exactly the model's
//! verdict.

use vstd::prelude::*;
use vstd::slice::slice_to_vec;
use vstd::string::StringSliceAdditionalSpecFns;
use crate::board::Sudoku;
use crate::grid::is_square;

verus! {

/// Faults of a textual grid: a wrong shape, or a character that is neither
/// a digit nor grid framing.  Any two parse errors compare equal.
#[derive(Debug, Clone)]
pub enum SudokuParseError {
    InvalidFormat,
    InvalidCharacter,
}

impl PartialEq for SudokuParseError {
    fn eq(&self, _othr: &SudokuParseError) -> (r: bool) {
        true
    }
}

impl vstd::std_specs::cmp::PartialEqSpecImpl for SudokuParseError {
    open spec fn obeys_eq_spec() -> bool {
        true
    }

    open spec fn eq_spec(&self, _othr: &SudokuParseError) -> bool {
        true
    }
}

impl Eq for SudokuParseError {

}

// ---------------------------------------------------------------------------
// The model: what the framed text denotes, byte by byte.
// ---------------------------------------------------------------------------

pub open spec fn is_ws_byte(b: u8) -> bool {
    b == 32 || (9 <= b && b <= 13)
}

/// The position of the line break at or after `pos`, or the text's end.
pub open spec fn line_end(bytes: Seq<u8>, pos: int) -> int
    decreases bytes.len() - pos when 0 <= pos <= bytes.len()
{
    if pos >= bytes.len() || bytes[pos] == 10 {
        pos
    } else {
        line_end(bytes, pos + 1)
    }
}

pub proof fn lemma_line_end_is(bytes: Seq<u8>, pos: int, e: int)
    requires
        0 <= pos <= e <= bytes.len(),
        forall|k: int| pos <= k < e ==> (#[trigger] bytes[k]) != 10,
        e < bytes.len() ==> bytes[e] == 10,
    ensures
        line_end(bytes, pos) == e,
    decreases e - pos,
{
    if pos < e {
        lemma_line_end_is(bytes, pos + 1, e);
    }
}

/// A trailing carriage return is not part of the line.
pub open spec fn strip_cr(bytes: Seq<u8>, start: int, end: int) -> int {
    if end > start && bytes[end - 1] == 13 {
        end - 1
    } else {
        end
    }
}

pub open spec fn blank_line(bytes: Seq<u8>, start: int, end: int) -> bool {
    forall|k: int| start <= k < end ==> is_ws_byte(#[trigger] bytes[k])
}

/// The digits of one data line with the `|` and space framing dropped;
/// `None` when any other non-digit byte occurs.
pub open spec fn row_cells(bytes: Seq<u8>, start: int, end: int) -> Option<Seq<u8>>
    decreases end - start when start <= end
{
    if start >= end {
        Some(Seq::empty())
    } else if bytes[start] == 124 || bytes[start] == 32 {
        row_cells(bytes, start + 1, end)
    } else if 48 <= bytes[start] && bytes[start] <= 57 {
        match row_cells(bytes, start + 1, end) {
            Some(rest) => Some(seq![(bytes[start] - 48) as u8] + rest),
            None => None,
        }
    } else {
        None
    }
}

pub open spec fn zero_grid_9() -> Seq<Seq<u8>> {
    Seq::new(9, |r: int| Seq::new(9, |c: int| 0u8))
}

/// The line machine: walk the remaining lines, skipping blank ones,
/// counting dash rules at counters 0, 4, 8 and 12, and filling grid rows
/// from the data lines.
pub open spec fn parse_rows(
    bytes: Seq<u8>,
    pos: int,
    counter: int,
    idx: int,
    g: Seq<Seq<u8>>,
) -> Result<Seq<Seq<u8>>, SudokuParseError>
    decreases bytes.len() - pos when 0 <= pos <= bytes.len() via parse_rows_decreases
{
    if pos >= bytes.len() {
        Ok(g)
    } else {
        let e0 = line_end(bytes, pos);
        let nxt = if e0 < bytes.len() {
            e0 + 1
        } else {
            e0
        };
        let end = strip_cr(bytes, pos, e0);
        if blank_line(bytes, pos, end) {
            parse_rows(bytes, nxt, counter, idx, g)
        } else if counter == 0 || counter == 4 || counter == 8 || counter == 12 {
            parse_rows(bytes, nxt, counter + 1, idx, g)
        } else {
            match row_cells(bytes, pos, end) {
                None => Err(SudokuParseError::InvalidCharacter),
                Some(cs) => if cs.len() != 9 {
                    Err(SudokuParseError::InvalidFormat)
                } else if idx >= 9 {
                    Err(SudokuParseError::InvalidFormat)
                } else {
                    parse_rows(bytes, nxt, counter + 1, idx + 1, g.update(idx, cs))
                },
            }
        }
    }
}

#[via_fn]
proof fn parse_rows_decreases(bytes: Seq<u8>, pos: int, counter: int, idx: int, g: Seq<Seq<u8>>) {
    if pos < bytes.len() {
        lemma_line_end_is_bounds(bytes, pos);
    }
}

proof fn lemma_line_end_is_bounds(bytes: Seq<u8>, pos: int)
    requires
        0 <= pos <= bytes.len(),
    ensures
        pos <= line_end(bytes, pos) <= bytes.len(),
    decreases bytes.len() - pos,
{
    if pos < bytes.len() && bytes[pos] != 10 {
        lemma_line_end_is_bounds(bytes, pos + 1);
    }
}

/// What the whole text denotes: the part before the first line break is
/// dropped, then the line machine runs on an all-zero grid.
pub open spec fn parse_text(bytes: Seq<u8>) -> Result<Seq<Seq<u8>>, SudokuParseError> {
    let e0 = line_end(bytes, 0);
    let start = if e0 < bytes.len() {
        e0 + 1
    } else {
        e0
    };
    parse_rows(bytes, start, 0, 0, zero_grid_9())
}

/// ASCII whitespace, as a blank-line test.
fn is_space(b: u8) -> (r: bool)
    ensures
        r == is_ws_byte(b),
{
    b == 32 || (b >= 9 && b <= 13)
}

impl Sudoku {
    /// Parse the framed text form of a 9-by-9 grid.  The result is exactly
    /// what the byte-level model `parse_text` denotes: the grid read from
    /// the data lines, `InvalidCharacter` on a stray byte, `InvalidFormat`
    /// on a data line without exactly nine digits or on a tenth data line.
    pub fn parse_grid(s: &str) -> (result: Result<Sudoku, SudokuParseError>)
        ensures
            match result {
                Ok(b) => parse_text(s.spec_bytes()) == Ok::<Seq<Seq<u8>>, SudokuParseError>(b@)
                    && b.wf() && b@.len() == 9,
                Err(e) => parse_text(s.spec_bytes()) == Err::<Seq<Seq<u8>>, SudokuParseError>(e),
            },
    {
        let bytes: Vec<u8> = slice_to_vec(s.as_bytes());
        let n = bytes.len();
        let mut game = match Sudoku::new(9) {
            Ok(g) => g,
            Err(_) => {
                proof {
                    assert(is_square(9)) by {
                        assert(0 <= 3 && (3int) * (3int) == 9);
                    }
                }
                vstd::pervasive::unreached()
            },
        };
        proof {
            assert(game@ =~~= zero_grid_9());
        }
        // The text before the first line break is dropped.
        let mut pos: usize = 0;
        while pos < n && bytes[pos] != 10
            invariant
                pos <= n,
                n == bytes@.len(),
                forall|k: int| 0 <= k < pos ==> (#[trigger] bytes@[k]) != 10,
            decreases n - pos,
        {
            pos += 1;
        }
        proof {
            lemma_line_end_is(bytes@, 0, pos as int);
        }
        if pos < n {
            pos += 1;
        }
        let mut line_counter: usize = 0;
        let mut idx: usize = 0;
        while pos < n
            invariant
                pos <= n,
                n == bytes@.len(),
                idx <= 9,
                line_counter <= pos,
                game.wf(),
                game@.len() == 9,
                parse_text(s.spec_bytes()) == parse_rows(
                    bytes@,
                    pos as int,
                    line_counter as int,
                    idx as int,
                    game@,
                ),
            decreases n - pos,
        {
            let ghost pos0 = pos as int;
            let ghost lc0 = line_counter as int;
            let ghost idx0 = idx as int;
            let ghost g0 = game@;
            let start = pos;
            while pos < n && bytes[pos] != 10
                invariant
                    start <= pos <= n,
                    n == bytes@.len(),
                    line_counter <= start,
                    forall|k: int| start <= k < pos ==> (#[trigger] bytes@[k]) != 10,
                decreases n - pos,
            {
                pos += 1;
            }
            proof {
                lemma_line_end_is(bytes@, start as int, pos as int);
            }
            let ghost e0 = pos as int;
            let mut end = pos;
            if pos < n {
                pos += 1;
            }
            if end > start && bytes[end - 1] == 13 {
                end -= 1;
            }
            proof {
                assert(end as int == strip_cr(bytes@, start as int, e0));
                assert(pos as int == if e0 < n as int { e0 + 1 } else { e0 });
            }
            let mut blank = true;
            let mut j = start;
            while j < end
                invariant
                    start <= j <= end <= n,
                    n == bytes@.len(),
                    blank == blank_line(bytes@, start as int, j as int),
                decreases end - j,
            {
                if !is_space(bytes[j]) {
                    blank = false;
                }
                j += 1;
            }
            if blank {
                proof {
                    assert(parse_rows(bytes@, pos0, lc0, idx0, g0) == parse_rows(
                        bytes@,
                        pos as int,
                        lc0,
                        idx0,
                        g0,
                    ));
                }
                continue;
            }
            if line_counter == 0 || line_counter == 4 || line_counter == 8 || line_counter == 12 {
                line_counter += 1;
                proof {
                    assert(parse_rows(bytes@, pos0, lc0, idx0, g0) == parse_rows(
                        bytes@,
                        pos as int,
                        lc0 + 1,
                        idx0,
                        g0,
                    ));
                }
                continue;
            }
            let mut cells: Vec<u8> = Vec::new();
            let mut k = start;
            while k < end
                invariant
                    start <= k <= end <= n,
                    n == bytes@.len(),
                    forall|m: int| 0 <= m < cells@.len() ==> (#[trigger] cells@[m]) <= 9,
                    row_cells(bytes@, start as int, end as int) == opt_prepend(
                        cells@,
                        row_cells(bytes@, k as int, end as int),
                    ),
                    start as int == pos0,
                    0 <= pos0 <= n,
                    line_end(bytes@, pos0) == e0,
                    pos0 <= e0 <= n,
                    end as int == strip_cr(bytes@, pos0, e0),
                    !blank_line(bytes@, pos0, end as int),
                    !(lc0 == 0 || lc0 == 4 || lc0 == 8 || lc0 == 12),
                    parse_text(s.spec_bytes()) == parse_rows(bytes@, pos0, lc0, idx0, g0),
                decreases end - k,
            {
                let b = bytes[k];
                if b != 124 && b != 32 {
                    if b >= 48 && b <= 57 {
                        let ghost cells0 = cells@;
                        cells.push(b - 48);
                        proof {
                            match row_cells(bytes@, k as int + 1, end as int) {
                                Some(rest) => {
                                    assert(cells0 + (seq![(b - 48) as u8] + rest) =~= cells@
                                        + rest);
                                },
                                None => {},
                            }
                        }
                    } else {
                        proof {
                            assert(row_cells(bytes@, k as int, end as int) is None);
                            assert(row_cells(bytes@, start as int, end as int) is None);
                            assert(parse_rows(bytes@, pos0, lc0, idx0, g0) == Err::<
                                Seq<Seq<u8>>,
                                SudokuParseError,
                            >(SudokuParseError::InvalidCharacter));
                        }
                        return Err(SudokuParseError::InvalidCharacter);
                    }
                }
                k += 1;
            }
            proof {
                assert(row_cells(bytes@, end as int, end as int) == Some(Seq::<u8>::empty()));
                assert(cells@ + Seq::<u8>::empty() =~= cells@);
            }
            proof {
                assert(row_cells(bytes@, start as int, end as int) == Some(cells@));
            }
            if cells.len() != 9 {
                proof {
                    assert(parse_rows(bytes@, pos0, lc0, idx0, g0) == Err::<
                        Seq<Seq<u8>>,
                        SudokuParseError,
                    >(SudokuParseError::InvalidFormat));
                }
                return Err(SudokuParseError::InvalidFormat);
            }
            if idx >= 9 {
                proof {
                    assert(parse_rows(bytes@, pos0, lc0, idx0, g0) == Err::<
                        Seq<Seq<u8>>,
                        SudokuParseError,
                    >(SudokuParseError::InvalidFormat));
                }
                return Err(SudokuParseError::InvalidFormat);
            }
            let ghost gpre = game@;
            let mut c: usize = 0;
            while c < 9
                invariant
                    c <= 9,
                    idx < 9,
                    game.wf(),
                    game@.len() == 9,
                    cells@.len() == 9,
                    forall|m: int| 0 <= m < cells@.len() ==> (#[trigger] cells@[m]) <= 9,
                    gpre.len() == 9,
                    gpre[idx as int].len() == 9,
                    forall|r2: int| 0 <= r2 < 9 && r2 != idx ==> #[trigger] game@[r2] == gpre[r2],
                    game@[idx as int].len() == 9,
                    forall|c2: int|
                        0 <= c2 < 9 ==> #[trigger] game@[idx as int][c2] == (if c2 < c {
                            cells@[c2]
                        } else {
                            gpre[idx as int][c2]
                        }),
                decreases 9 - c,
            {
                game.set_value(idx, c, cells[c]);
                c += 1;
            }
            proof {
                assert(game@ =~~= gpre.update(idx as int, cells@));
            }
            idx += 1;
            line_counter += 1;
            proof {
                assert(parse_rows(bytes@, pos0, lc0, idx0, g0) == parse_rows(
                    bytes@,
                    pos as int,
                    lc0 + 1,
                    idx0 + 1,
                    g0.update(idx0, cells@),
                ));
            }
        }
        proof {
            assert(parse_rows(bytes@, pos as int, line_counter as int, idx as int, game@)
                == Ok::<Seq<Seq<u8>>, SudokuParseError>(game@));
        }
        Ok(game)
    }
}

/// Prefix already read, rest still owed: `None` stays `None`.
pub open spec fn opt_prepend(c: Seq<u8>, r: Option<Seq<u8>>) -> Option<Seq<u8>> {
    match r {
        Some(t) => Some(c + t),
        None => None,
    }
}

impl core::str::FromStr for Sudoku {
    type Err = SudokuParseError;

    fn from_str(s: &str) -> (result: Result<Sudoku, SudokuParseError>) {
        Sudoku::parse_grid(s)
    }
}

} // verus!
