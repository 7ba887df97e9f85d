//! Parsing of grid text.
//!
//! A text is a sequence of rows separated by `\n` or `\r\n`.  Each row must
//! decode to exactly 9 digits; spaces inside a row are skipped, so the text
//! produced by rendering a grid parses back.  Any other character fails the
//! parse at once with [`ParseError::WrongSymbol`]; a row with the wrong
//! number of digits fails with [`ParseError::WrongRowSize`] at that row's
//! end; and only after every row passes is the row count checked, a wrong
//! count failing with [`ParseError::WrongColumnSize`].

use crate::grid::grid_wf;
use crate::grid::rows_view;
use crate::grid::Sudoku;
use vstd::prelude::*;

verus! {

/// Why a text failed to parse into a grid.
#[derive(Debug, PartialEq, Eq, Structural)]
pub enum ParseError {
    /// A character that is not a digit, a space, or a line break.
    WrongSymbol(char),
    /// Row `index` held `len` digits instead of 9.
    WrongRowSize { index: usize, len: usize },
    /// The text held `column_count` rows instead of 9.
    WrongColumnSize { column_count: usize },
}

/// The digit a character decodes to, if any.
pub open spec fn spec_digit_of(c: char) -> Option<u8> {
    if c == '0' {
        Some(0u8)
    } else if c == '1' {
        Some(1u8)
    } else if c == '2' {
        Some(2u8)
    } else if c == '3' {
        Some(3u8)
    } else if c == '4' {
        Some(4u8)
    } else if c == '5' {
        Some(5u8)
    } else if c == '6' {
        Some(6u8)
    } else if c == '7' {
        Some(7u8)
    } else if c == '8' {
        Some(8u8)
    } else if c == '9' {
        Some(9u8)
    } else {
        None
    }
}

fn digit_of(c: char) -> (r: Option<u8>)
    ensures
        r == spec_digit_of(c),
{
    match c {
        '0' => Some(0),
        '1' => Some(1),
        '2' => Some(2),
        '3' => Some(3),
        '4' => Some(4),
        '5' => Some(5),
        '6' => Some(6),
        '7' => Some(7),
        '8' => Some(8),
        '9' => Some(9),
        _ => None,
    }
}

/// What parsing returns on the remaining text `t`, after the complete rows
/// `rows` and the digits `cur` of the row being read.
///
/// The text is consumed left to right: a digit joins the current row; a
/// space is skipped; `\n`, or `\r` directly before `\n`, closes the current
/// row, which must hold exactly 9 digits; any other character fails at once.
/// At the end of the text a non-empty current row is closed the same way,
/// and then the count of rows must be exactly 9.
pub open spec fn parse_rec(t: Seq<char>, rows: Seq<Seq<u8>>, cur: Seq<u8>) -> Result<
    Seq<Seq<u8>>,
    ParseError,
>
    decreases t.len(),
{
    if t.len() == 0 {
        if cur.len() > 0 {
            if cur.len() != 9 {
                Err(ParseError::WrongRowSize { index: rows.len() as usize, len: cur.len() as usize })
            } else if rows.len() + 1 == 9 {
                Ok(rows.push(cur))
            } else {
                Err(ParseError::WrongColumnSize { column_count: (rows.len() + 1) as usize })
            }
        } else {
            if rows.len() == 9 {
                Ok(rows)
            } else {
                Err(ParseError::WrongColumnSize { column_count: rows.len() as usize })
            }
        }
    } else if t[0] == '\n' {
        if cur.len() != 9 {
            Err(ParseError::WrongRowSize { index: rows.len() as usize, len: cur.len() as usize })
        } else {
            parse_rec(t.skip(1), rows.push(cur), Seq::empty())
        }
    } else if t[0] == '\r' && t.len() >= 2 && t[1] == '\n' {
        if cur.len() != 9 {
            Err(ParseError::WrongRowSize { index: rows.len() as usize, len: cur.len() as usize })
        } else {
            parse_rec(t.skip(2), rows.push(cur), Seq::empty())
        }
    } else if t[0] == ' ' {
        parse_rec(t.skip(1), rows, cur)
    } else if spec_digit_of(t[0]) is Some {
        parse_rec(t.skip(1), rows, cur.push(spec_digit_of(t[0])->0))
    } else {
        Err(ParseError::WrongSymbol(t[0]))
    }
}

/// What parsing returns on a whole text.
pub open spec fn parse_spec(t: Seq<char>) -> Result<Seq<Seq<u8>>, ParseError> {
    parse_rec(t, Seq::empty(), Seq::empty())
}

/// The characters of a string, in order.
fn chars_of(s: &str) -> (r: Vec<char>)
    ensures
        r@ == s@,
{
    let mut v: Vec<char> = Vec::new();
    for c in it: s.chars()
        invariant
            it.seq() == s@,
            v@ == it.seq().take(it.index() as int),
    {
        v.push(c);
        proof {
            assert(v@ =~= it.seq().take(it.index() + 1));
        }
    }
    proof {
        assert(v@ =~= s@);
    }
    v
}

impl Sudoku {
    /// Parses a text of nine digit rows into a grid.
    ///
    /// The result is exactly what [`parse_spec`] says of the text's
    /// characters: a well-shaped grid of the decoded rows, or the first
    /// error the left-to-right scan meets.
    pub fn parse(s: &str) -> (r: Result<Sudoku, ParseError>)
        ensures
            r matches Ok(g) ==> parse_spec(s@) == Ok::<Seq<Seq<u8>>, ParseError>(g@)
                && grid_wf(g@),
            r matches Err(e) ==> parse_spec(s@) == Err::<Seq<Seq<u8>>, ParseError>(e),
    {
        let cs: Vec<char> = chars_of(s);
        let ghost t = s@;
        let mut rows: Vec<Vec<u8>> = Vec::new();
        let mut cur: Vec<u8> = Vec::new();
        let mut p: usize = 0;
        proof {
            assert(t.skip(0) =~= t);
            assert(rows_view(rows@) =~= Seq::<Seq<u8>>::empty());
        }
        while p < cs.len()
            invariant
                cs@ == t,
                t == s@,
                p <= cs.len(),
                parse_rec(t.skip(p as int), rows_view(rows@), cur@) == parse_spec(t),
                forall|k: int| 0 <= k < rows@.len() ==> (#[trigger] rows@[k])@.len() == 9,
                forall|k: int, j: int|
                    0 <= k < rows@.len() && 0 <= j < rows@[k]@.len() ==> #[trigger] rows@[k]@[j]
                        <= 9,
                forall|j: int| 0 <= j < cur@.len() ==> #[trigger] cur@[j] <= 9,
            decreases cs.len() - p,
        {
            let ghost rest = t.skip(p as int);
            proof {
                assert(rest[0] == t[p as int]);
                assert(rest.skip(1) =~= t.skip(p + 1));
                if p + 2 <= t.len() {
                    assert(rest.skip(2) =~= t.skip(p + 2));
                }
            }
            let ghost rv0 = rows_view(rows@);
            let ghost cur0 = cur@;
            let c = cs[p];
            if c == '\n' {
                if cur.len() != 9 {
                    return Err(ParseError::WrongRowSize { index: rows.len(), len: cur.len() });
                }
                rows.push(cur);
                proof {
                    assert(rows_view(rows@) =~= rv0.push(cur0));
                }
                cur = Vec::new();
                p += 1;
            } else if c == '\r' {
                if p + 1 < cs.len() && cs[p + 1] == '\n' {
                    proof {
                        assert(rest[1] == t[p + 1]);
                    }
                    if cur.len() != 9 {
                        return Err(ParseError::WrongRowSize { index: rows.len(), len: cur.len() });
                    }
                    rows.push(cur);
                    proof {
                        assert(rows_view(rows@) =~= rv0.push(cur0));
                    }
                    cur = Vec::new();
                    p += 2;
                } else {
                    proof {
                        if p + 1 < t.len() {
                            assert(rest[1] == t[p + 1]);
                        }
                    }
                    return Err(ParseError::WrongSymbol('\r'));
                }
            } else if c == ' ' {
                p += 1;
            } else {
                match digit_of(c) {
                    Some(d) => {
                        cur.push(d);
                        p += 1;
                    },
                    None => {
                        return Err(ParseError::WrongSymbol(c));
                    },
                }
            }
        }
        proof {
            assert(t.skip(p as int) =~= Seq::<char>::empty());
        }
        let ghost rv0 = rows_view(rows@);
        let ghost cur0 = cur@;
        if cur.len() > 0 {
            if cur.len() != 9 {
                return Err(ParseError::WrongRowSize { index: rows.len(), len: cur.len() });
            }
            rows.push(cur);
            proof {
                assert(rows_view(rows@) =~= rv0.push(cur0));
            }
        }
        if rows.len() != 9 {
            return Err(ParseError::WrongColumnSize { column_count: rows.len() });
        }
        proof {
            assert forall|k: int| 0 <= k < 9 implies (#[trigger] rows_view(rows@)[k]).len()
                == 9 by {
                assert(rows_view(rows@)[k] == rows@[k]@);
            }
            assert forall|k: int, j: int|
                0 <= k < 9 && 0 <= j < 9 implies #[trigger] rows_view(rows@)[k][j] <= 9 by {
                assert(rows_view(rows@)[k] == rows@[k]@);
            }
        }
        let g = Sudoku::from_rows_unchecked(rows);
        Ok(g)
    }
}

impl core::str::FromStr for Sudoku {
    type Err = ParseError;

    fn from_str(s: &str) -> Result<Sudoku, ParseError> {
        Sudoku::parse(s)
    }
}

/// Parsing is deterministic: one text, one result, on every call.
pub proof fn lemma_parse_deterministic(t1: Seq<char>, t2: Seq<char>)
    requires
        t1 == t2,
    ensures
        parse_spec(t1) == parse_spec(t2),
{
}

/// A rendered digit reads back as itself.
proof fn lemma_digit_char_round_trip(d: u8)
    requires
        d <= 9,
    ensures
        spec_digit_of(crate::grid::digit_char(d)) == Some(d),
        crate::grid::digit_char(d) != '\n',
        crate::grid::digit_char(d) != '\r',
        crate::grid::digit_char(d) != ' ',
{
}

/// Scanning the first `n` rendered cells of a row appends those cells to
/// the row being read, and parsing goes on with the rest of the text.
proof fn lemma_parse_rendered_row(
    row: Seq<u8>,
    n: int,
    rest: Seq<char>,
    rows: Seq<Seq<u8>>,
    cur: Seq<u8>,
)
    requires
        1 <= n <= 9,
        row.len() == 9,
        forall|j: int| 0 <= j < 9 ==> #[trigger] row[j] <= 9,
    ensures
        parse_rec(crate::grid::render_row_upto(row, n) + rest, rows, cur) == parse_rec(
            rest,
            rows,
            cur + row.take(n),
        ),
    decreases n,
{
    let dc = crate::grid::digit_char(row[n - 1]);
    lemma_digit_char_round_trip(row[n - 1]);
    if n == 1 {
        let t = crate::grid::render_row_upto(row, 1) + rest;
        assert(t[0] == dc);
        assert(t.skip(1) =~= rest);
        assert(parse_rec(t, rows, cur) == parse_rec(rest, rows, cur.push(row[0])));
        assert(cur.push(row[0]) =~= cur + row.take(1));
    } else {
        let tail = seq![' ', dc] + rest;
        assert(crate::grid::render_row_upto(row, n) + rest =~= crate::grid::render_row_upto(
            row,
            n - 1,
        ) + tail);
        lemma_parse_rendered_row(row, n - 1, tail, rows, cur);
        let cur1 = cur + row.take(n - 1);
        let t2 = seq![dc] + rest;
        assert(tail[0] == ' ');
        assert(tail.skip(1) =~= t2);
        assert(parse_rec(tail, rows, cur1) == parse_rec(t2, rows, cur1));
        assert(t2[0] == dc);
        assert(t2.skip(1) =~= rest);
        assert(parse_rec(t2, rows, cur1) == parse_rec(rest, rows, cur1.push(row[n - 1])));
        assert(cur1.push(row[n - 1]) =~= cur + row.take(n));
    }
}

/// Scanning the first `n` rendered rows closes each of them, and parsing
/// goes on with the rest of the text.
proof fn lemma_parse_rendered_rows(g: Seq<Seq<u8>>, n: int, rest: Seq<char>, rows: Seq<Seq<u8>>)
    requires
        grid_wf(g),
        0 <= n <= 9,
    ensures
        parse_rec(crate::grid::render_upto(g, n) + rest, rows, Seq::empty()) == parse_rec(
            rest,
            rows + g.take(n),
            Seq::empty(),
        ),
    decreases n,
{
    if n == 0 {
        assert(crate::grid::render_upto(g, 0) + rest =~= rest);
        assert(rows + g.take(0) =~= rows);
    } else {
        let row = g[n - 1];
        let tail = crate::grid::render_row_upto(row, 9) + (seq!['\n'] + rest);
        assert(crate::grid::render_upto(g, n) + rest =~= crate::grid::render_upto(g, n - 1)
            + tail);
        lemma_parse_rendered_rows(g, n - 1, tail, rows);
        lemma_parse_rendered_row(row, 9, seq!['\n'] + rest, rows + g.take(n - 1), Seq::empty());
        let cur1 = Seq::<u8>::empty() + row.take(9);
        assert(cur1 =~= row);
        let t2 = seq!['\n'] + rest;
        assert(t2[0] == '\n');
        assert(t2.skip(1) =~= rest);
        assert(parse_rec(t2, rows + g.take(n - 1), row) == parse_rec(
            rest,
            (rows + g.take(n - 1)).push(row),
            Seq::empty(),
        ));
        assert((rows + g.take(n - 1)).push(row) =~= rows + g.take(n));
    }
}

/// Whether the first `i` characters of `t` keep a left-to-right parse
/// running: digits, spaces and well-formed line breaks only, every finished
/// row holding exactly 9 digits, with `cur_len` digits already read in the
/// current row.
pub open spec fn clean_run(t: Seq<char>, i: int, cur_len: int) -> bool
    decreases i,
{
    i <= 0 || (t.len() > 0 && (if t[0] == '\n' {
        cur_len == 9 && clean_run(t.skip(1), i - 1, 0)
    } else if t[0] == '\r' {
        t.len() >= 2 && t[1] == '\n' && cur_len == 9 && i >= 2 && clean_run(t.skip(2), i - 2, 0)
    } else if t[0] == ' ' {
        clean_run(t.skip(1), i - 1, cur_len)
    } else if spec_digit_of(t[0]) is Some {
        clean_run(t.skip(1), i - 1, cur_len + 1)
    } else {
        false
    }))
}

proof fn lemma_symbol_error_first_rec(t: Seq<char>, i: int, rows: Seq<Seq<u8>>, cur: Seq<u8>)
    requires
        0 <= i < t.len(),
        clean_run(t, i, cur.len() as int),
        t[i] != '\n',
        t[i] != ' ',
        spec_digit_of(t[i]) is None,
        t[i] == '\r' ==> !(i + 1 < t.len() && t[i + 1] == '\n'),
    ensures
        parse_rec(t, rows, cur) == Err::<Seq<Seq<u8>>, ParseError>(ParseError::WrongSymbol(t[i])),
    decreases i,
{
    if i == 0 {
        assert(parse_rec(t, rows, cur) == Err::<Seq<Seq<u8>>, ParseError>(
            ParseError::WrongSymbol(t[0]),
        ));
    } else {
        if t[0] == '\n' {
            let t1 = t.skip(1);
            assert(t1[i - 1] == t[i]);
            if t1[i - 1] == '\r' && i < t1.len() && t1[i] == '\n' {
                assert(t[i + 1] == '\n');
            }
            lemma_symbol_error_first_rec(t1, i - 1, rows.push(cur), Seq::empty());
        } else if t[0] == '\r' {
            let t2 = t.skip(2);
            assert(t2[i - 2] == t[i]);
            if t2[i - 2] == '\r' && i - 1 < t2.len() && t2[i - 1] == '\n' {
                assert(t[i + 1] == '\n');
            }
            lemma_symbol_error_first_rec(t2, i - 2, rows.push(cur), Seq::empty());
        } else if t[0] == ' ' {
            let t1 = t.skip(1);
            assert(t1[i - 1] == t[i]);
            if t1[i - 1] == '\r' && i < t1.len() && t1[i] == '\n' {
                assert(t[i + 1] == '\n');
            }
            lemma_symbol_error_first_rec(t1, i - 1, rows, cur);
        } else {
            let t1 = t.skip(1);
            assert(t1[i - 1] == t[i]);
            if t1[i - 1] == '\r' && i < t1.len() && t1[i] == '\n' {
                assert(t[i + 1] == '\n');
            }
            lemma_symbol_error_first_rec(t1, i - 1, rows, cur.push(spec_digit_of(t[0])->0));
        }
    }
}

/// The failure-order law: a bad symbol is reported ahead of any later
/// structural check.  If every character before index `i` scans cleanly —
/// so no earlier symbol or row-size error fires — and the character at `i`
/// is not a digit, a space or a line break, parsing fails with exactly that
/// symbol, whatever follows it (a row of the wrong size included).
pub proof fn lemma_symbol_error_first(t: Seq<char>, i: int)
    requires
        0 <= i < t.len(),
        clean_run(t, i, 0),
        t[i] != '\n',
        t[i] != ' ',
        spec_digit_of(t[i]) is None,
        t[i] == '\r' ==> !(i + 1 < t.len() && t[i + 1] == '\n'),
    ensures
        parse_spec(t) == Err::<Seq<Seq<u8>>, ParseError>(ParseError::WrongSymbol(t[i])),
{
    lemma_symbol_error_first_rec(t, i, Seq::empty(), Seq::empty());
}

/// The round trip law: the text rendered from a well-shaped grid parses
/// back to that very grid.
pub proof fn lemma_render_parse_round_trip(g: Seq<Seq<u8>>)
    requires
        grid_wf(g),
    ensures
        parse_spec(crate::grid::render(g)) == Ok::<Seq<Seq<u8>>, ParseError>(g),
{
    assert(crate::grid::render(g) =~= crate::grid::render_upto(g, 9) + Seq::<char>::empty());
    lemma_parse_rendered_rows(g, 9, Seq::empty(), Seq::empty());
    assert(Seq::<Seq<u8>>::empty() + g.take(9) =~= g);
}

} // verus!
