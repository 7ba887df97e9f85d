//! The grid type itself: its shape invariant, construction from rows of
//! digits, and rendering to text.

use vstd::prelude::*;
use vstd::string::StringExecFns;

verus! {

/// A 9-by-9 grid of decimal digits.
///
/// Every value of this type holds exactly 9 rows of exactly 9 cells, each
/// cell a digit in `0..=9`.  Values are built by [`Sudoku::parse`] or
/// [`Sudoku::from_grid`], and are never mutated afterwards.
#[derive(Debug, PartialEq, Eq)]
pub struct Sudoku {
    grid: Vec<Vec<u8>>,
}

/// The mathematical view of a sequence of rows: each row as a sequence.
pub open spec fn rows_view(rows: Seq<Vec<u8>>) -> Seq<Seq<u8>> {
    Seq::new(rows.len(), |i: int| rows[i]@)
}

/// The shape every `Sudoku` keeps: 9 rows of 9 cells, each cell at most 9.
pub open spec fn grid_wf(g: Seq<Seq<u8>>) -> bool {
    &&& g.len() == 9
    &&& forall|i: int| 0 <= i < 9 ==> (#[trigger] g[i]).len() == 9
    &&& forall|i: int, j: int| 0 <= i < 9 && 0 <= j < 9 ==> #[trigger] g[i][j] <= 9
}

impl View for Sudoku {
    type V = Seq<Seq<u8>>;

    closed spec fn view(&self) -> Seq<Seq<u8>> {
        rows_view(self.grid@)
    }
}

/// The character that renders a digit `0..=9`.
pub open spec fn digit_char(d: u8) -> char {
    if d == 0 {
        '0'
    } else if d == 1 {
        '1'
    } else if d == 2 {
        '2'
    } else if d == 3 {
        '3'
    } else if d == 4 {
        '4'
    } else if d == 5 {
        '5'
    } else if d == 6 {
        '6'
    } else if d == 7 {
        '7'
    } else if d == 8 {
        '8'
    } else {
        '9'
    }
}

/// The first `n` cells of a row rendered as digits separated by single
/// spaces.
pub open spec fn render_row_upto(row: Seq<u8>, n: int) -> Seq<char>
    decreases n,
{
    if n <= 0 {
        Seq::empty()
    } else if n == 1 {
        seq![digit_char(row[0])]
    } else {
        render_row_upto(row, n - 1) + seq![' ', digit_char(row[n - 1])]
    }
}

/// The first `n` rows rendered, each as 9 space-separated digits followed by
/// a newline.
pub open spec fn render_upto(g: Seq<Seq<u8>>, n: int) -> Seq<char>
    decreases n,
{
    if n <= 0 {
        Seq::empty()
    } else {
        render_upto(g, n - 1) + render_row_upto(g[n - 1], 9) + seq!['\n']
    }
}

/// A whole grid rendered: 9 lines of 9 space-separated digits.
pub open spec fn render(g: Seq<Seq<u8>>) -> Seq<char> {
    render_upto(g, 9)
}

/// The one-character string that renders a digit.
fn digit_str(d: u8) -> (r: &'static str)
    requires
        d <= 9,
    ensures
        r@ == seq![digit_char(d)],
{
    proof {
        reveal_strlit("0");
        reveal_strlit("1");
        reveal_strlit("2");
        reveal_strlit("3");
        reveal_strlit("4");
        reveal_strlit("5");
        reveal_strlit("6");
        reveal_strlit("7");
        reveal_strlit("8");
        reveal_strlit("9");
    }
    match d {
        0 => "0",
        1 => "1",
        2 => "2",
        3 => "3",
        4 => "4",
        5 => "5",
        6 => "6",
        7 => "7",
        8 => "8",
        _ => "9",
    }
}

impl Sudoku {
    #[verifier::type_invariant]
    pub(crate) open spec fn type_wf(self) -> bool {
        grid_wf(self@)
    }

    /// Wraps rows already known to form a well-shaped grid.
    pub(crate) fn from_rows_unchecked(rows: Vec<Vec<u8>>) -> (s: Sudoku)
        requires
            grid_wf(rows_view(rows@)),
        ensures
            s@ == rows_view(rows@),
    {
        Sudoku { grid: rows }
    }

    /// Builds a grid from rows of digits.
    ///
    /// Returns `Some` exactly when the rows form a well-shaped grid: 9 rows
    /// of 9 cells, each cell a digit in `0..=9`; the grid then holds those
    /// rows unchanged.
    pub fn from_grid(rows: Vec<Vec<u8>>) -> (r: Option<Sudoku>)
        ensures
            grid_wf(rows_view(rows@)) ==> (r matches Some(s) && s@ == rows_view(rows@)),
            !grid_wf(rows_view(rows@)) ==> r is None,
    {
        if rows.len() != 9 {
            return None;
        }
        let mut i: usize = 0;
        while i < 9
            invariant
                i <= 9,
                rows@.len() == 9,
                forall|k: int| 0 <= k < i ==> (#[trigger] rows@[k])@.len() == 9,
                forall|k: int, j: int|
                    0 <= k < i && 0 <= j < 9 ==> #[trigger] rows@[k]@[j] <= 9,
            decreases 9 - i,
        {
            let row = &rows[i];
            if row.len() != 9 {
                proof {
                    assert(rows_view(rows@)[i as int] == rows@[i as int]@);
                }
                return None;
            }
            let mut j: usize = 0;
            while j < 9
                invariant
                    j <= 9,
                    row == &rows[i as int],
                    0 <= i < rows@.len(),
                    row@.len() == 9,
                    forall|t: int| 0 <= t < j ==> #[trigger] row@[t] <= 9,
                decreases 9 - j,
            {
                if row[j] > 9 {
                    proof {
                        assert(rows_view(rows@)[i as int] == rows@[i as int]@);
                    }
                    return None;
                }
                j += 1;
            }
            i += 1;
        }
        proof {
            assert forall|k: int| 0 <= k < 9 implies (#[trigger] rows_view(rows@)[k]).len()
                == 9 by {
                assert(rows_view(rows@)[k] == rows@[k]@);
            }
            assert forall|k: int, j: int|
                0 <= k < 9 && 0 <= j < 9 implies #[trigger] rows_view(rows@)[k][j] <= 9 by {
                assert(rows_view(rows@)[k] == rows@[k]@);
            }
        }
        assert(grid_wf(rows_view(rows@)));
        Some(Sudoku::from_rows_unchecked(rows))
    }

    /// The number of rows of the grid: always 9.
    pub fn size(&self) -> (n: usize)
        ensures
            n == self@.len(),
            n == 9,
    {
        proof {
            use_type_invariant(self);
        }
        self.grid.len()
    }

    /// The digit in row `i`, column `j`.
    pub fn cell(&self, i: usize, j: usize) -> (d: u8)
        requires
            i < 9,
            j < 9,
        ensures
            d == self@[i as int][j as int],
            d <= 9,
    {
        proof {
            use_type_invariant(self);
            assert(self@[i as int] == self.grid@[i as int]@);
        }
        self.grid[i][j]
    }

    /// Renders the grid as 9 lines, the 9 digits of each row separated by
    /// single spaces, each line closed by a newline.
    pub fn display(&self) -> (out: String)
        ensures
            out@ == render(self@),
    {
        proof {
            use_type_invariant(self);
        }
        let mut out = String::new();
        let mut i: usize = 0;
        while i < 9
            invariant
                i <= 9,
                grid_wf(self@),
                out@ == render_upto(self@, i as int),
            decreases 9 - i,
        {
            proof {
                reveal_strlit(" ");
                reveal_strlit("\n");
            }
            let mut j: usize = 0;
            while j < 9
                invariant
                    j <= 9,
                    i < 9,
                    grid_wf(self@),
                    " "@ == seq![' '],
                    out@ == render_upto(self@, i as int) + render_row_upto(
                        self@[i as int],
                        j as int,
                    ),
                decreases 9 - j,
            {
                if j > 0 {
                    out.append(" ");
                }
                out.append(digit_str(self.cell(i, j)));
                proof {
                    assert(out@ =~= render_upto(self@, i as int) + render_row_upto(
                        self@[i as int],
                        j + 1 as int,
                    ));
                }
                j += 1;
            }
            out.append("\n");
            proof {
                assert(out@ =~= render_upto(self@, i + 1 as int));
            }
            i += 1;
        }
        out
    }
}

} // verus!
