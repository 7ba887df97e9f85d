//! A 9-by-9 Sudoku grid: parsing from text, rendering to text, and
//! exhaustive placement-rule validation.
//!
//! The crate offers a parse-then-validate pipeline: [`Sudoku::parse`] turns a
//! text of nine digit rows into a [`Sudoku`], and [`Sudoku::validate`] either
//! returns the grid unchanged or reports every duplicated digit in every row,
//! column and 3-by-3 box.

mod grid;
mod parse;
mod validate;

pub use grid::Sudoku;
pub use parse::ParseError;
pub use validate::Indexes;
pub use validate::ValidationError;
pub use validate::ValidationErrorType;
