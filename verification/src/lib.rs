//! A spreadsheet engine: a formula parser, an expression evaluator and a
//! dependency-tracked grid whose updates reject reference cycles and
//! re-evaluate every dependent cell in dependency order.
//!
//! - [`combinators`]: parsers as functions, and ways to build parsers from
//!   parsers.
//! - [`parser`]: the grammar of a cell's text, rule by rule.
//! - [`number`]: double-precision numbers as bit patterns.
//! - [`expr`]: expression trees, values, and the evaluator.
//! - [`graph`]: walks, cycles and topological ranks of a graph of references.
//! - [`sheet`]: the grid and [`Spreadsheet::set`], its one way to change.
//! - [`laws`]: what holds of every well-formed grid and of every update.
//! - [`presence`]: who works on which sheet.

pub mod combinators;
pub mod expr;
pub mod graph;
pub mod laws;
pub mod number;
pub mod parser;
pub mod presence;
pub mod sheet;

pub use sheet::{Cell, SetError, Spreadsheet};
