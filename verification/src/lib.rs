//! Computational core of a spreadsheet: a formula grammar and parser, an
//! evaluator with a small function library, and a dependency tracker that
//! detects circular references and drives cascading recomputation on edits.

pub mod ast;
pub mod coords;
pub mod errors;
pub mod eval;
pub mod graph;
pub mod grid;
pub mod laws;
pub mod parser;
pub mod text;
pub mod tokens;

pub use coords::Coords;
pub use errors::FormulaError;
