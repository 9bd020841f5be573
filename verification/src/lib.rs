//! A lossless, error-tolerant parser for a small spreadsheet-formula
//! language, built on a red/green concrete syntax tree, together with a
//! grammar-driven generator for typed accessors over that tree and the
//! row/column coordinate utilities the grid front-end consumes.

pub mod builder;
pub mod cell_index;
pub mod codegen;
pub mod grammar;
pub mod green;
pub mod kinds;
pub mod parser;
pub mod red;
mod strings;

pub use kinds::SyntaxKind;
pub use parser::{parse, Parse, ParseError};
