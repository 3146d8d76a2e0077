//! An in-memory editor for delimited-text tables: loading, pagination over
//! the row index space, row blanking and single-field edits, and writing the
//! rows back out.
pub mod codec;
pub mod dimension;
pub mod table;

pub use dimension::{get_dimensions, parse_dimension};
pub use table::{Bound, CSVData, Page, TableError};
