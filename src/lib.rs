//! Decoding and encoding of the three segments of a flow cytometry file:
//! the fixed-width header, the delimited text segment and the data segment.
//!
//! Every function works on values already in memory; none reads or writes files.
pub mod chars;
pub mod data;
pub mod header;
pub mod text;

pub use data::{DataError, WordOrder};
pub use header::{Header, HeaderFieldError};
pub use text::{Text, TextError};
