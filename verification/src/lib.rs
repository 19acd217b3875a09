//! Splitting byte streams on a literal separator, re-joining every piece or
//! only the pieces picked by ordinal.

pub mod selection;
pub mod splitter;
pub mod text;

pub use selection::ParseError;
pub use splitter::{Progress, Splitter, StreamError};
