//! A lazy, position-aware character buffer for incremental lexers and parsers.
//!
//! Characters are pulled from a fallible source one line at a time, only as
//! far as a request needs, and are then addressed by their (line, column)
//! position in the text.

pub mod cursor;
pub mod lazy;
pub mod position;
pub mod source;
pub mod span;

pub use lazy::{Buffer, Iter, Step};
pub use position::Position;
pub use source::{CharSource, TextSource};
pub use span::Span;
