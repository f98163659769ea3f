//! A pattern-matching core: searchers that find, consume and trim
//! occurrences of a pattern in a hay of elements or of UTF-8 text.

pub mod element;
pub mod span;
pub mod suffix;
pub mod two_way;
pub mod empty;
pub mod slice;
pub mod single;
pub mod laws;
pub mod pattern;
pub mod text;
