//! Locating every occurrence of a literal query in a text, the gaps between
//! the occurrences, and rewriting a text segment by segment.
//!
//! All positions are byte offsets into the UTF-8 encoding of the text. An
//! empty query is never found.
//!
//! - [`occurrence`] is the mathematical model: occurrences, gaps, and the
//!   laws that hold of them.
//! - [`boundary`] shows that occurrences and gaps begin and end at character
//!   boundaries, so that the text can be cut there.
//! - [`utility`] finds the first occurrence of a query and shifts ranges.
//! - [`query_range_iterator`] iterates the occurrences or the gaps.
//! - [`reassembly`] merges tagged pieces of text by their offsets.
//! - [`transform`] rewrites a text by transforming its occurrences, its gaps
//!   or both.

pub mod boundary;
pub mod occurrence;
pub mod query_range_iterator;
pub mod reassembly;
pub mod transform;
pub mod utility;

pub use query_range_iterator::QueryRangeItr;
pub use utility::{get_range, is_within, shift_range, shift_range_in_content, Shift};
