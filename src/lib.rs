//! Line-oriented parsing primitives over a single-pass sequence of text lines:
//! reading a bounded number of lines, reading up to a marker line, skipping
//! comment lines lazily, and splitting a data line into streams of tokens.
pub mod filter;
pub mod read;
pub mod source;
pub mod split;

pub use filter::{filter_out_comment_lines, CommentFilter};
pub use read::{read_n_lines, read_until_line_starts_with};
pub use source::{LineBuffer, LineItem, LineSource};
pub use split::split_line_into_streams;
