//! Retrieval of heading-delimited blocks from a notes document.
//!
//! A document is a sequence of lines. Every line whose first character is `#`
//! opens a new block; the non-blank lines that follow it, trimmed, are that
//! block's content. Blocks can then be selected by a case-insensitive regular
//! expression matched against their heading line.

pub mod block;
pub mod segment;
pub mod select;

pub use block::{Block, BlockModel};
pub use segment::{all_blocks, BlockIterator};
pub use select::{select_blocks, BlockSelector, SelectError};
