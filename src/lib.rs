//! Tail-style retrieval of the last lines of a byte stream, with literal
//! substring filtering and delimited span extraction.
pub mod blocks;
pub mod filter;
pub mod locate;
pub mod tail;
pub mod text;

pub use blocks::{read_span, BlockSpan, ReverseChunks, BLOCK_SIZE};
pub use filter::{extract_lines, parse_line, ExtractError};
pub use locate::{backward, count_lines, LineLocator, DELIMITER};
pub use tail::{
    fsearch, fsearch_last_line, isearch_all, isearch_last_line, isearch_lines, lines, search_all,
    search_last_line, search_lines, TailError,
};
