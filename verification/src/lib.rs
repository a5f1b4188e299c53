//! Reads a stream of quoted text cells separated by whitespace and line
//! breaks, and renders them as a column-aligned, markdown-style table.
//!
//! The pipeline has three stages: the tokenizer in [`parser`] turns text into
//! cell and line-break tokens, the splitter in [`rows`] partitions the token
//! stream into a header row and fixed-width body rows, and the accumulator in
//! [`table`] tracks per-column widths and renders the bordered text.
//! [`pipeline`] composes the three.

pub mod lexeme;
pub mod parser;
pub mod pipeline;
pub mod rows;
pub mod table;
