//! File-level data: blob framing, the blob index and element iteration.

pub mod blob;
pub mod wire;
pub mod frame;
pub mod filter;
pub mod indexed_reader;
pub mod reader;
