//! Block-level data: coordinates, string tables, header and primitive blocks.

pub mod nano_degree;
pub mod string_table;
pub mod primitives;
pub mod header_block;
pub mod delta;
pub mod decode;
pub mod block_codec;
