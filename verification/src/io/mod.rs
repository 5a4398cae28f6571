//! Reading and writing FITS data in 2880-byte blocks.
pub mod block;

pub use block::{blocks_needed, padded_size, padding_bytes, Block, BlockReader, BlockWriter};
