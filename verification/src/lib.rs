//! Reading and writing of FITS files: header cards, headers, HDU indexing,
//! binary-table column formats and Rice tile decompression.
pub mod bitpix;
pub mod card;
pub mod error;
pub mod extension;
mod text;
pub mod pixel;

pub use bitpix::Bitpix;
pub mod fits;
pub mod header;
pub mod io;
