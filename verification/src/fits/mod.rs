pub mod bintable;
pub mod compression;
pub mod file;
pub mod hdu;
pub mod rice;
pub mod table;
pub mod tile_laws;
pub mod tiles;

pub use file::Fits;
pub use hdu::{HduEntry, HduKind};
