//! The trait that keeps `Pixel` to the types of this crate.
use vstd::prelude::*;

verus! {

/// Implemented only by the pixel types of this crate.
pub trait Sealed {
}

} // verus!
