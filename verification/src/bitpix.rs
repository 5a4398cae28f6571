use vstd::prelude::*;

use crate::error::Error;

verus! {

/// The BITPIX keyword: the data type of the pixels of an array.
#[derive(Debug, Clone, Copy, PartialEq, Eq, Structural)]
pub enum Bitpix {
    UnsignedByte,
    SignedShort,
    SignedInt,
    SignedLong,
    Float,
    Double,
}

/// The keyword value that stands for each BITPIX variant.
pub open spec fn bitpix_value(b: Bitpix) -> int {
    match b {
        Bitpix::UnsignedByte => 8,
        Bitpix::SignedShort => 16,
        Bitpix::SignedInt => 32,
        Bitpix::SignedLong => 64,
        Bitpix::Float => -32,
        Bitpix::Double => -64,
    }
}

/// The number of bytes of one pixel of each BITPIX variant.
pub open spec fn bitpix_width(b: Bitpix) -> nat {
    match b {
        Bitpix::UnsignedByte => 1,
        Bitpix::SignedShort => 2,
        Bitpix::SignedInt | Bitpix::Float => 4,
        Bitpix::SignedLong | Bitpix::Double => 8,
    }
}

/// Whether `v` is one of the six values the standard allows for BITPIX.
pub open spec fn is_bitpix_value(v: int) -> bool {
    v == 8 || v == 16 || v == 32 || v == 64 || v == -32 || v == -64
}

/// The variant whose keyword value is `v`, if there is one.
pub open spec fn bitpix_of(v: int) -> Option<Bitpix> {
    if v == 8 {
        Some(Bitpix::UnsignedByte)
    } else if v == 16 {
        Some(Bitpix::SignedShort)
    } else if v == 32 {
        Some(Bitpix::SignedInt)
    } else if v == 64 {
        Some(Bitpix::SignedLong)
    } else if v == -32 {
        Some(Bitpix::Float)
    } else if v == -64 {
        Some(Bitpix::Double)
    } else {
        None
    }
}

impl Bitpix {
    /// Maps a BITPIX keyword value to its variant; any other value is an
    /// `InvalidKeywordValue` error for the keyword BITPIX.
    pub fn try_from_i64(value: i64) -> (r: Result<Bitpix, Error>)
        ensures
            is_bitpix_value(value as int) <==> r is Ok,
            r matches Ok(b) ==> bitpix_value(b) == value,
            r matches Err(e) ==> e matches Error::InvalidKeywordValue { keyword, .. } && keyword@ == "BITPIX"@,
    {
        match value {
            8 => Ok(Bitpix::UnsignedByte),
            16 => Ok(Bitpix::SignedShort),
            32 => Ok(Bitpix::SignedInt),
            64 => Ok(Bitpix::SignedLong),
            -32 => Ok(Bitpix::Float),
            -64 => Ok(Bitpix::Double),
            other => Err(Error::InvalidKeywordValue {
                keyword: "BITPIX",
                value: other.to_string(),
                reason: "must be one of 8, 16, 32, 64, -32, or -64",
            }),
        }
    }

    /// The keyword value of this BITPIX.
    pub fn value(&self) -> (v: i64)
        ensures
            v == bitpix_value(*self),
    {
        match self {
            Bitpix::UnsignedByte => 8,
            Bitpix::SignedShort => 16,
            Bitpix::SignedInt => 32,
            Bitpix::SignedLong => 64,
            Bitpix::Float => -32,
            Bitpix::Double => -64,
        }
    }

    /// Number of bytes per pixel.
    pub fn byte_width(&self) -> (w: usize)
        ensures
            w == bitpix_width(*self),
    {
        match self {
            Bitpix::UnsignedByte => 1,
            Bitpix::SignedShort => 2,
            Bitpix::SignedInt | Bitpix::Float => 4,
            Bitpix::SignedLong | Bitpix::Double => 8,
        }
    }
}

/// A BITPIX variant and its keyword value determine each other.
pub proof fn bitpix_value_law(b: Bitpix, c: Bitpix)
    ensures
        is_bitpix_value(bitpix_value(b)),
        bitpix_of(bitpix_value(b)) == Some(b),
        bitpix_value(b) == bitpix_value(c) ==> b == c,
        bitpix_width(b) * 8 == if bitpix_value(b) < 0 {
            -bitpix_value(b)
        } else {
            bitpix_value(b)
        },
{
}

} // verus!
