//! The keywords of a tile-compressed image (10.1): compression type,
//! quantization, algorithm parameters and tiling.
use vstd::prelude::*;

use crate::bitpix::{bitpix_value, is_bitpix_value, Bitpix};
use crate::card::{CardValue, ValueModel};
use crate::error::{fault_matches, Error, HeaderFault};
use crate::header::keywords::{axis_fault, numbered, numbered_keyword};
use crate::header::{lookup_value, Header};

pub use super::tiles::TileGeometry;

verus! {

/// Compression algorithms (10.1.2). Only Rice is decoded; the others are
/// recognised.
#[derive(Debug, Clone, Copy, PartialEq, Eq)]
pub enum CmpType {
    /// 10.4.1
    Rice,
    /// 10.4.2
    Gzip1,
    /// 10.4.2
    Gzip2,
    /// 10.4.4
    HCompress,
    /// 10.4.3
    Plio,
}

/// The compression type that a ZCMPTYPE value names.
pub open spec fn cmp_named(s: Seq<char>) -> Option<CmpType> {
    if s == "RICE_1"@ {
        Some(CmpType::Rice)
    } else if s == "GZIP_1"@ {
        Some(CmpType::Gzip1)
    } else if s == "GZIP_2"@ {
        Some(CmpType::Gzip2)
    } else if s == "HCOMPRESS_1"@ {
        Some(CmpType::HCompress)
    } else if s == "PLIO_1"@ {
        Some(CmpType::Plio)
    } else {
        None
    }
}

impl CmpType {
    /// ZCMPTYPE: a `MissingKeyword` error when it is absent, an
    /// `InvalidKeywordValue` error when it is not a string, and an
    /// `UnsupportedFeature` error for an unknown name.
    pub fn from_header(h: &Header) -> (r: Result<CmpType, Error>)
        requires
            h.well_formed(),
        ensures
            match lookup_value(h@, "ZCMPTYPE"@) {
                None => r matches Err(Error::MissingKeyword(k)) && k@ == "ZCMPTYPE"@,
                Some(ValueModel::String(s)) => match cmp_named(s) {
                    Some(c) => r == Ok::<CmpType, Error>(c),
                    None => r matches Err(Error::UnsupportedFeature(m)) && m@ == algorithm_error(s),
                },
                Some(_) => r matches Err(Error::InvalidKeywordValue { keyword, .. }) && keyword@
                    == "ZCMPTYPE"@,
            },
    {
        match h.get_value("ZCMPTYPE") {
            None => Err(Error::MissingKeyword("ZCMPTYPE")),
            Some(CardValue::String(s)) => Self::from_str(s.as_str()),
            Some(_) => Err(
                Error::InvalidKeywordValue {
                    keyword: "ZCMPTYPE",
                    value: String::from_str("non-string"),
                    reason: "must be a string",
                },
            ),
        }
    }

    fn from_str(s: &str) -> (r: Result<CmpType, Error>)
        ensures
            match cmp_named(s@) {
                Some(c) => r == Ok::<CmpType, Error>(c),
                None => r matches Err(Error::UnsupportedFeature(m)) && m@ == algorithm_error(s@),
            },
    {
        if crate::text::str_eq(s, "RICE_1") {
            Ok(Self::Rice)
        } else if crate::text::str_eq(s, "GZIP_1") {
            Ok(Self::Gzip1)
        } else if crate::text::str_eq(s, "GZIP_2") {
            Ok(Self::Gzip2)
        } else if crate::text::str_eq(s, "HCOMPRESS_1") {
            Ok(Self::HCompress)
        } else if crate::text::str_eq(s, "PLIO_1") {
            Ok(Self::Plio)
        } else {
            Err(
                Error::UnsupportedFeature(
                    String::from_str("unknown ZCMPTYPE '").concat(s).concat("'"),
                ),
            )
        }
    }
}

/// Dithering used when floating-point pixels were quantized (ZQUANTIZ, 10.2).
#[derive(Debug, Clone, Copy, PartialEq, Eq)]
pub enum QuantizeMethod {
    NoDither,
    SubtractiveDither1,
    SubtractiveDither2,
}

/// The method that a ZQUANTIZ value names.
pub open spec fn quantize_named(s: Seq<char>) -> Option<QuantizeMethod> {
    if s == "NO_DITHER"@ {
        Some(QuantizeMethod::NoDither)
    } else if s == "SUBTRACTIVE_DITHER_1"@ {
        Some(QuantizeMethod::SubtractiveDither1)
    } else if s == "SUBTRACTIVE_DITHER_2"@ {
        Some(QuantizeMethod::SubtractiveDither2)
    } else {
        None
    }
}

impl QuantizeMethod {
    /// ZQUANTIZ: `None` when it is absent, an `InvalidKeywordValue` error
    /// when it is not a string, an `UnsupportedFeature` error for an unknown name.
    pub fn from_header(h: &Header) -> (r: Result<Option<QuantizeMethod>, Error>)
        requires
            h.well_formed(),
        ensures
            match lookup_value(h@, "ZQUANTIZ"@) {
                None => r == Ok::<Option<QuantizeMethod>, Error>(None),
                Some(ValueModel::String(s)) => match quantize_named(s) {
                    Some(q) => r == Ok::<Option<QuantizeMethod>, Error>(Some(q)),
                    None => r matches Err(Error::UnsupportedFeature(m)) && m@ == quantize_error(s),
                },
                Some(_) => r matches Err(Error::InvalidKeywordValue { keyword, .. }) && keyword@
                    == "ZQUANTIZ"@,
            },
    {
        match h.get_value("ZQUANTIZ") {
            None => Ok(None),
            Some(CardValue::String(s)) => match Self::from_str(s.as_str()) {
                Ok(q) => Ok(Some(q)),
                Err(e) => Err(e),
            },
            Some(_) => Err(
                Error::InvalidKeywordValue {
                    keyword: "ZQUANTIZ",
                    value: String::from_str("non-string"),
                    reason: "must be a string",
                },
            ),
        }
    }

    fn from_str(s: &str) -> (r: Result<QuantizeMethod, Error>)
        ensures
            match quantize_named(s@) {
                Some(q) => r == Ok::<QuantizeMethod, Error>(q),
                None => r matches Err(Error::UnsupportedFeature(m)) && m@ == quantize_error(s@),
            },
    {
        if crate::text::str_eq(s, "NO_DITHER") {
            Ok(Self::NoDither)
        } else if crate::text::str_eq(s, "SUBTRACTIVE_DITHER_1") {
            Ok(Self::SubtractiveDither1)
        } else if crate::text::str_eq(s, "SUBTRACTIVE_DITHER_2") {
            Ok(Self::SubtractiveDither2)
        } else {
            Err(
                Error::UnsupportedFeature(
                    String::from_str("unknown ZQUANTIZ '").concat(s).concat("'"),
                ),
            )
        }
    }
}

/// Algorithm parameters (10.1.2, 10.4). Only those of Rice are read.
#[derive(Debug, Clone, Copy, PartialEq)]
pub enum AlgoParams {
    /// 10.4.1, Table 37: BLOCKSIZE (ZVAL1) and BYTEPIX (ZVAL2).
    Rice { block_size: u32, byte_pix: u32 },
    Other,
}

/// An integer parameter: the integer value of `kw` cut to 32 bits, or
/// `default` when there is none.
pub open spec fn int_param(cards: Seq<crate::card::CardModel>, kw: Seq<char>, default: u32) -> u32 {
    match lookup_value(cards, kw) {
        Some(ValueModel::Integer(i)) => i as u32,
        _ => default,
    }
}

impl AlgoParams {
    /// The parameters of `algorithm`: for Rice, ZVAL1 as the block
    /// size (default 32) and ZVAL2 as the bytes per pixel (default 4), each
    /// cut to 32 bits; `Other` for the rest.
    pub fn from_header(h: &Header, algorithm: &CmpType) -> (r: Result<AlgoParams, Error>)
        requires
            h.well_formed(),
        ensures
            r == Ok::<AlgoParams, Error>(
                match *algorithm {
                    CmpType::Rice => AlgoParams::Rice {
                        block_size: int_param(h@, "ZVAL1"@, 32),
                        byte_pix: int_param(h@, "ZVAL2"@, 4),
                    },
                    _ => AlgoParams::Other,
                },
            ),
    {
        match algorithm {
            CmpType::Rice => {
                let block_size = match h.get_value("ZVAL1") {
                    Some(v) => match v.as_integer() {
                        Some(i) => i as u32,
                        None => 32,
                    },
                    None => 32,
                };
                let byte_pix = match h.get_value("ZVAL2") {
                    Some(v) => match v.as_integer() {
                        Some(i) => i as u32,
                        None => 4,
                    },
                    None => 4,
                };
                Ok(AlgoParams::Rice { block_size, byte_pix })
            },
            _ => Ok(AlgoParams::Other),
        }
    }
}

/// ZNAXIS, when it is an integer from 0 to 999.
pub open spec fn znaxis_value(cards: Seq<crate::card::CardModel>) -> Option<int> {
    match lookup_value(cards, "ZNAXIS"@) {
        Some(ValueModel::Integer(i)) => if 0 <= i <= 999 {
            Some(i as int)
        } else {
            None
        },
        _ => None,
    }
}

/// ZNAXISk, when it is a non-negative integer.
pub open spec fn zaxis_value(cards: Seq<crate::card::CardModel>, k: nat) -> Option<u64> {
    match lookup_value(cards, numbered("ZNAXIS"@, k)) {
        Some(ValueModel::Integer(i)) => if i >= 0 {
            Some(i as u64)
        } else {
            None
        },
        _ => None,
    }
}

/// ZNAXIS1 … ZNAXISn, when all of them are non-negative integers.
pub open spec fn image_shape_of(cards: Seq<crate::card::CardModel>, n: nat) -> Option<Seq<u64>>
    decreases n,
{
    if n == 0 {
        Some(Seq::empty())
    } else {
        match (image_shape_of(cards, (n - 1) as nat), zaxis_value(cards, n)) {
            (Some(s), Some(v)) => Some(s.push(v)),
            _ => None,
        }
    }
}

/// ZTILEk: a positive integer; when it is absent, the whole first axis for
/// k = 1 and 1 for the other axes (row-by-row tiling).
pub open spec fn ztile_value(cards: Seq<crate::card::CardModel>, k: nat, img: Seq<u64>) -> Option<u64> {
    match lookup_value(cards, numbered("ZTILE"@, k)) {
        Some(ValueModel::Integer(i)) => if i > 0 {
            Some(i as u64)
        } else {
            None
        },
        Some(_) => None,
        None => Some(
            if k == 1 {
                img[0]
            } else {
                1
            },
        ),
    }
}

/// ZTILE1 … ZTILEn, when all of them are valid.
pub open spec fn tile_shape_of(cards: Seq<crate::card::CardModel>, n: nat, img: Seq<u64>) -> Option<
    Seq<u64>,
>
    decreases n,
{
    if n == 0 {
        Some(Seq::empty())
    } else {
        match (tile_shape_of(cards, (n - 1) as nat, img), ztile_value(cards, n, img)) {
            (Some(s), Some(v)) => Some(s.push(v)),
            _ => None,
        }
    }
}

/// The tiling that a header describes: image shape and tile shape.
pub open spec fn tiling_of(cards: Seq<crate::card::CardModel>) -> Option<(Seq<u64>, Seq<u64>)> {
    match znaxis_value(cards) {
        Some(n) => match image_shape_of(cards, n as nat) {
            Some(img) => match tile_shape_of(cards, n as nat, img) {
                Some(tiles) => Some((img, tiles)),
                None => None,
            },
            None => None,
        },
        None => None,
    }
}

/// The name of an algorithm, as its variant is spelled.
pub open spec fn algorithm_text(c: CmpType) -> Seq<char> {
    match c {
        CmpType::Rice => "Rice"@,
        CmpType::Gzip1 => "Gzip1"@,
        CmpType::Gzip2 => "Gzip2"@,
        CmpType::HCompress => "HCompress"@,
        CmpType::Plio => "Plio"@,
    }
}

/// The message of a ZCMPTYPE value that names no algorithm.
pub open spec fn algorithm_error(s: Seq<char>) -> Seq<char> {
    "unknown ZCMPTYPE '"@ + s + "'"@
}

/// The message of a ZQUANTIZ value that names no method.
pub open spec fn quantize_error(s: Seq<char>) -> Seq<char> {
    "unknown ZQUANTIZ '"@ + s + "'"@
}

/// What is wrong with the first `n` of ZNAXIS1 … ZNAXISn: the fault of the
/// first one that is not a non-negative integer.
pub open spec fn shape_fault(cards: Seq<crate::card::CardModel>, n: nat) -> Option<HeaderFault>
    decreases n,
{
    if n == 0 {
        None
    } else {
        match shape_fault(cards, (n - 1) as nat) {
            Some(f) => Some(f),
            None => axis_fault(cards, numbered("ZNAXIS"@, n)),
        }
    }
}

/// What is wrong with ZTILEk: nothing when it is absent or a positive
/// integer.
pub open spec fn ztile_fault(cards: Seq<crate::card::CardModel>, k: nat) -> Option<HeaderFault> {
    match lookup_value(cards, numbered("ZTILE"@, k)) {
        None => None,
        Some(ValueModel::Integer(i)) => if i > 0 {
            None
        } else {
            Some(HeaderFault::Header(numbered("ZTILE"@, k) + " must be a positive integer"@))
        },
        Some(_) => Some(HeaderFault::Header(numbered("ZTILE"@, k) + " must be a positive integer"@)),
    }
}

/// What is wrong with the first `n` of ZTILE1 … ZTILEn: the fault of the
/// first one that is wrong.
pub open spec fn tiles_fault(cards: Seq<crate::card::CardModel>, n: nat) -> Option<HeaderFault>
    decreases n,
{
    if n == 0 {
        None
    } else {
        match tiles_fault(cards, (n - 1) as nat) {
            Some(f) => Some(f),
            None => ztile_fault(cards, n),
        }
    }
}

/// The error of a header whose tiling cannot be read (`tiling_of` is
/// `None`): ZNAXIS missing or out of range, else the first ZNAXISn that is
/// wrong, else the first ZTILEn that is wrong.
pub open spec fn tiling_fault(cards: Seq<crate::card::CardModel>) -> HeaderFault {
    match lookup_value(cards, "ZNAXIS"@) {
        None => HeaderFault::Missing("ZNAXIS"@),
        Some(ValueModel::Integer(i)) => if 0 <= i <= 999 {
            match shape_fault(cards, i as nat) {
                Some(f) => f,
                None => match tiles_fault(cards, i as nat) {
                    Some(f) => f,
                    None => HeaderFault::Malformed,
                },
            }
        } else {
            HeaderFault::BadValue("ZNAXIS"@)
        },
        Some(_) => HeaderFault::BadValue("ZNAXIS"@),
    }
}

/// The error of a header whose compression keywords cannot be read: ZBITPIX,
/// ZCMPTYPE, ZQUANTIZ and the tiling, checked in that order.
pub open spec fn compression_fault(cards: Seq<crate::card::CardModel>) -> HeaderFault {
    if zbitpix_of(cards) is None {
        match lookup_value(cards, "ZBITPIX"@) {
            None => HeaderFault::Missing("ZBITPIX"@),
            Some(_) => HeaderFault::BadValue("ZBITPIX"@),
        }
    } else if algorithm_of(cards) is None {
        match lookup_value(cards, "ZCMPTYPE"@) {
            None => HeaderFault::Missing("ZCMPTYPE"@),
            Some(ValueModel::String(s)) => HeaderFault::Unsupported(algorithm_error(s)),
            Some(_) => HeaderFault::BadValue("ZCMPTYPE"@),
        }
    } else if quantize_of(cards) is None {
        match lookup_value(cards, "ZQUANTIZ"@) {
            Some(ValueModel::String(s)) => HeaderFault::Unsupported(quantize_error(s)),
            _ => HeaderFault::BadValue("ZQUANTIZ"@),
        }
    } else {
        tiling_fault(cards)
    }
}

/// Once one of the first `k` axes or tiles is wrong, the same fault stands
/// for the first `n`.
pub proof fn lemma_faults_stay(cards: Seq<crate::card::CardModel>, k: nat, n: nat)
    requires
        k <= n,
    ensures
        shape_fault(cards, k) is Some ==> shape_fault(cards, n) == shape_fault(cards, k),
        tiles_fault(cards, k) is Some ==> tiles_fault(cards, n) == tiles_fault(cards, k),
    decreases n,
{
    if n > k {
        lemma_faults_stay(cards, k, (n - 1) as nat);
    }
}

pub proof fn lemma_shape_len(cards: Seq<crate::card::CardModel>, n: nat)
    ensures
        image_shape_of(cards, n) matches Some(s) ==> s.len() == n,
    decreases n,
{
    if n > 0 {
        lemma_shape_len(cards, (n - 1) as nat);
    }
}

/// Every tile size is positive when the first axis of the image is not
/// empty.
pub proof fn lemma_tile_shape_positive(cards: Seq<crate::card::CardModel>, n: nat, img: Seq<u64>)
    requires
        n >= 1 ==> img.len() >= 1 && img[0] > 0,
    ensures
        tile_shape_of(cards, n, img) matches Some(t) ==> t.len() == n && forall|d: int|
            0 <= d < n ==> t[d] > 0,
    decreases n,
{
    if n > 0 {
        lemma_tile_shape_positive(cards, (n - 1) as nat, img);
    }
}

pub proof fn lemma_shape_prefix_fails(cards: Seq<crate::card::CardModel>, k: nat, n: nat)
    requires
        k <= n,
        image_shape_of(cards, k) is None,
    ensures
        image_shape_of(cards, n) is None,
    decreases n,
{
    if n > k {
        lemma_shape_prefix_fails(cards, k, (n - 1) as nat);
    }
}

pub proof fn lemma_tiles_prefix_fails(cards: Seq<crate::card::CardModel>, k: nat, n: nat, img: Seq<u64>)
    requires
        k <= n,
        tile_shape_of(cards, k, img) is None,
    ensures
        tile_shape_of(cards, n, img) is None,
    decreases n,
{
    if n > k {
        lemma_tiles_prefix_fails(cards, k, (n - 1) as nat, img);
    }
}

impl TileGeometry {
    /// The tiling from ZNAXIS, ZNAXISn and ZTILEn (10.1.1); the errors of
    /// `znaxis` and `znaxisn`, and an `InvalidHeader` error for a ZTILEn
    /// that is not a positive integer.
    pub fn from_header(h: &Header) -> (r: Result<TileGeometry, Error>)
        requires
            h.well_formed(),
        ensures
            match tiling_of(h@) {
                Some((img, tiles)) => r matches Ok(g) && g.image_shape@ == img && g.tile_shape@
                    == tiles,
                None => fault_matches(r, tiling_fault(h@)),
            },
    {
        let naxis = match h.znaxis() {
            Ok(n) => n,
            Err(e) => return Err(e),
        };
        let ghost cards = h@;
        let mut image_shape: Vec<u64> = Vec::new();
        let mut n: usize = 1;
        while n <= naxis
            invariant
                h.well_formed(),
                cards == h@,
                1 <= n <= naxis + 1,
                naxis <= 999,
                znaxis_value(cards) == Some(naxis as int),
                image_shape_of(cards, (n - 1) as nat) == Some(image_shape@),
                shape_fault(cards, (n - 1) as nat) is None,
            decreases naxis + 1 - n,
        {
            let v = match h.znaxisn(n) {
                Ok(v) => v,
                Err(e) => {
                    proof {
                        assert(image_shape_of(cards, n as nat) is None);
                        lemma_shape_prefix_fails(cards, n as nat, naxis as nat);
                        assert(shape_fault(cards, n as nat) is Some);
                        lemma_faults_stay(cards, n as nat, naxis as nat);
                    }
                    return Err(e);
                },
            };
            image_shape.push(v);
            n = n + 1;
        }
        proof {
            lemma_shape_len(cards, naxis as nat);
        }
        let mut tile_shape: Vec<u64> = Vec::new();
        let mut n: usize = 1;
        while n <= naxis
            invariant
                h.well_formed(),
                cards == h@,
                1 <= n <= naxis + 1,
                naxis <= 999,
                znaxis_value(cards) == Some(naxis as int),
                image_shape_of(cards, naxis as nat) == Some(image_shape@),
                image_shape@.len() == naxis,
                tile_shape_of(cards, (n - 1) as nat, image_shape@) == Some(tile_shape@),
                shape_fault(cards, naxis as nat) is None,
                tiles_fault(cards, (n - 1) as nat) is None,
            decreases naxis + 1 - n,
        {
            let kw = numbered_keyword("ZTILE", n);
            let v: u64 = match h.get_value(kw.as_str()) {
                Some(CardValue::Integer(i)) if *i > 0 => *i as u64,
                Some(_) => {
                    proof {
                        assert(tile_shape_of(cards, n as nat, image_shape@) is None);
                        lemma_tiles_prefix_fails(cards, n as nat, naxis as nat, image_shape@);
                        assert(tiles_fault(cards, n as nat) is Some);
                        lemma_faults_stay(cards, n as nat, naxis as nat);
                    }
                    return Err(Error::InvalidHeader(kw.concat(" must be a positive integer")));
                },
                None => if n == 1 {
                    image_shape[0]
                } else {
                    1
                },
            };
            tile_shape.push(v);
            n = n + 1;
        }
        Ok(TileGeometry { image_shape, tile_shape })
    }
}

/// All compression metadata needed to decompress a tile-compressed image (10.1).
#[derive(Debug, Clone, PartialEq)]
pub struct CompressionHeader {
    /// Original image pixel type (from ZBITPIX). 10.1.1
    pub bitpix: Bitpix,
    pub cmp_type: CmpType,
    pub algo_params: AlgoParams,
    pub quantize: Option<QuantizeMethod>,
    pub tiles: TileGeometry,
}

/// ZBITPIX as a pixel type, when it is one of the six BITPIX values.
pub open spec fn zbitpix_of(cards: Seq<crate::card::CardModel>) -> Option<int> {
    match lookup_value(cards, "ZBITPIX"@) {
        Some(ValueModel::Integer(i)) => if is_bitpix_value(i as int) {
            Some(i as int)
        } else {
            None
        },
        _ => None,
    }
}

/// ZQUANTIZ, when it is absent or names a method.
pub open spec fn quantize_of(cards: Seq<crate::card::CardModel>) -> Option<Option<QuantizeMethod>> {
    match lookup_value(cards, "ZQUANTIZ"@) {
        None => Some(None),
        Some(ValueModel::String(s)) => match quantize_named(s) {
            Some(q) => Some(Some(q)),
            None => None,
        },
        Some(_) => None,
    }
}

/// ZCMPTYPE, when it names an algorithm.
pub open spec fn algorithm_of(cards: Seq<crate::card::CardModel>) -> Option<CmpType> {
    match lookup_value(cards, "ZCMPTYPE"@) {
        Some(ValueModel::String(s)) => cmp_named(s),
        _ => None,
    }
}

impl CmpType {
    /// The name of the algorithm, as its variant is spelled.
    pub fn name(&self) -> (r: &'static str)
        ensures
            r@ == algorithm_text(*self),
    {
        match self {
            CmpType::Rice => "Rice",
            CmpType::Gzip1 => "Gzip1",
            CmpType::Gzip2 => "Gzip2",
            CmpType::HCompress => "HCompress",
            CmpType::Plio => "Plio",
        }
    }
}

impl CompressionHeader {
    /// The name of the compression algorithm, as its variant is spelled.
    pub fn algorithm_name(&self) -> (r: &'static str)
        ensures
            r@ == algorithm_text(self.cmp_type),
    {
        self.cmp_type.name()
    }

    /// Whether the tiles are Rice-coded.
    pub fn is_rice(&self) -> (r: bool)
        ensures
            r == (self.cmp_type == CmpType::Rice),
    {
        match self.cmp_type {
            CmpType::Rice => true,
            _ => false,
        }
    }

    /// ZBITPIX, ZCMPTYPE, the algorithm parameters, ZQUANTIZ and the tiling,
    /// read in that order; the first error met is given.
    pub fn from_header(h: &Header) -> (r: Result<CompressionHeader, Error>)
        requires
            h.well_formed(),
        ensures
            match (zbitpix_of(h@), algorithm_of(h@), quantize_of(h@), tiling_of(h@)) {
                (Some(b), Some(c), Some(q), Some((img, tiles))) => r matches Ok(ch) && bitpix_value(
                    ch.bitpix,
                ) == b && ch.cmp_type == c && ch.quantize == q && ch.algo_params == match c {
                    CmpType::Rice => AlgoParams::Rice {
                        block_size: int_param(h@, "ZVAL1"@, 32),
                        byte_pix: int_param(h@, "ZVAL2"@, 4),
                    },
                    _ => AlgoParams::Other,
                } && ch.tiles.image_shape@ == img && ch.tiles.tile_shape@ == tiles,
                _ => fault_matches(r, compression_fault(h@)),
            },
    {
        let bitpix = match h.zbitpix() {
            Ok(b) => b,
            Err(e) => return Err(e),
        };
        let cmp_type = match CmpType::from_header(h) {
            Ok(c) => c,
            Err(e) => return Err(e),
        };
        let algo_params = match AlgoParams::from_header(h, &cmp_type) {
            Ok(a) => a,
            Err(e) => return Err(e),
        };
        let quantize = match QuantizeMethod::from_header(h) {
            Ok(q) => q,
            Err(e) => return Err(e),
        };
        let tiles = match TileGeometry::from_header(h) {
            Ok(t) => t,
            Err(e) => return Err(e),
        };
        Ok(CompressionHeader { bitpix, cmp_type, algo_params, quantize, tiles })
    }
}

impl Header {
    /// ZBITPIX (10.1.1): the pixel type of the uncompressed image.
    pub fn zbitpix(&self) -> (r: Result<Bitpix, Error>)
        requires
            self.well_formed(),
        ensures
            match lookup_value(self@, "ZBITPIX"@) {
                None => r matches Err(Error::MissingKeyword(k)) && k@ == "ZBITPIX"@,
                Some(ValueModel::Integer(i)) => if is_bitpix_value(i as int) {
                    r matches Ok(b) && bitpix_value(b) == i
                } else {
                    r matches Err(Error::InvalidKeywordValue { keyword, .. }) && keyword@
                        == "ZBITPIX"@
                },
                Some(_) => r matches Err(Error::InvalidKeywordValue { keyword, .. }) && keyword@
                    == "ZBITPIX"@,
            },
    {
        match self.get_value("ZBITPIX") {
            None => Err(Error::MissingKeyword("ZBITPIX")),
            Some(CardValue::Integer(i)) => match Bitpix::try_from_i64(*i) {
                Ok(b) => Ok(b),
                Err(_) => Err(
                    Error::InvalidKeywordValue {
                        keyword: "ZBITPIX",
                        value: i.to_string(),
                        reason: "must be one of 8, 16, 32, 64, -32, or -64",
                    },
                ),
            },
            Some(_) => Err(
                Error::InvalidKeywordValue {
                    keyword: "ZBITPIX",
                    value: String::from_str("non-integer"),
                    reason: "must be an integer",
                },
            ),
        }
    }

    /// ZNAXIS (10.1.1): a non-negative integer no greater than 999.
    pub fn znaxis(&self) -> (r: Result<usize, Error>)
        requires
            self.well_formed(),
        ensures
            match lookup_value(self@, "ZNAXIS"@) {
                None => r matches Err(Error::MissingKeyword(k)) && k@ == "ZNAXIS"@,
                Some(ValueModel::Integer(i)) => if 0 <= i <= 999 {
                    r == Ok::<usize, Error>(i as usize)
                } else {
                    r matches Err(Error::InvalidKeywordValue { keyword, .. }) && keyword@
                        == "ZNAXIS"@
                },
                Some(_) => r matches Err(Error::InvalidKeywordValue { keyword, .. }) && keyword@
                    == "ZNAXIS"@,
            },
    {
        match self.get_value("ZNAXIS") {
            None => Err(Error::MissingKeyword("ZNAXIS")),
            Some(CardValue::Integer(i)) if 0 <= *i && *i <= 999 => Ok(*i as usize),
            Some(_) => Err(
                Error::InvalidKeywordValue {
                    keyword: "ZNAXIS",
                    value: String::from_str("non-integer"),
                    reason: "must be an integer between 0 and 999",
                },
            ),
        }
    }

    /// ZNAXISn (10.1.1): a non-negative integer; an `InvalidHeader` error
    /// when it is missing or is not.
    pub fn znaxisn(&self, n: usize) -> (r: Result<u64, Error>)
        requires
            self.well_formed(),
        ensures
            match lookup_value(self@, numbered("ZNAXIS"@, n as nat)) {
                Some(ValueModel::Integer(i)) => if i >= 0 {
                    r == Ok::<u64, Error>(i as u64)
                } else {
                    r matches Err(Error::InvalidHeader(m)) && m@ == numbered("ZNAXIS"@, n as nat)
                        + " value must be a non-negative integer"@
                },
                None => r matches Err(Error::InvalidHeader(m)) && m@ == "missing "@ + numbered(
                    "ZNAXIS"@,
                    n as nat,
                ) + " keyword"@,
                Some(_) => r matches Err(Error::InvalidHeader(m)) && m@ == numbered(
                    "ZNAXIS"@,
                    n as nat,
                ) + " value must be a non-negative integer"@,
            },
    {
        let kw = numbered_keyword("ZNAXIS", n);
        match self.get_value(kw.as_str()) {
            Some(CardValue::Integer(i)) if *i >= 0 => Ok(*i as u64),
            None => Err(
                Error::InvalidHeader(
                    String::from_str("missing ").concat(kw.as_str()).concat(" keyword"),
                ),
            ),
            Some(_) => Err(
                Error::InvalidHeader(kw.concat(" value must be a non-negative integer")),
            ),
        }
    }
}

} // verus!
