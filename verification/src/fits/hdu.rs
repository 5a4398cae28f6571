//! The entries of the HDU index of a file.
use vstd::prelude::*;

use crate::card::{CardModel, ValueModel};
use crate::error::Error;
use crate::extension::XtensionType;
use crate::header::{lookup, lookup_value, Header};

verus! {

/// The kind of an HDU.
#[derive(Debug, PartialEq, Eq, Clone, Copy, Structural)]
pub enum HduKind {
    Primary,
    Image,
    BinaryTable,
    AsciiTable,
    CompressedImage,
}

/// Where an HDU stands in a file and what it is.
#[derive(Debug, PartialEq, Eq, Clone)]
pub struct HduEntry {
    pub index: usize,
    pub header_offset: u64,
    pub data_offset: u64,
    pub data_len: u64,
    pub kind: HduKind,
    pub name: Option<String>,
    pub version: Option<i64>,
}

/// Mathematical form of an index entry.
pub struct HduModel {
    pub index: int,
    pub header_offset: int,
    pub data_offset: int,
    pub data_len: int,
    pub kind: HduKind,
    pub name: Option<Seq<char>>,
    pub version: Option<i64>,
}

impl View for HduEntry {
    type V = HduModel;

    open spec fn view(&self) -> HduModel {
        HduModel {
            index: self.index as int,
            header_offset: self.header_offset as int,
            data_offset: self.data_offset as int,
            data_len: self.data_len as int,
            kind: self.kind,
            name: crate::card::opt_view(self.name),
            version: self.version,
        }
    }
}

/// Whether an HDU of this kind holds an image.
pub open spec fn image_kind(k: HduKind) -> bool {
    k == HduKind::Primary || k == HduKind::Image || k == HduKind::CompressedImage
}

impl HduEntry {
    /// Whether the HDU holds an image: a primary array, an image extension
    /// or a tile-compressed image.
    pub fn is_image(&self) -> (r: bool)
        ensures
            r == image_kind(self.kind),
    {
        match self.kind {
            HduKind::Primary | HduKind::Image | HduKind::CompressedImage => true,
            _ => false,
        }
    }
}

/// The kind of an HDU of each extension type, before a binary table is
/// told apart from a tile-compressed image.
pub open spec fn kind_of_extension(x: XtensionType) -> HduKind {
    match x {
        XtensionType::Image => HduKind::Image,
        XtensionType::BinaryTable => HduKind::BinaryTable,
        XtensionType::AsciiTable => HduKind::AsciiTable,
    }
}

impl From<XtensionType> for HduKind {
    fn from(x: XtensionType) -> (r: HduKind) {
        match x {
            XtensionType::Image => HduKind::Image,
            XtensionType::BinaryTable => HduKind::BinaryTable,
            XtensionType::AsciiTable => HduKind::AsciiTable,
        }
    }
}

impl vstd::std_specs::convert::FromSpecImpl<XtensionType> for HduKind {
    open spec fn obeys_from_spec() -> bool {
        true
    }

    open spec fn from_spec(x: XtensionType) -> HduKind {
        kind_of_extension(x)
    }
}

/// The kind of an extension from its header: its XTENSION type, a binary
/// table with `ZIMAGE = T` being a tile-compressed image (10.1).
pub open spec fn extension_kind(cards: Seq<CardModel>) -> Option<HduKind> {
    match lookup(cards, "XTENSION"@) {
        Some(CardModel::Xtension { x, .. }) => Some(
            match x {
                XtensionType::Image => HduKind::Image,
                XtensionType::AsciiTable => HduKind::AsciiTable,
                XtensionType::BinaryTable => if lookup_value(cards, "ZIMAGE"@) == Some(
                    ValueModel::Logical(true),
                ) {
                    HduKind::CompressedImage
                } else {
                    HduKind::BinaryTable
                },
            },
        ),
        _ => None,
    }
}

/// The kind of an extension from its header; the errors of `Header::xtension`.
pub fn hdu_kind_from_extension_header(header: &Header) -> (r: Result<HduKind, Error>)
    requires
        header.well_formed(),
    ensures
        match extension_kind(header@) {
            Some(k) => r == Ok::<HduKind, Error>(k),
            None => match lookup(header@, "XTENSION"@) {
                None => r matches Err(Error::MissingKeyword(k)) && k@ == "XTENSION"@,
                Some(_) => r matches Err(Error::InvalidKeywordValue { keyword, .. }) && keyword@
                    == "XTENSION"@,
            },
        },
{
    match header.xtension() {
        Ok(XtensionType::Image) => Ok(HduKind::Image),
        Ok(XtensionType::AsciiTable) => Ok(HduKind::AsciiTable),
        Ok(XtensionType::BinaryTable) => {
            let compressed = match header.get_value("ZIMAGE") {
                Some(v) => match v.as_bool() {
                    Some(b) => b,
                    None => false,
                },
                None => false,
            };
            if compressed {
                Ok(HduKind::CompressedImage)
            } else {
                Ok(HduKind::BinaryTable)
            }
        },
        Err(e) => Err(e),
    }
}

} // verus!
