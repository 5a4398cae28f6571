use vstd::prelude::*;

use crate::error::Error;
use crate::text::{range_is, trim, trim_bounds};

verus! {

/// 4.4.1.2 XTENSION keyword values identifying the HDU type.
#[derive(Debug, Clone, Copy, PartialEq, Eq, Structural)]
pub enum XtensionType {
    Image,
    BinaryTable,
    AsciiTable,
}

/// The extension type that the text `s` names, once surrounding whitespace
/// is removed: `IMAGE`, `BINTABLE` or `TABLE`.
pub open spec fn xtension_named(s: Seq<char>) -> Option<XtensionType> {
    let t = trim(s);
    if t == "IMAGE"@ {
        Some(XtensionType::Image)
    } else if t == "BINTABLE"@ {
        Some(XtensionType::BinaryTable)
    } else if t == "TABLE"@ {
        Some(XtensionType::AsciiTable)
    } else {
        None
    }
}

/// The message of an XTENSION value that names no known type.
pub open spec fn xtension_error(s: Seq<char>) -> Seq<char> {
    "unknown XTENSION type: '"@ + trim(s) + "'"@
}

/// The XTENSION value that names each type.
pub open spec fn xtension_text(x: XtensionType) -> Seq<char> {
    match x {
        XtensionType::Image => "IMAGE"@,
        XtensionType::BinaryTable => "BINTABLE"@,
        XtensionType::AsciiTable => "TABLE"@,
    }
}

impl XtensionType {
    /// Parses an XTENSION value; surrounding whitespace is ignored, and any
    /// other name is an `UnsupportedFeature` error.
    pub fn from_str(s: &str) -> (r: Result<XtensionType, Error>)
        ensures
            match xtension_named(s@) {
                Some(x) => r == Ok::<XtensionType, Error>(x),
                None => r matches Err(Error::UnsupportedFeature(m)) && m@ == xtension_error(s@),
            },
    {
        let (lo, hi) = trim_bounds(s);
        proof {
            assert(trim(s@) == s@.subrange(lo as int, hi as int));
        }
        if range_is(s, lo, hi, "IMAGE") {
            Ok(XtensionType::Image)
        } else if range_is(s, lo, hi, "BINTABLE") {
            Ok(XtensionType::BinaryTable)
        } else if range_is(s, lo, hi, "TABLE") {
            Ok(XtensionType::AsciiTable)
        } else {
            let t = s.substring_char(lo, hi);
            Err(
                Error::UnsupportedFeature(
                    String::from_str("unknown XTENSION type: '").concat(t).concat("'"),
                ),
            )
        }
    }

    /// The XTENSION value of this type.
    pub fn as_str(&self) -> (r: &'static str)
        ensures
            r@ == xtension_text(*self),
    {
        match self {
            XtensionType::Image => "IMAGE",
            XtensionType::BinaryTable => "BINTABLE",
            XtensionType::AsciiTable => "TABLE",
        }
    }
}

/// The name of an extension type reads back as that type.
pub proof fn xtension_name_law(x: XtensionType)
    ensures
        xtension_named(xtension_text(x)) == Some(x),
{
    reveal_strlit("IMAGE");
    reveal_strlit("BINTABLE");
    reveal_strlit("TABLE");
    let t = xtension_text(x);
    crate::text::lemma_ws_start(t, 0);
    assert(crate::text::ws_start(t, 0) == 0);
    crate::text::lemma_ws_end(t, 0, t.len() as int);
    assert(crate::text::ws_end(t, 0, t.len() as int) == t.len());
    assert(crate::text::trim(t) =~= t);
}

} // verus!
