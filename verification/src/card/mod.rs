//! Header cards: the 80-byte records of a header and their parsed form (4.1, 4.2).
use vstd::prelude::*;

use crate::error::{decimal, decimal_text, Error};
use crate::extension::{xtension_error, xtension_named, XtensionType};

pub mod encode;
pub mod long_round_trip;
pub mod long_string;
pub mod round_trip;
pub mod scan;

use scan::{
    ascii_chars, ascii_string, find_byte, float_text, is_printable, looks_like_float,
    normalize_exponent, parse_i64, skip_spaces, skip_spaces_at, trim_end, trim_end_at,
    trim_seq_end, trim_vec_end, lemma_trim_seq_end, QUOTE, SPACE,
};

verus! {

/// The parsed value of a keyword record.
#[derive(Debug, PartialEq, Clone)]
pub enum CardValue {
    String(String),
    Logical(bool),
    Integer(i64),
    /// A real floating-point value (4.2.4), kept as the text that `f64`'s
    /// `from_str` reads, with exponent letters `d`/`D` written as `E`.
    Float(String),
    ComplexInteger(i64, i64),
    /// A complex floating-point value (4.2.6), each part kept as `Float` keeps it.
    ComplexFloat(String, String),
    Undefined,
}

/// A parsed header card.
#[derive(Debug, PartialEq, Clone)]
pub enum Card {
    Value { keyword: String, value: CardValue, comment: Option<String> },
    /// Bytes 9–80 of a COMMENT card, or of a blank-keyword card with text.
    Comment(String),
    /// Bytes 9–80 of a HISTORY card.
    History(String),
    Continue { value: String, comment: Option<String> },
    Xtension { x: XtensionType, comment: Option<String> },
    Blank,
    End,
}

/// Mathematical form of a card value.
pub enum ValueModel {
    String(Seq<char>),
    Logical(bool),
    Integer(i64),
    Float(Seq<char>),
    ComplexInteger(i64, i64),
    ComplexFloat(Seq<char>, Seq<char>),
    Undefined,
}

/// Mathematical form of a card.
pub enum CardModel {
    Value { keyword: Seq<char>, value: ValueModel, comment: Option<Seq<char>> },
    Comment(Seq<char>),
    History(Seq<char>),
    Continue { value: Seq<char>, comment: Option<Seq<char>> },
    Xtension { x: XtensionType, comment: Option<Seq<char>> },
    Blank,
    End,
}

/// An optional string as optional characters.
pub open spec fn opt_view(o: Option<String>) -> Option<Seq<char>> {
    match o {
        Some(s) => Some(s@),
        None => None,
    }
}

impl View for CardValue {
    type V = ValueModel;

    open spec fn view(&self) -> ValueModel {
        match self {
            CardValue::String(s) => ValueModel::String(s@),
            CardValue::Logical(b) => ValueModel::Logical(*b),
            CardValue::Integer(i) => ValueModel::Integer(*i),
            CardValue::Float(f) => ValueModel::Float(f@),
            CardValue::ComplexInteger(a, b) => ValueModel::ComplexInteger(*a, *b),
            CardValue::ComplexFloat(a, b) => ValueModel::ComplexFloat(a@, b@),
            CardValue::Undefined => ValueModel::Undefined,
        }
    }
}

impl View for Card {
    type V = CardModel;

    open spec fn view(&self) -> CardModel {
        match self {
            Card::Value { keyword, value, comment } => CardModel::Value {
                keyword: keyword@,
                value: value@,
                comment: opt_view(*comment),
            },
            Card::Comment(s) => CardModel::Comment(s@),
            Card::History(s) => CardModel::History(s@),
            Card::Continue { value, comment } => CardModel::Continue {
                value: value@,
                comment: opt_view(*comment),
            },
            Card::Xtension { x, comment } => CardModel::Xtension { x: *x, comment: opt_view(*comment) },
            Card::Blank => CardModel::Blank,
            Card::End => CardModel::End,
        }
    }
}

/// How parsing a card fails, with the message: malformed text
/// (`InvalidCard`), or a well-formed XTENSION value naming a type this
/// library does not know (`UnsupportedFeature`).
pub enum CardFailure {
    Invalid(Seq<char>),
    Unsupported(Seq<char>),
}

/// Whether `r` is the error that `f` stands for.
pub open spec fn failure_matches<T>(r: Result<T, Error>, f: CardFailure) -> bool {
    match f {
        CardFailure::Invalid(msg) => r matches Err(Error::InvalidCard(m)) && m@ == msg,
        CardFailure::Unsupported(msg) => r matches Err(Error::UnsupportedFeature(m)) && m@ == msg,
    }
}

/// The decimal values of the bytes `s`, separated by `, `.
pub open spec fn byte_items(s: Seq<u8>) -> Seq<char>
    decreases s.len(),
{
    if s.len() == 0 {
        Seq::empty()
    } else if s.len() == 1 {
        decimal(s[0] as nat)
    } else {
        byte_items(s.drop_last()) + ", "@ + decimal(s.last() as nat)
    }
}

/// The message of a card image that is not printable ASCII: its bytes as a
/// bracketed list.
pub open spec fn nonprintable_error(s: Seq<u8>) -> Seq<char> {
    "Card contains non-printable ASCII characters: ["@ + byte_items(s) + "]"@
}

/// The 80 bytes of a card image, all printable ASCII (3.3.1).
pub struct RawCard([u8; 80]);

impl View for RawCard {
    type V = Seq<u8>;

    closed spec fn view(&self) -> Seq<u8> {
        self.0@
    }
}

/// Whether every byte of `s` is printable ASCII.
pub open spec fn all_printable(s: Seq<u8>) -> bool {
    forall|k: int| 0 <= k < s.len() ==> is_printable(#[trigger] s[k])
}

/// Whether `b` may stand in a keyword: `A`–`Z`, `0`–`9`, `_` or `-` (4.1.2.1).
pub open spec fn is_keyword_byte(b: u8) -> bool {
    (0x41 <= b <= 0x5A) || (0x30 <= b <= 0x39) || b == 0x5F || b == 0x2D
}

/// The raw string of a quoted value starting at or after `i`: the position
/// after the closing quote and the text between the quotes, with doubled
/// quotes read as one quote (4.2.1.1). `None` when no closing quote follows.
pub open spec fn scan_string(s: Seq<u8>, k: int, hi: int, acc: Seq<u8>) -> Option<(int, Seq<u8>)>
    decreases hi - k,
{
    if k >= hi {
        None
    } else if s[k] == QUOTE {
        if k + 1 < hi && s[k + 1] == QUOTE {
            scan_string(s, k + 2, hi, acc.push(QUOTE))
        } else {
            Some((k + 1, acc))
        }
    } else {
        scan_string(s, k + 1, hi, acc.push(s[k]))
    }
}

/// A quoted string value at or after `i` (after leading spaces): the position
/// after its closing quote and its text without trailing spaces.
pub open spec fn string_at(s: Seq<u8>, i: int, hi: int) -> Option<(int, Seq<u8>)> {
    let j = skip_spaces(s, i, hi);
    if !(j < hi && s[j] == QUOTE) {
        None
    } else {
        match scan_string(s, j + 1, hi, Seq::empty()) {
            None => None,
            Some((r, text)) => Some((r, trim_seq_end(text))),
        }
    }
}

/// The comment that starts at or after `i`: the text after a `/`, without
/// trailing spaces, where a `/` is the first non-space byte.
pub open spec fn comment_at(s: Seq<u8>, i: int, hi: int) -> Option<Seq<u8>> {
    let j = skip_spaces(s, i, hi);
    if j < hi && s[j] == 0x2F {
        Some(s.subrange(j + 1, trim_end(s, j + 1, hi)))
    } else {
        None
    }
}

/// A comment as characters.
pub open spec fn comment_chars(c: Option<Seq<u8>>) -> Option<Seq<char>> {
    match c {
        Some(b) => Some(ascii_chars(b)),
        None => None,
    }
}

/// An integer or real value (4.2.3, 4.2.4).
pub open spec fn number_value(v: Seq<u8>) -> Option<ValueModel> {
    if looks_like_float(v) {
        if float_text(normalize_exponent(v)) {
            Some(ValueModel::Float(ascii_chars(normalize_exponent(v))))
        } else {
            None
        }
    } else {
        match parse_i64(v) {
            Some(n) => Some(ValueModel::Integer(n)),
            None => None,
        }
    }
}

/// A complex value `(a, b)` in `s[lo..hi]`, `s[lo]` being the opening
/// parenthesis; text after the closing parenthesis is ignored (4.2.5, 4.2.6).
pub open spec fn complex_value(s: Seq<u8>, lo: int, hi: int) -> Option<ValueModel> {
    let close = find_byte(s, lo, hi, 0x29);
    let comma = find_byte(s, lo + 1, close, 0x2C);
    let a_lo = skip_spaces(s, lo + 1, comma);
    let a = s.subrange(a_lo, trim_end(s, a_lo, comma));
    let b_lo = skip_spaces(s, comma + 1, close);
    let b = s.subrange(b_lo, trim_end(s, b_lo, close));
    if close >= hi || comma >= close {
        None
    } else if looks_like_float(a) || looks_like_float(b) {
        if float_text(normalize_exponent(a)) && float_text(normalize_exponent(b)) {
            Some(
                ValueModel::ComplexFloat(
                    ascii_chars(normalize_exponent(a)),
                    ascii_chars(normalize_exponent(b)),
                ),
            )
        } else {
            None
        }
    } else {
        match (parse_i64(a), parse_i64(b)) {
            (Some(x), Some(y)) => Some(ValueModel::ComplexInteger(x, y)),
            _ => None,
        }
    }
}

/// The value and comment of the value/comment field `s[lo..hi]` (4.2).
pub open spec fn value_field(s: Seq<u8>, lo: int, hi: int) -> Option<(ValueModel, Option<Seq<char>>)> {
    let j = skip_spaces(s, lo, hi);
    if j < hi && s[j] == QUOTE {
        match string_at(s, j, hi) {
            None => None,
            Some((r, text)) => Some(
                (ValueModel::String(ascii_chars(text)), comment_chars(comment_at(s, r, hi))),
            ),
        }
    } else {
        let slash = find_byte(s, j, hi, 0x2F);
        let comment = if slash < hi {
            comment_chars(comment_at(s, slash, hi))
        } else {
            None
        };
        let end = trim_end(s, j, slash);
        let value = if j == end {
            Some(ValueModel::Undefined)
        } else if s[j] == 0x28 {
            complex_value(s, j, end)
        } else if s[j] == 0x54 {
            Some(ValueModel::Logical(true))
        } else if s[j] == 0x46 {
            Some(ValueModel::Logical(false))
        } else {
            number_value(s.subrange(j, end))
        };
        match value {
            None => None,
            Some(v) => Some((v, comment)),
        }
    }
}

/// The message of a quoted string that cannot be read at or after `i`.
pub open spec fn string_error(s: Seq<u8>, i: int, hi: int) -> Seq<char> {
    let j = skip_spaces(s, i, hi);
    if !(j < hi && s[j] == QUOTE) {
        "expected opening quote"@
    } else {
        "unclosed string"@
    }
}

/// The message of a real value `v` that is no float.
pub open spec fn float_error(v: Seq<u8>) -> Seq<char> {
    "invalid float: "@ + ascii_chars(v)
}

/// The message of a number `v` that cannot be read.
pub open spec fn number_error(v: Seq<u8>) -> Seq<char> {
    if looks_like_float(v) {
        float_error(v)
    } else {
        "invalid integer: "@ + ascii_chars(v)
    }
}

/// The message of a complex value in `s[lo..hi]` that cannot be read.
pub open spec fn complex_error(s: Seq<u8>, lo: int, hi: int) -> Seq<char> {
    let close = find_byte(s, lo, hi, 0x29);
    let comma = find_byte(s, lo + 1, close, 0x2C);
    let a_lo = skip_spaces(s, lo + 1, comma);
    let a = s.subrange(a_lo, trim_end(s, a_lo, comma));
    let b_lo = skip_spaces(s, comma + 1, close);
    let b = s.subrange(b_lo, trim_end(s, b_lo, close));
    if close >= hi {
        "unclosed complex"@
    } else if comma >= close {
        "complex missing comma"@
    } else if looks_like_float(a) || looks_like_float(b) {
        if !float_text(normalize_exponent(a)) {
            float_error(a)
        } else {
            float_error(b)
        }
    } else if parse_i64(a) is None {
        "invalid complex component: "@ + ascii_chars(a)
    } else {
        "invalid complex component: "@ + ascii_chars(b)
    }
}

/// The message of a value/comment field `s[lo..hi]` that cannot be read.
pub open spec fn value_error(s: Seq<u8>, lo: int, hi: int) -> Seq<char> {
    let j = skip_spaces(s, lo, hi);
    if j < hi && s[j] == QUOTE {
        string_error(s, j, hi)
    } else {
        let slash = find_byte(s, j, hi, 0x2F);
        let end = trim_end(s, j, slash);
        if s[j] == 0x28 {
            complex_error(s, j, end)
        } else {
            number_error(s.subrange(j, end))
        }
    }
}

/// Bytes 9 and 10 of `s` are the value indicator `= ` (4.1.2.2).
pub open spec fn has_value_indicator(s: Seq<u8>) -> bool {
    s[8] == 0x3D && s[9] == SPACE
}

/// The card that the 80 bytes `s` encode (4.1.2, 4.2, 4.4.2.4).
pub open spec fn parse_card(s: Seq<u8>) -> Result<CardModel, CardFailure> {
    let kw_len = trim_end(s, 0, 8);
    let kw = ascii_chars(s.subrange(0, kw_len));
    let text = ascii_chars(s.subrange(8, trim_end(s, 8, 80)));
    if exists|k: int| 0 <= k < kw_len && !is_keyword_byte(#[trigger] s[k]) {
        Err(CardFailure::Invalid("invalid keyword characters: '"@ + kw + "'"@))
    } else if kw_len == 0 {
        if skip_spaces(s, 8, 80) == 80 {
            Ok(CardModel::Blank)
        } else {
            Ok(CardModel::Comment(text))
        }
    } else if kw == "END"@ {
        Ok(CardModel::End)
    } else if kw == "COMMENT"@ {
        Ok(CardModel::Comment(text))
    } else if kw == "HISTORY"@ {
        Ok(CardModel::History(text))
    } else if kw == "CONTINUE"@ {
        match string_at(s, 8, 80) {
            None => Err(CardFailure::Invalid(string_error(s, 8, 80))),
            Some((r, v)) => Ok(
                CardModel::Continue {
                    value: ascii_chars(v),
                    comment: comment_chars(comment_at(s, r, 80)),
                },
            ),
        }
    } else if kw == "XTENSION"@ {
        if !has_value_indicator(s) {
            Err(CardFailure::Invalid("XTENSION card is missing value indicator '= '"@))
        } else {
            match string_at(s, 10, 80) {
                None => Err(CardFailure::Invalid(string_error(s, 10, 80))),
                Some((r, v)) => match xtension_named(ascii_chars(v)) {
                    None => Err(CardFailure::Unsupported(xtension_error(ascii_chars(v)))),
                    Some(x) => Ok(
                        CardModel::Xtension { x, comment: comment_chars(comment_at(s, r, 80)) },
                    ),
                },
            }
        }
    } else if !has_value_indicator(s) {
        Err(CardFailure::Invalid("unrecognized keyword '"@ + kw + "' without value indicator"@))
    } else {
        match value_field(s, 10, 80) {
            None => Err(CardFailure::Invalid(value_error(s, 10, 80))),
            Some((value, comment)) => Ok(
                CardModel::Value { keyword: kw, value, comment },
            ),
        }
    }
}

/// The decimal values of the bytes `b`, separated by `, `.
fn byte_items_text(b: &[u8]) -> (r: String)
    ensures
        r@ == byte_items(b@),
{
    let mut out = String::from_str("");
    proof {
        reveal_strlit("");
        assert(b@.take(0) =~= Seq::<u8>::empty());
    }
    let mut k: usize = 0;
    while k < b.len()
        invariant
            k <= b@.len(),
            out@ == byte_items(b@.take(k as int)),
        decreases b@.len() - k,
    {
        let ghost before = out@;
        if k > 0 {
            out = out.concat(", ");
        }
        let d = decimal_text(b[k] as u64);
        out = out.concat(d.as_str());
        proof {
            let t = b@.take(k + 1);
            assert(t.drop_last() =~= b@.take(k as int));
            assert(t.last() == b@[k as int]);
            if k == 0 {
                assert(before =~= Seq::<char>::empty());
                assert(out@ =~= decimal(b@[0] as nat));
            }
        }
        k = k + 1;
    }
    assert(b@.take(b@.len() as int) =~= b@);
    out
}

/// Whether `b` is printable ASCII (3.3.1).
fn is_fits_printable(b: u8) -> (r: bool)
    ensures
        r == is_printable(b),
{
    0x20 <= b && b <= 0x7E
}

impl RawCard {
    #[verifier::type_invariant]
    closed spec fn printable(self) -> bool {
        all_printable(self.0@)
    }

    /// Validates that all 80 bytes are printable ASCII; otherwise an
    /// `InvalidCard` error.
    pub fn try_from(bytes: &[u8; 80]) -> (r: Result<RawCard, Error>)
        ensures
            all_printable(bytes@) <==> r is Ok,
            r matches Ok(c) ==> c@ == bytes@,
            !all_printable(bytes@) ==> (r matches Err(Error::InvalidCard(m)) && m@
                == nonprintable_error(bytes@)),
    {
        let mut k: usize = 0;
        while k < 80
            invariant
                k <= 80,
                bytes@.len() == 80,
                forall|j: int| 0 <= j < k ==> is_printable(#[trigger] bytes@[j]),
            decreases 80 - k,
        {
            if !is_fits_printable(bytes[k]) {
                let list = byte_items_text(bytes.as_slice());
                return Err(
                    Error::InvalidCard(
                        String::from_str("Card contains non-printable ASCII characters: [").concat(
                            list.as_str(),
                        ).concat("]"),
                    ),
                );
            }
            k = k + 1;
        }
        Ok(RawCard(*bytes))
    }

    fn bytes(&self) -> (r: &[u8])
        ensures
            r@ == self@,
            r@.len() == 80,
            all_printable(r@),
    {
        proof {
            use_type_invariant(self);
        }
        self.0.as_slice()
    }

    /// 4.1.2.1. Keyword name (bytes 1 through 8), without trailing spaces.
    pub fn keyword(&self) -> (r: String)
        ensures
            r@ == ascii_chars(self@.subrange(0, trim_end(self@, 0, 8))),
    {
        let b = self.bytes();
        let end = trim_end_at(b, 0, 8);
        ascii_string(scan::copy_range(b, 0, end).as_slice())
    }

    /// 4.1.2.2. Value indicator (bytes 9 and 10).
    pub fn value_indicator(&self) -> (r: String)
        ensures
            r@ == ascii_chars(self@.subrange(8, 10)),
    {
        let b = self.bytes();
        ascii_string(scan::copy_range(b, 8, 10).as_slice())
    }

    /// 4.1.2.3. Value/comment (bytes 11 through 80).
    pub fn value_comment(&self) -> (r: String)
        ensures
            r@ == ascii_chars(self@.subrange(10, 80)),
    {
        let b = self.bytes();
        ascii_string(scan::copy_range(b, 10, 80).as_slice())
    }

    /// 4.4.2.4 Bytes 9 through 80, for keywords without a value indicator
    /// (COMMENT, HISTORY, CONTINUE, blank keyword).
    pub fn after_keyword(&self) -> (r: String)
        ensures
            r@ == ascii_chars(self@.subrange(8, 80)),
    {
        let b = self.bytes();
        ascii_string(scan::copy_range(b, 8, 80).as_slice())
    }
}

fn invalid_card(msg: &str) -> (e: Error)
    ensures
        e matches Error::InvalidCard(m) && m@ == msg@,
{
    Error::InvalidCard(String::from_str(msg))
}

/// Reads a quoted string value at or after `i`.
fn parse_string_at(s: &[u8], i: usize, hi: usize) -> (r: Result<(usize, Vec<u8>), Error>)
    requires
        i <= hi <= s@.len(),
        all_printable(s@),
    ensures
        match string_at(s@, i as int, hi as int) {
            None => r matches Err(Error::InvalidCard(m)) && m@ == string_error(
                s@,
                i as int,
                hi as int,
            ),
            Some((p, text)) => r matches Ok((q, v)) && q == p && v@ == text,
        },
        r matches Ok((q, v)) ==> q <= hi && all_printable(v@),
{
    let j = skip_spaces_at(s, i, hi);
    if !(j < hi && s[j] == QUOTE) {
        return Err(invalid_card("expected opening quote"));
    }
    let mut out: Vec<u8> = Vec::new();
    let mut k = j + 1;
    loop
        invariant
            i <= j < hi <= s@.len(),
            j + 1 <= k,
            k <= hi + 1,
            all_printable(s@),
            s@[j as int] == QUOTE,
            j == skip_spaces(s@, i as int, hi as int),
            scan_string(s@, j + 1, hi as int, Seq::empty()) == scan_string(
                s@,
                k as int,
                hi as int,
                out@,
            ),
            all_printable(out@),
        decreases hi + 1 - k,
    {
        if k >= hi {
            return Err(invalid_card("unclosed string"));
        }
        if s[k] == QUOTE {
            if k + 1 < hi && s[k + 1] == QUOTE {
                out.push(QUOTE);
                k = k + 2;
            } else {
                let ghost raw = out@;
                trim_vec_end(&mut out);
                proof {
                    lemma_trim_seq_end(raw);
                    assert forall|m: int| 0 <= m < out@.len() implies is_printable(#[trigger] out@[m]) by {
                        assert(out@[m] == raw[m]);
                    }
                }
                return Ok((k + 1, out));
            }
        } else {
            out.push(s[k]);
            k = k + 1;
        }
    }
}

/// The comment at or after `i`, as text.
fn comment_at_exec(s: &[u8], i: usize, hi: usize) -> (r: Option<String>)
    requires
        i <= hi <= s@.len(),
        all_printable(s@),
    ensures
        opt_view(r) == comment_chars(comment_at(s@, i as int, hi as int)),
{
    let j = skip_spaces_at(s, i, hi);
    if j < hi && s[j] == 0x2F {
        let e = trim_end_at(s, j + 1, hi);
        let v = scan::copy_range(s, j + 1, e);
        proof {
            assert forall|k: int| 0 <= k < v@.len() implies v@[k] < 0x80 by {
                assert(v@[k] == s@[j + 1 + k]);
                assert(is_printable(s@[j + 1 + k]));
            }
        }
        Some(ascii_string(v.as_slice()))
    } else {
        None
    }
}

/// Whether the bytes are printable ASCII, hence characters below 0x80.
proof fn lemma_printable_ascii(v: Seq<u8>)
    requires
        all_printable(v),
    ensures
        forall|k: int| 0 <= k < v.len() ==> v[k] < 0x80,
{
    assert forall|k: int| 0 <= k < v.len() implies v[k] < 0x80 by {
        assert(is_printable(v[k]));
    }
}

/// A real value's text, or an `InvalidCard` error where it is no float.
fn float_value_text(v: &[u8]) -> (r: Result<String, Error>)
    requires
        all_printable(v@),
    ensures
        float_text(normalize_exponent(v@)) ==> (r matches Ok(t) && t@ == ascii_chars(
            normalize_exponent(v@),
        )),
        !float_text(normalize_exponent(v@)) ==> (r matches Err(Error::InvalidCard(m)) && m@
            == float_error(v@)),
{
    let n = scan::normalize_exponent_vec(v);
    if scan::is_float_text(n.as_slice()) {
        proof {
            assert forall|k: int| 0 <= k < n@.len() implies n@[k] < 0x80 by {
                assert(is_printable(v@[k]));
            }
        }
        Ok(ascii_string(n.as_slice()))
    } else {
        proof {
            lemma_printable_ascii(v@);
        }
        let t = ascii_string(v);
        Err(Error::InvalidCard(String::from_str("invalid float: ").concat(t.as_str())))
    }
}

/// 4.2.3 integer, 4.2.4 real floating-point.
fn parse_number(v: &[u8]) -> (r: Result<CardValue, Error>)
    requires
        all_printable(v@),
    ensures
        match number_value(v@) {
            Some(m) => r matches Ok(c) && c@ == m,
            None => r matches Err(Error::InvalidCard(m)) && m@ == number_error(v@),
        },
{
    if scan::has_float_marker(v) {
        match float_value_text(v) {
            Ok(t) => Ok(CardValue::Float(t)),
            Err(e) => Err(e),
        }
    } else {
        match scan::parse_i64_text(v) {
            Some(n) => Ok(CardValue::Integer(n)),
            None => {
                proof {
                    lemma_printable_ascii(v@);
                }
                let t = ascii_string(v);
                Err(Error::InvalidCard(String::from_str("invalid integer: ").concat(t.as_str())))
            },
        }
    }
}

/// 4.2.5 complex integer, 4.2.6 complex floating-point, in `s[lo..hi]`.
fn parse_complex(s: &[u8], lo: usize, hi: usize) -> (r: Result<CardValue, Error>)
    requires
        lo < hi <= s@.len(),
        all_printable(s@),
        s@[lo as int] == 0x28,
    ensures
        match complex_value(s@, lo as int, hi as int) {
            Some(m) => r matches Ok(c) && c@ == m,
            None => r matches Err(Error::InvalidCard(m)) && m@ == complex_error(
                s@,
                lo as int,
                hi as int,
            ),
        },
{
    let close = scan::find_byte_at(s, lo, hi, 0x29);
    if close >= hi {
        return Err(invalid_card("unclosed complex"));
    }
    proof {
        scan::lemma_find_byte(s@, lo as int, hi as int, 0x29);
    }
    let comma = scan::find_byte_at(s, lo + 1, close, 0x2C);
    if comma >= close {
        return Err(invalid_card("complex missing comma"));
    }
    let a_lo = skip_spaces_at(s, lo + 1, comma);
    let a_hi = trim_end_at(s, a_lo, comma);
    let b_lo = skip_spaces_at(s, comma + 1, close);
    let b_hi = trim_end_at(s, b_lo, close);
    let a = scan::copy_range(s, a_lo, a_hi);
    let b = scan::copy_range(s, b_lo, b_hi);
    proof {
        assert forall|k: int| 0 <= k < a@.len() implies is_printable(#[trigger] a@[k]) by {
            assert(a@[k] == s@[a_lo + k]);
        }
        assert forall|k: int| 0 <= k < b@.len() implies is_printable(#[trigger] b@[k]) by {
            assert(b@[k] == s@[b_lo + k]);
        }
    }
    if scan::has_float_marker(a.as_slice()) || scan::has_float_marker(b.as_slice()) {
        let x = match float_value_text(a.as_slice()) {
            Ok(t) => t,
            Err(e) => return Err(e),
        };
        let y = match float_value_text(b.as_slice()) {
            Ok(t) => t,
            Err(e) => return Err(e),
        };
        Ok(CardValue::ComplexFloat(x, y))
    } else {
        let x = match scan::parse_i64_text(a.as_slice()) {
            Some(n) => n,
            None => {
                proof {
                    lemma_printable_ascii(a@);
                }
                let t = ascii_string(a.as_slice());
                return Err(
                    Error::InvalidCard(
                        String::from_str("invalid complex component: ").concat(t.as_str()),
                    ),
                );
            },
        };
        let y = match scan::parse_i64_text(b.as_slice()) {
            Some(n) => n,
            None => {
                proof {
                    lemma_printable_ascii(b@);
                }
                let t = ascii_string(b.as_slice());
                return Err(
                    Error::InvalidCard(
                        String::from_str("invalid complex component: ").concat(t.as_str()),
                    ),
                );
            },
        };
        Ok(CardValue::ComplexInteger(x, y))
    }
}

/// The value and comment of the value/comment field `s[lo..hi]` (4.2).
fn parse_value(s: &[u8], lo: usize, hi: usize) -> (r: Result<(CardValue, Option<String>), Error>)
    requires
        lo <= hi <= s@.len(),
        all_printable(s@),
    ensures
        match value_field(s@, lo as int, hi as int) {
            Some((m, c)) => r matches Ok((v, cm)) && v@ == m && opt_view(cm) == c,
            None => r matches Err(Error::InvalidCard(m)) && m@ == value_error(
                s@,
                lo as int,
                hi as int,
            ),
        },
{
    let j = skip_spaces_at(s, lo, hi);
    if j < hi && s[j] == QUOTE {
        let (rest, text) = match parse_string_at(s, j, hi) {
            Ok(x) => x,
            Err(e) => return Err(e),
        };
        proof {
            assert(skip_spaces(s@, j as int, hi as int) == j);
            lemma_printable_ascii(text@);
        }
        let comment = comment_at_exec(s, rest, hi);
        return Ok((CardValue::String(ascii_string(text.as_slice())), comment));
    }
    let slash = scan::find_byte_at(s, j, hi, 0x2F);
    let comment = if slash < hi {
        comment_at_exec(s, slash, hi)
    } else {
        None
    };
    let end = trim_end_at(s, j, slash);
    let value = if j == end {
        CardValue::Undefined
    } else if s[j] == 0x28 {
        match parse_complex(s, j, end) {
            Ok(v) => v,
            Err(e) => return Err(e),
        }
    } else if s[j] == 0x54 {
        CardValue::Logical(true)
    } else if s[j] == 0x46 {
        CardValue::Logical(false)
    } else {
        let v = scan::copy_range(s, j, end);
        proof {
            assert forall|k: int| 0 <= k < v@.len() implies is_printable(#[trigger] v@[k]) by {
                assert(v@[k] == s@[j + k]);
            }
        }
        match parse_number(v.as_slice()) {
            Ok(v) => v,
            Err(e) => return Err(e),
        }
    };
    Ok((value, comment))
}


/// The keyword a card is filed under: the keyword of a keyword record, the
/// commentary or reserved keyword otherwise, and the empty keyword for a blank card.
pub open spec fn card_keyword(c: CardModel) -> Seq<char> {
    match c {
        CardModel::Value { keyword, .. } => keyword,
        CardModel::Comment(_) => "COMMENT"@,
        CardModel::History(_) => "HISTORY"@,
        CardModel::Continue { .. } => "CONTINUE"@,
        CardModel::Xtension { .. } => "XTENSION"@,
        CardModel::Blank => Seq::empty(),
        CardModel::End => "END"@,
    }
}

/// Whether the first `n` bytes of `s` may all stand in a keyword.
fn keyword_bytes_valid(s: &[u8], n: usize) -> (r: bool)
    requires
        n <= s@.len(),
    ensures
        r == !(exists|k: int| 0 <= k < n && !is_keyword_byte(#[trigger] s@[k])),
{
    let mut k: usize = 0;
    while k < n
        invariant
            k <= n <= s@.len(),
            forall|j: int| 0 <= j < k ==> is_keyword_byte(#[trigger] s@[j]),
        decreases n - k,
    {
        let b = s[k];
        if !((0x41 <= b && b <= 0x5A) || (0x30 <= b && b <= 0x39) || b == 0x5F || b == 0x2D) {
            assert(!is_keyword_byte(s@[k as int]));
            return false;
        }
        k = k + 1;
    }
    true
}

/// The text `s[lo..trim_end(lo, hi)]` as a string.
fn text_until_trailing_spaces(s: &[u8], lo: usize, hi: usize) -> (r: String)
    requires
        lo <= hi <= s@.len(),
        all_printable(s@),
    ensures
        r@ == ascii_chars(s@.subrange(lo as int, trim_end(s@, lo as int, hi as int))),
{
    let e = trim_end_at(s, lo, hi);
    let v = scan::copy_range(s, lo, e);
    proof {
        assert forall|k: int| 0 <= k < v@.len() implies v@[k] < 0x80 by {
            assert(v@[k] == s@[lo + k]);
            assert(is_printable(s@[lo + k]));
        }
    }
    ascii_string(v.as_slice())
}

impl Card {
    /// Parses a card image (4.1.2, 4.2): the keyword must hold only `A`–`Z`,
    /// `0`–`9`, `_` and `-`; COMMENT, HISTORY, CONTINUE, XTENSION, END and the
    /// blank keyword have their own forms, and any other keyword needs the
    /// value indicator `= ` and a well-formed value.
    pub fn try_from(raw: RawCard) -> (r: Result<Card, Error>)
        ensures
            match parse_card(raw@) {
                Ok(m) => r matches Ok(c) && c@ == m,
                Err(f) => failure_matches(r, f),
            },
    {
        let b = raw.bytes();
        let kw_len = trim_end_at(b, 0, 8);
        let kw = raw.keyword();
        if !keyword_bytes_valid(b, kw_len) {
            return Err(
                Error::InvalidCard(
                    String::from_str("invalid keyword characters: '").concat(kw.as_str()).concat(
                        "'",
                    ),
                ),
            );
        }
        let kws = kw.as_str();
        if kw_len == 0 {
            if skip_spaces_at(b, 8, 80) == 80 {
                return Ok(Card::Blank);
            }
            return Ok(Card::Comment(text_until_trailing_spaces(b, 8, 80)));
        }
        if crate::text::str_eq(kws, "END") {
            return Ok(Card::End);
        }
        if crate::text::str_eq(kws, "COMMENT") {
            return Ok(Card::Comment(text_until_trailing_spaces(b, 8, 80)));
        }
        if crate::text::str_eq(kws, "HISTORY") {
            return Ok(Card::History(text_until_trailing_spaces(b, 8, 80)));
        }
        if crate::text::str_eq(kws, "CONTINUE") {
            let (rest, text) = match parse_string_at(b, 8, 80) {
                Ok(x) => x,
                Err(e) => return Err(e),
            };
            proof {
                lemma_printable_ascii(text@);
            }
            let comment = comment_at_exec(b, rest, 80);
            return Ok(Card::Continue { value: ascii_string(text.as_slice()), comment });
        }
        let has_indicator = b[8] == 0x3D && b[9] == SPACE;
        if crate::text::str_eq(kws, "XTENSION") {
            if !has_indicator {
                return Err(invalid_card("XTENSION card is missing value indicator '= '"));
            }
            let (rest, text) = match parse_string_at(b, 10, 80) {
                Ok(x) => x,
                Err(e) => return Err(e),
            };
            proof {
                lemma_printable_ascii(text@);
            }
            let name = ascii_string(text.as_slice());
            let x = match XtensionType::from_str(name.as_str()) {
                Ok(x) => x,
                Err(e) => return Err(e),
            };
            let comment = comment_at_exec(b, rest, 80);
            return Ok(Card::Xtension { x, comment });
        }
        if !has_indicator {
            return Err(
                Error::InvalidCard(
                    String::from_str("unrecognized keyword '").concat(kw.as_str()).concat(
                        "' without value indicator",
                    ),
                ),
            );
        }
        let (value, comment) = match parse_value(b, 10, 80) {
            Ok(x) => x,
            Err(e) => return Err(e),
        };
        Ok(Card::Value { keyword: kw, value, comment })
    }

    /// The keyword this card is filed under (see `card_keyword`).
    pub fn keyword(&self) -> (r: &str)
        ensures
            r@ == card_keyword(self@),
    {
        match self {
            Card::Value { keyword, .. } => keyword.as_str(),
            Card::Comment(_) => "COMMENT",
            Card::History(_) => "HISTORY",
            Card::Continue { .. } => "CONTINUE",
            Card::Xtension { .. } => "XTENSION",
            Card::Blank => {
                proof {
                    reveal_strlit("");
                }
                ""
            },
            Card::End => "END",
        }
    }

    /// The value of a keyword record; `None` for every other card.
    pub fn value(&self) -> (r: Option<&CardValue>)
        ensures
            match self {
                Card::Value { value, .. } => r == Some(value),
                _ => r is None,
            },
    {
        match self {
            Card::Value { value, .. } => Some(value),
            _ => None,
        }
    }
}

impl CardValue {
    /// The text of a string value.
    pub fn as_str(&self) -> (r: Option<&str>)
        ensures
            match self {
                CardValue::String(s) => r matches Some(t) && t@ == s@,
                _ => r is None,
            },
    {
        match self {
            CardValue::String(s) => Some(s.as_str()),
            _ => None,
        }
    }

    /// The number of an integer value.
    pub fn as_integer(&self) -> (r: Option<i64>)
        ensures
            match self {
                CardValue::Integer(n) => r == Some(*n),
                _ => r is None,
            },
    {
        match self {
            CardValue::Integer(n) => Some(*n),
            _ => None,
        }
    }

    /// The truth value of a logical value.
    pub fn as_bool(&self) -> (r: Option<bool>)
        ensures
            match self {
                CardValue::Logical(b) => r == Some(*b),
                _ => r is None,
            },
    {
        match self {
            CardValue::Logical(b) => Some(*b),
            _ => None,
        }
    }
}

} // verus!
