//! Writing cards as 80-byte card images.
use vstd::prelude::*;
use vstd::utf8::encode_utf8;

use super::scan::{float_text, special_float, QUOTE, SPACE};
use super::{Card, CardModel, CardValue, ValueModel};
use crate::error::Error;
use crate::extension::{xtension_text, XtensionType};

verus! {

/// `n` spaces.
pub open spec fn spaces(n: nat) -> Seq<u8> {
    Seq::new(n, |i: int| SPACE)
}

/// The first `n` bytes of `b`, or all of `b` when it is shorter.
pub open spec fn fit(b: Seq<u8>, n: nat) -> Seq<u8> {
    if b.len() <= n {
        b
    } else {
        b.subrange(0, n as int)
    }
}

/// `b` cut or filled with spaces to exactly `n` bytes.
pub open spec fn pad(b: Seq<u8>, n: nat) -> Seq<u8> {
    fit(b, n) + spaces((n - fit(b, n).len()) as nat)
}

/// `b` with every single quote doubled (4.2.1.1).
pub open spec fn escape_quotes(b: Seq<u8>) -> Seq<u8>
    decreases b.len(),
{
    if b.len() == 0 {
        Seq::empty()
    } else if b.last() == QUOTE {
        escape_quotes(b.drop_last()) + seq![QUOTE, QUOTE]
    } else {
        escape_quotes(b.drop_last()).push(b.last())
    }
}

/// The number of single quotes among the characters `s`.
pub open spec fn char_quotes(s: Seq<char>) -> nat
    decreases s.len(),
{
    if s.len() == 0 {
        0
    } else {
        char_quotes(s.drop_last()) + if s.last() == '\'' {
            1nat
        } else {
            0nat
        }
    }
}

/// The characters `s` with each single quote doubled.
pub open spec fn escape_chars(s: Seq<char>) -> Seq<char>
    decreases s.len(),
{
    if s.len() == 0 {
        Seq::empty()
    } else if s.last() == '\'' {
        escape_chars(s.drop_last()) + seq!['\'', '\'']
    } else {
        escape_chars(s.drop_last()).push(s.last())
    }
}

/// A string value as `quoted_value` writes it, as characters.
pub open spec fn quoted_chars(s: Seq<char>) -> Seq<char> {
    let width = s.len() + char_quotes(s);
    let fill: nat = if width < 8 {
        (8 - width) as nat
    } else {
        0
    };
    seq!['\''] + escape_chars(s) + Seq::new(fill, |i: int| ' ') + seq!['\'']
}

/// The text of a value that can be too long for a keyword record, as
/// characters: a string, a real or a complex real. (Other values are never
/// too long.)
pub open spec fn long_value_chars(v: ValueModel) -> Seq<char> {
    match v {
        ValueModel::String(s) => quoted_chars(s),
        ValueModel::Float(t) => t,
        ValueModel::ComplexFloat(a, b) => "("@ + a + ", "@ + b + ")"@,
        _ => Seq::empty(),
    }
}

/// The message of a real value that cannot be written: the first one of a
/// complex pair that cannot.
pub open spec fn float_value_error(v: ValueModel) -> Seq<char> {
    match v {
        ValueModel::Float(t) => "non-finite float value: "@ + t,
        ValueModel::ComplexFloat(a, b) => if !writable_float(a) {
            "non-finite float value: "@ + a
        } else {
            "non-finite float value: "@ + b
        },
        _ => Seq::empty(),
    }
}

/// The message of a card that cannot be encoded (`encoded` is `None`).
pub open spec fn encode_error(c: CardModel) -> Seq<char> {
    match c {
        CardModel::Value { value, .. } => match value_text(value) {
            None => float_value_error(value),
            Some(_) => "encoded value too long for card: "@ + long_value_chars(value),
        },
        _ => "encoded value too long for card"@,
    }
}

/// A string value as it is written in a keyword record: quoted, with its
/// quotes doubled, and filled with spaces to at least eight characters
/// between the quotes.
pub open spec fn quoted_value(s: Seq<char>) -> Seq<u8> {
    let width = s.len() + char_quotes(s);
    let fill: nat = if width < 8 {
        (8 - width) as nat
    } else {
        0
    };
    seq![QUOTE] + escape_quotes(encode_utf8(s)) + spaces(fill) + seq![QUOTE]
}

/// A string value as it is written in a CONTINUE record: quoted, with its
/// quotes doubled, and not filled.
pub open spec fn quoted_continue(s: Seq<char>) -> Seq<u8> {
    seq![QUOTE] + escape_quotes(encode_utf8(s)) + seq![QUOTE]
}

/// The decimal digits of `n`.
pub open spec fn nat_text(n: nat) -> Seq<u8>
    decreases n,
{
    if n < 10 {
        seq![(0x30 + n) as u8]
    } else {
        nat_text(n / 10).push((0x30 + n % 10) as u8)
    }
}

/// The decimal text of `n`, with a leading `-` when it is negative.
pub open spec fn int_text(n: int) -> Seq<u8> {
    if n < 0 {
        seq![0x2Du8] + nat_text((-n) as nat)
    } else {
        nat_text(n as nat)
    }
}

/// `t` right-aligned in a field of `w` characters.
pub open spec fn right_align(t: Seq<u8>, w: nat) -> Seq<u8> {
    spaces(
        if t.len() < w {
            (w - t.len()) as nat
        } else {
            0
        },
    ) + t
}

/// Whether the text of a real value can be written: a number that `f64`'s
/// `from_str` accepts, and not one of the non-finite spellings.
pub open spec fn writable_float(t: Seq<char>) -> bool {
    float_text(encode_utf8(t)) && !special_float(encode_utf8(t))
}

/// `(a, b)`, the form of a complex value (4.2.5, 4.2.6).
pub open spec fn pair_text(a: Seq<u8>, b: Seq<u8>) -> Seq<u8> {
    seq![0x28u8] + a + seq![0x2Cu8, SPACE] + b + seq![0x29u8]
}

/// The text of a value in the value field; `None` for a real value that
/// cannot be written.
pub open spec fn value_text(v: ValueModel) -> Option<Seq<u8>> {
    match v {
        ValueModel::String(s) => Some(quoted_value(s)),
        ValueModel::Logical(b) => Some(
            spaces(19).push(
                if b {
                    0x54u8
                } else {
                    0x46u8
                },
            ),
        ),
        ValueModel::Integer(n) => Some(right_align(int_text(n as int), 20)),
        ValueModel::Float(t) => if writable_float(t) {
            Some(encode_utf8(t))
        } else {
            None
        },
        ValueModel::ComplexInteger(a, b) => Some(pair_text(int_text(a as int), int_text(b as int))),
        ValueModel::ComplexFloat(a, b) => if writable_float(a) && writable_float(b) {
            Some(pair_text(encode_utf8(a), encode_utf8(b)))
        } else {
            None
        },
        ValueModel::Undefined => Some(Seq::empty()),
    }
}

/// A value's text followed by ` / ` and the comment, if there is one.
pub open spec fn with_comment(v: Seq<u8>, c: Option<Seq<char>>) -> Seq<u8> {
    match c {
        Some(c) => v + seq![SPACE, 0x2Fu8, SPACE] + encode_utf8(c),
        None => v,
    }
}

/// A keyword record: the keyword cut or filled to eight bytes, the value
/// indicator, and the value and comment cut or filled to seventy bytes.
pub open spec fn value_record(kw: Seq<char>, v: Seq<u8>, c: Option<Seq<char>>) -> Seq<u8> {
    pad(encode_utf8(kw), 8) + seq![0x3Du8, SPACE] + pad(with_comment(v, c), 70)
}

/// A commentary record: an eight-byte keyword and seventy-two bytes of text.
pub open spec fn commentary_record(kw: Seq<u8>, s: Seq<char>) -> Seq<u8> {
    kw + pad(encode_utf8(s), 72)
}

pub open spec fn comment_keyword() -> Seq<u8> {
    seq![0x43u8, 0x4F, 0x4D, 0x4D, 0x45, 0x4E, 0x54, SPACE]
}

pub open spec fn history_keyword() -> Seq<u8> {
    seq![0x48u8, 0x49, 0x53, 0x54, 0x4F, 0x52, 0x59, SPACE]
}

/// `CONTINUE` and the space of byte 9.
pub open spec fn continue_keyword() -> Seq<u8> {
    seq![0x43u8, 0x4F, 0x4E, 0x54, 0x49, 0x4E, 0x55, 0x45, SPACE]
}

/// A CONTINUE record holding the quoted text `q` and the comment `c`.
pub open spec fn continue_record(q: Seq<u8>, c: Option<Seq<char>>) -> Seq<u8> {
    continue_keyword() + pad(with_comment(q, c), 71)
}

/// The card image of a card; `None` where the card cannot be written: a
/// value whose text is longer than the seventy bytes of the value field, a
/// CONTINUE string longer than its seventy-one bytes, or a real value that
/// is not a finite number.
#[verifier::opaque]
pub open spec fn encoded(c: CardModel) -> Option<Seq<u8>> {
    match c {
        CardModel::End => Some(seq![0x45u8, 0x4E, 0x44] + spaces(77)),
        CardModel::Blank => Some(spaces(80)),
        CardModel::Comment(s) => Some(commentary_record(comment_keyword(), s)),
        CardModel::History(s) => Some(commentary_record(history_keyword(), s)),
        CardModel::Value { keyword, value, comment } => match value_text(value) {
            Some(v) => if v.len() <= 70 {
                Some(value_record(keyword, v, comment))
            } else {
                None
            },
            None => None,
        },
        CardModel::Xtension { x, comment } => Some(
            value_record("XTENSION"@, quoted_value(xtension_text(x)), comment),
        ),
        CardModel::Continue { value, comment } => if quoted_continue(value).len() <= 71 {
            Some(continue_record(quoted_continue(value), comment))
        } else {
            None
        },
    }
}

/// Appends `b`.
pub fn push_all(out: &mut Vec<u8>, b: &[u8])
    ensures
        final(out)@ == old(out)@ + b@,
{
    let ghost start = out@;
    let mut k: usize = 0;
    while k < b.len()
        invariant
            k <= b@.len(),
            out@ == start + b@.subrange(0, k as int),
        decreases b@.len() - k,
    {
        out.push(b[k]);
        k = k + 1;
        assert(out@ =~= start + b@.subrange(0, k as int));
    }
    assert(b@.subrange(0, b@.len() as int) =~= b@);
}

/// Appends `n` spaces.
pub fn push_spaces(out: &mut Vec<u8>, n: usize)
    ensures
        final(out)@ == old(out)@ + spaces(n as nat),
{
    let ghost start = out@;
    let mut k: usize = 0;
    while k < n
        invariant
            k <= n,
            out@ == start + spaces(k as nat),
        decreases n - k,
    {
        out.push(SPACE);
        k = k + 1;
        assert(out@ =~= start + spaces(k as nat));
    }
}

/// Appends `b` cut or filled to `n` bytes.
pub fn push_padded(out: &mut Vec<u8>, b: &[u8], n: usize)
    ensures
        final(out)@ == old(out)@ + pad(b@, n as nat),
{
    let len = if b.len() <= n {
        b.len()
    } else {
        n
    };
    let ghost start = out@;
    push_all(out, &b[0..len]);
    assert(b@.subrange(0, len as int) =~= fit(b@, n as nat));
    push_spaces(out, n - len);
    assert(out@ =~= start + pad(b@, n as nat));
}

/// Appends `b` with its quotes doubled.
pub fn push_escaped(out: &mut Vec<u8>, b: &[u8])
    ensures
        final(out)@ == old(out)@ + escape_quotes(b@),
{
    let ghost start = out@;
    let mut k: usize = 0;
    while k < b.len()
        invariant
            k <= b@.len(),
            out@ == start + escape_quotes(b@.subrange(0, k as int)),
        decreases b@.len() - k,
    {
        let ghost prefix = b@.subrange(0, k as int);
        assert(b@.subrange(0, k + 1).drop_last() =~= prefix);
        if b[k] == QUOTE {
            out.push(QUOTE);
            out.push(QUOTE);
        } else {
            out.push(b[k]);
        }
        k = k + 1;
        assert(out@ =~= start + escape_quotes(b@.subrange(0, k as int)));
    }
    assert(b@.subrange(0, b@.len() as int) =~= b@);
}

/// The number of single quotes in `s`.
fn count_char_quotes(s: &str) -> (r: usize)
    ensures
        r == char_quotes(s@),
        r <= s@.len(),
{
    let n = s.unicode_len();
    let mut k: usize = 0;
    let mut count: usize = 0;
    while k < n
        invariant
            k <= n == s@.len(),
            count == char_quotes(s@.subrange(0, k as int)),
            count <= k,
        decreases n - k,
    {
        assert(s@.subrange(0, k + 1).drop_last() =~= s@.subrange(0, k as int));
        if s.get_char(k) == '\'' {
            count = count + 1;
        }
        k = k + 1;
    }
    assert(s@.subrange(0, n as int) =~= s@);
    count
}

/// `s` as `quoted_chars` writes it.
fn quoted_text(s: &str) -> (r: String)
    ensures
        r@ == quoted_chars(s@),
{
    let n = s.unicode_len();
    let q = count_char_quotes(s);
    let fill: usize = if n < 8 && n + q < 8 {
        8 - (n + q)
    } else {
        0
    };
    let mut out = String::from_str("'");
    proof {
        reveal_strlit("'");
        reveal_strlit("''");
        reveal_strlit(" ");
        assert(s@.subrange(0, 0) =~= Seq::<char>::empty());
    }
    let mut k: usize = 0;
    while k < n
        invariant
            k <= n == s@.len(),
            out@ == seq!['\''] + escape_chars(s@.subrange(0, k as int)),
            "''"@ == seq!['\'', '\''],
        decreases n - k,
    {
        let ghost before = out@;
        let c = s.get_char(k);
        if c == '\'' {
            out = out.concat("''");
        } else {
            let t = crate::fits::bintable::char_text(c);
            out = out.concat(t.as_str());
        }
        proof {
            let p = s@.subrange(0, k + 1);
            assert(p.drop_last() =~= s@.subrange(0, k as int));
            assert(p.last() == c);
            assert(out@ =~= seq!['\''] + escape_chars(p));
        }
        k = k + 1;
    }
    assert(s@.subrange(0, n as int) =~= s@);
    let mut j: usize = 0;
    while j < fill
        invariant
            j <= fill,
            out@ == seq!['\''] + escape_chars(s@) + Seq::new(j as nat, |i: int| ' '),
            " "@ == seq![' '],
        decreases fill - j,
    {
        out = out.concat(" ");
        j = j + 1;
        assert(out@ =~= seq!['\''] + escape_chars(s@) + Seq::new(j as nat, |i: int| ' '));
    }
    let r = out.concat("'");
    assert(r@ =~= quoted_chars(s@));
    r
}

/// The text of a value that was too long for a keyword record (see
/// `long_value_chars`).
fn long_value_text(v: &CardValue) -> (r: String)
    ensures
        r@ == long_value_chars(v@),
{
    match v {
        CardValue::String(s) => quoted_text(s.as_str()),
        CardValue::Float(t) => String::from_str(t.as_str()),
        CardValue::ComplexFloat(a, b) => String::from_str("(").concat(a.as_str()).concat(", ").concat(
            b.as_str(),
        ).concat(")"),
        _ => {
            proof {
                reveal_strlit("");
            }
            String::from_str("")
        },
    }
}

/// Appends `s` as `quoted_value` writes it.
fn push_quoted_value(out: &mut Vec<u8>, s: &str)
    ensures
        final(out)@ == old(out)@ + quoted_value(s@),
{
    let ghost start = out@;
    let n = s.unicode_len();
    let q = count_char_quotes(s);
    let fill: usize = if n < 8 && n + q < 8 {
        8 - (n + q)
    } else {
        0
    };
    out.push(QUOTE);
    push_escaped(out, s.as_bytes());
    push_spaces(out, fill);
    out.push(QUOTE);
    assert(out@ =~= start + quoted_value(s@));
}

/// Appends `s` as `quoted_continue` writes it.
fn push_quoted_continue(out: &mut Vec<u8>, s: &str)
    ensures
        final(out)@ == old(out)@ + quoted_continue(s@),
{
    let ghost start = out@;
    out.push(QUOTE);
    push_escaped(out, s.as_bytes());
    out.push(QUOTE);
    assert(out@ =~= start + quoted_continue(s@));
}

/// The decimal digits of `n`.
pub fn nat_digits(n: u64) -> (r: Vec<u8>)
    ensures
        r@ == nat_text(n as nat),
    decreases n,
{
    if n < 10 {
        let mut v: Vec<u8> = Vec::new();
        v.push(0x30u8 + n as u8);
        assert(v@ =~= nat_text(n as nat));
        v
    } else {
        let mut v = nat_digits(n / 10);
        v.push(0x30u8 + (n % 10) as u8);
        v
    }
}

/// Appends the decimal text of `n`.
fn push_int(out: &mut Vec<u8>, n: i64)
    ensures
        final(out)@ == old(out)@ + int_text(n as int),
{
    let ghost start = out@;
    if n < 0 {
        let m: u64 = (0i128 - n as i128) as u64;
        out.push(0x2Du8);
        let d = nat_digits(m);
        push_all(out, d.as_slice());
    } else {
        let d = nat_digits(n as u64);
        push_all(out, d.as_slice());
    }
    assert(out@ =~= start + int_text(n as int));
}


/// Whether the text of a real value can be written.
fn is_writable_float(t: &str) -> (r: bool)
    ensures
        r == writable_float(t@),
{
    let b = t.as_bytes();
    super::scan::is_float_text(b) && !super::scan::is_special_float(b)
}

/// The text of a value in the value field, or an `InvalidCard` error for a
/// real value that is not a finite number.
fn format_value(v: &CardValue) -> (r: Result<Vec<u8>, Error>)
    ensures
        match value_text(v@) {
            Some(t) => r matches Ok(b) && b@ == t,
            None => r matches Err(Error::InvalidCard(m)) && m@ == float_value_error(v@),
        },
{
    let mut out: Vec<u8> = Vec::new();
    match v {
        CardValue::String(s) => {
            push_quoted_value(&mut out, s.as_str());
        },
        CardValue::Logical(b) => {
            push_spaces(&mut out, 19);
            out.push(
                if *b {
                    0x54u8
                } else {
                    0x46u8
                },
            );
        },
        CardValue::Integer(n) => {
            let mut t: Vec<u8> = Vec::new();
            push_int(&mut t, *n);
            if t.len() < 20 {
                push_spaces(&mut out, 20 - t.len());
            } else {
                push_spaces(&mut out, 0);
            }
            push_all(&mut out, t.as_slice());
        },
        CardValue::Float(t) => {
            if !is_writable_float(t.as_str()) {
                return Err(
                    Error::InvalidCard(String::from_str("non-finite float value: ").concat(t.as_str())),
                );
            }
            push_all(&mut out, t.as_str().as_bytes());
        },
        CardValue::ComplexInteger(a, b) => {
            out.push(0x28u8);
            push_int(&mut out, *a);
            out.push(0x2Cu8);
            out.push(SPACE);
            push_int(&mut out, *b);
            out.push(0x29u8);
        },
        CardValue::ComplexFloat(a, b) => {
            if !is_writable_float(a.as_str()) {
                return Err(
                    Error::InvalidCard(String::from_str("non-finite float value: ").concat(a.as_str())),
                );
            }
            if !is_writable_float(b.as_str()) {
                return Err(
                    Error::InvalidCard(String::from_str("non-finite float value: ").concat(b.as_str())),
                );
            }
            out.push(0x28u8);
            push_all(&mut out, a.as_str().as_bytes());
            out.push(0x2Cu8);
            out.push(SPACE);
            push_all(&mut out, b.as_str().as_bytes());
            out.push(0x29u8);
        },
        CardValue::Undefined => {},
    }
    proof {
        match value_text(v@) {
            Some(t) => {
                assert(out@ =~= t);
            },
            None => {},
        }
    }
    Ok(out)
}

/// The 80 bytes of `v` as a card image.
fn to_record(v: &Vec<u8>) -> (r: [u8; 80])
    requires
        v@.len() == 80,
    ensures
        r@ == v@,
{
    let mut out: [u8; 80] = [SPACE; 80];
    let mut k: usize = 0;
    while k < 80
        invariant
            k <= 80,
            v@.len() == 80,
            out@.len() == 80,
            forall|j: int| 0 <= j < k ==> out@[j] == v@[j],
        decreases 80 - k,
    {
        out[k] = v[k];
        k = k + 1;
    }
    assert(out@ =~= v@);
    out
}

/// Appends `v`, then ` / ` and the comment if there is one, cut or filled to `n` bytes.
fn push_with_comment(out: &mut Vec<u8>, v: &[u8], comment: &Option<String>, n: usize)
    ensures
        final(out)@ == old(out)@ + pad(with_comment(v@, super::opt_view(*comment)), n as nat),
{
    let mut combined: Vec<u8> = Vec::new();
    push_all(&mut combined, v);
    match comment {
        Some(c) => {
            combined.push(SPACE);
            combined.push(0x2Fu8);
            combined.push(SPACE);
            push_all(&mut combined, c.as_str().as_bytes());
        },
        None => {},
    }
    assert(combined@ =~= with_comment(v@, super::opt_view(*comment)));
    push_padded(out, combined.as_slice(), n);
}

/// A keyword record for the keyword, value text and comment.
fn encode_value(keyword: &str, v: &[u8], comment: &Option<String>) -> (r: [u8; 80])
    ensures
        r@ == value_record(keyword@, v@, super::opt_view(*comment)),
{
    let mut out: Vec<u8> = Vec::new();
    push_padded(&mut out, keyword.as_bytes(), 8);
    out.push(0x3Du8);
    out.push(SPACE);
    push_with_comment(&mut out, v, comment, 70);
    assert(out@ =~= value_record(keyword@, v@, super::opt_view(*comment)));
    to_record(&out)
}

/// A commentary record: the eight keyword bytes, then the text cut or filled
/// to seventy-two bytes.
fn encode_commentary(kw: &[u8], s: &str) -> (r: [u8; 80])
    requires
        kw@.len() == 8,
    ensures
        r@ == commentary_record(kw@, s@),
{
    let mut out: Vec<u8> = Vec::new();
    push_all(&mut out, kw);
    push_padded(&mut out, s.as_bytes(), 72);
    to_record(&out)
}

impl Card {
    /// The card image of this card (see `encoded`): an `InvalidCard` error
    /// where the value does not fit in its field or a real value is not a
    /// finite number.
    pub fn encode(&self) -> (r: Result<[u8; 80], Error>)
        ensures
            match encoded(self@) {
                Some(b) => r matches Ok(a) && a@ == b,
                None => r matches Err(Error::InvalidCard(m)) && m@ == encode_error(self@),
            },
    {
        proof {
            reveal(encoded);
        }
        match self {
            Card::End => {
                let mut out: Vec<u8> = Vec::new();
                out.push(0x45u8);
                out.push(0x4Eu8);
                out.push(0x44u8);
                push_spaces(&mut out, 77);
                assert(out@ =~= seq![0x45u8, 0x4E, 0x44] + spaces(77));
                Ok(to_record(&out))
            },
            Card::Blank => {
                let mut out: Vec<u8> = Vec::new();
                push_spaces(&mut out, 80);
                assert(out@ =~= spaces(80));
                Ok(to_record(&out))
            },
            Card::Comment(s) => {
                let kw: [u8; 8] = [0x43u8, 0x4F, 0x4D, 0x4D, 0x45, 0x4E, 0x54, SPACE];
                assert(kw@ =~= comment_keyword());
                Ok(encode_commentary(kw.as_slice(), s.as_str()))
            },
            Card::History(s) => {
                let kw: [u8; 8] = [0x48u8, 0x49, 0x53, 0x54, 0x4F, 0x52, 0x59, SPACE];
                assert(kw@ =~= history_keyword());
                Ok(encode_commentary(kw.as_slice(), s.as_str()))
            },
            Card::Value { keyword, value, comment } => {
                let v = match format_value(value) {
                    Ok(v) => v,
                    Err(e) => return Err(e),
                };
                if v.len() > 70 {
                    let t = long_value_text(value);
                    return Err(
                        Error::InvalidCard(
                            String::from_str("encoded value too long for card: ").concat(t.as_str()),
                        ),
                    );
                }
                Ok(encode_value(keyword.as_str(), v.as_slice(), comment))
            },
            Card::Xtension { x, comment } => {
                let mut v: Vec<u8> = Vec::new();
                push_quoted_value(&mut v, x.as_str());
                Ok(encode_value("XTENSION", v.as_slice(), comment))
            },
            Card::Continue { value, comment } => {
                let mut q: Vec<u8> = Vec::new();
                push_quoted_continue(&mut q, value.as_str());
                if q.len() > 71 {
                    return Err(Error::InvalidCard(String::from_str("encoded value too long for card")));
                }
                let kw: [u8; 9] = [0x43u8, 0x4F, 0x4E, 0x54, 0x49, 0x4E, 0x55, 0x45, SPACE];
                assert(kw@ =~= continue_keyword());
                let mut out: Vec<u8> = Vec::new();
                push_all(&mut out, kw.as_slice());
                push_with_comment(&mut out, q.as_slice(), comment, 71);
                Ok(to_record(&out))
            },
        }
    }
}

} // verus!
