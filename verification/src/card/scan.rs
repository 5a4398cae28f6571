//! Scanning of the printable-ASCII text of header cards, and the grammar of
//! the numbers that may stand in a value field.
use vstd::prelude::*;

verus! {

pub const SPACE: u8 = 0x20;

pub const QUOTE: u8 = 0x27;

/// Bytes 0x20..=0x7E: the only bytes a card may hold (3.3.1).
pub open spec fn is_printable(b: u8) -> bool {
    0x20 <= b <= 0x7E
}

/// The characters that the ASCII bytes `b` stand for.
pub open spec fn ascii_chars(b: Seq<u8>) -> Seq<char> {
    b.map_values(|x: u8| x as char)
}

/// First position at or after `i` (and before `hi`) that is not a space.
pub open spec fn skip_spaces(s: Seq<u8>, i: int, hi: int) -> int
    decreases hi - i,
{
    if i < hi && s[i] == SPACE {
        skip_spaces(s, i + 1, hi)
    } else {
        i
    }
}

/// End of `s[lo..hi]` once trailing spaces are removed.
pub open spec fn trim_end(s: Seq<u8>, lo: int, hi: int) -> int
    decreases hi - lo,
{
    if hi > lo && s[hi - 1] == SPACE {
        trim_end(s, lo, hi - 1)
    } else {
        hi
    }
}

/// First position in `i..hi` holding `b`, or `hi`.
pub open spec fn find_byte(s: Seq<u8>, i: int, hi: int, b: u8) -> int
    decreases hi - i,
{
    if i < hi && s[i] != b {
        find_byte(s, i + 1, hi, b)
    } else {
        i
    }
}

/// `s` without its trailing spaces.
pub open spec fn trim_seq_end(s: Seq<u8>) -> Seq<u8>
    decreases s.len(),
{
    if s.len() > 0 && s.last() == SPACE {
        trim_seq_end(s.drop_last())
    } else {
        s
    }
}

pub proof fn lemma_trim_seq_end(s: Seq<u8>)
    ensures
        trim_seq_end(s).len() <= s.len(),
        forall|k: int| 0 <= k < trim_seq_end(s).len() ==> trim_seq_end(s)[k] == s[k],
    decreases s.len(),
{
    if s.len() > 0 && s.last() == SPACE {
        lemma_trim_seq_end(s.drop_last());
        assert forall|k: int| 0 <= k < trim_seq_end(s).len() implies trim_seq_end(s)[k] == s[k] by {
            assert(s.drop_last()[k] == s[k]);
        }
    }
}

pub proof fn lemma_skip_spaces(s: Seq<u8>, i: int, hi: int)
    requires
        i <= hi,
    ensures
        i <= skip_spaces(s, i, hi) <= hi,
        forall|k: int| i <= k < skip_spaces(s, i, hi) ==> s[k] == SPACE,
        skip_spaces(s, i, hi) < hi ==> s[skip_spaces(s, i, hi)] != SPACE,
    decreases hi - i,
{
    if i < hi && s[i] == SPACE {
        lemma_skip_spaces(s, i + 1, hi);
    }
}

pub proof fn lemma_trim_end(s: Seq<u8>, lo: int, hi: int)
    requires
        lo <= hi,
    ensures
        lo <= trim_end(s, lo, hi) <= hi,
        forall|k: int| trim_end(s, lo, hi) <= k < hi ==> s[k] == SPACE,
        trim_end(s, lo, hi) > lo ==> s[trim_end(s, lo, hi) - 1] != SPACE,
    decreases hi - lo,
{
    if hi > lo && s[hi - 1] == SPACE {
        lemma_trim_end(s, lo, hi - 1);
    }
}

pub proof fn lemma_find_byte(s: Seq<u8>, i: int, hi: int, b: u8)
    requires
        i <= hi,
    ensures
        i <= find_byte(s, i, hi, b) <= hi,
        forall|k: int| i <= k < find_byte(s, i, hi, b) ==> s[k] != b,
        find_byte(s, i, hi, b) < hi ==> s[find_byte(s, i, hi, b)] == b,
    decreases hi - i,
{
    if i < hi && s[i] != b {
        lemma_find_byte(s, i + 1, hi, b);
    }
}

/// Exec version of `skip_spaces`.
pub fn skip_spaces_at(s: &[u8], i: usize, hi: usize) -> (r: usize)
    requires
        i <= hi <= s@.len(),
    ensures
        r == skip_spaces(s@, i as int, hi as int),
        i <= r <= hi,
{
    let mut k = i;
    while k < hi && s[k] == SPACE
        invariant
            i <= k <= hi <= s@.len(),
            skip_spaces(s@, i as int, hi as int) == skip_spaces(s@, k as int, hi as int),
        decreases hi - k,
    {
        k = k + 1;
    }
    k
}

/// Exec version of `trim_end`.
pub fn trim_end_at(s: &[u8], lo: usize, hi: usize) -> (r: usize)
    requires
        lo <= hi <= s@.len(),
    ensures
        r == trim_end(s@, lo as int, hi as int),
        lo <= r <= hi,
{
    let mut k = hi;
    while k > lo && s[k - 1] == SPACE
        invariant
            lo <= k <= hi <= s@.len(),
            trim_end(s@, lo as int, hi as int) == trim_end(s@, lo as int, k as int),
        decreases k - lo,
    {
        k = k - 1;
    }
    k
}

/// Exec version of `find_byte`.
pub fn find_byte_at(s: &[u8], i: usize, hi: usize, b: u8) -> (r: usize)
    requires
        i <= hi <= s@.len(),
    ensures
        r == find_byte(s@, i as int, hi as int, b),
        i <= r <= hi,
{
    let mut k = i;
    while k < hi && s[k] != b
        invariant
            i <= k <= hi <= s@.len(),
            find_byte(s@, i as int, hi as int, b) == find_byte(s@, k as int, hi as int, b),
        decreases hi - k,
    {
        k = k + 1;
    }
    k
}

/// Exec version of `trim_seq_end` on a vector.
pub fn trim_vec_end(v: &mut Vec<u8>)
    ensures
        final(v)@ == trim_seq_end(old(v)@),
{
    while v.len() > 0 && v[v.len() - 1] == SPACE
        invariant
            trim_seq_end(old(v)@) == trim_seq_end(v@),
        decreases v@.len(),
    {
        let ghost before = v@;
        v.pop();
        assert(v@ =~= before.drop_last());
    }
}

pub open spec fn is_digit(b: u8) -> bool {
    0x30 <= b <= 0x39
}

/// First position at or after `i` that does not hold a decimal digit.
pub open spec fn digits_end(s: Seq<u8>, i: int) -> int
    decreases s.len() - i,
{
    if 0 <= i < s.len() && is_digit(s[i]) {
        digits_end(s, i + 1)
    } else {
        i
    }
}

/// The number written by the digits `s[lo..hi]`.
pub open spec fn digits_value(s: Seq<u8>, lo: int, hi: int) -> nat
    decreases hi - lo,
{
    if hi <= lo {
        0
    } else {
        digits_value(s, lo, hi - 1) * 10 + (s[hi - 1] - 0x30) as nat
    }
}

/// The integer that `s` writes as an optional sign followed by one or more
/// decimal digits, as `i64`'s `from_str` reads it.
pub open spec fn integer_text(s: Seq<u8>) -> Option<int> {
    let neg = s.len() > 0 && s[0] == 0x2D;
    let p = if s.len() > 0 && (s[0] == 0x2B || s[0] == 0x2D) {
        1int
    } else {
        0int
    };
    if p < s.len() && digits_end(s, p) == s.len() {
        let v = digits_value(s, p, s.len() as int);
        Some(
            if neg {
                -v
            } else {
                v as int
            },
        )
    } else {
        None
    }
}

/// The `i64` that `s` stands for, when it is an integer that fits.
pub open spec fn parse_i64(s: Seq<u8>) -> Option<i64> {
    match integer_text(s) {
        Some(v) => if i64::MIN <= v <= i64::MAX {
            Some(v as i64)
        } else {
            None
        },
        None => None,
    }
}

pub open spec fn ascii_lower(b: u8) -> u8 {
    if 0x41 <= b <= 0x5A {
        (b + 0x20) as u8
    } else {
        b
    }
}

/// Whether `s[p..]` spells `word` (lower case), ignoring ASCII case.
pub open spec fn spells(s: Seq<u8>, p: int, word: Seq<u8>) -> bool {
    &&& s.len() - p == word.len()
    &&& forall|k: int| 0 <= k < word.len() ==> ascii_lower(#[trigger] s[p + k]) == word[k]
}

/// Whether `s` is an optional sign followed by `inf`, `infinity` or `nan`
/// in any case: the texts of the non-finite values.
pub open spec fn special_float(s: Seq<u8>) -> bool {
    let p0 = if s.len() > 0 && (s[0] == 0x2B || s[0] == 0x2D) {
        1int
    } else {
        0int
    };
    spells(s, p0, seq![0x69u8, 0x6E, 0x66]) || spells(
        s,
        p0,
        seq![0x69u8, 0x6E, 0x66, 0x69, 0x6E, 0x69, 0x74, 0x79],
    ) || spells(s, p0, seq![0x6Eu8, 0x61, 0x6E])
}

/// Whether `s` is text that `f64`'s `from_str` accepts: an optional sign and
/// then `inf`, `infinity` or `nan` in any case, or a decimal number with at
/// least one digit, an optional fraction and an optional exponent.
pub open spec fn float_text(s: Seq<u8>) -> bool {
    let p0 = if s.len() > 0 && (s[0] == 0x2B || s[0] == 0x2D) {
        1int
    } else {
        0int
    };
    let p1 = digits_end(s, p0);
    let has_point = p1 < s.len() && s[p1] == 0x2E;
    let p2 = if has_point {
        digits_end(s, p1 + 1)
    } else {
        p1
    };
    let ndigits = if has_point {
        (p1 - p0) + (p2 - p1 - 1)
    } else {
        p1 - p0
    };
    let special = special_float(s);
    let number = ndigits >= 1 && (p2 == s.len() || ((s[p2] == 0x65 || s[p2] == 0x45) && {
        let p3 = if p2 + 1 < s.len() && (s[p2 + 1] == 0x2B || s[p2 + 1] == 0x2D) {
            p2 + 2
        } else {
            p2 + 1
        };
        let p4 = digits_end(s, p3);
        p4 > p3 && p4 == s.len()
    }));
    special || number
}

/// Whether the text looks like a floating-point number rather than an
/// integer: it holds a point or an exponent letter (4.2.4).
pub open spec fn looks_like_float(s: Seq<u8>) -> bool {
    exists|k: int|
        0 <= k < s.len() && (s[k] == 0x2E || s[k] == 0x45 || s[k] == 0x65 || s[k] == 0x44 || s[k]
            == 0x64)
}

/// The exponent letters `d` and `D` written as `E` (4.2.4, footnote 4).
pub open spec fn normalize_exponent(s: Seq<u8>) -> Seq<u8> {
    s.map_values(|b: u8| if b == 0x44 || b == 0x64 { 0x45u8 } else { b })
}

pub proof fn lemma_digits_end(s: Seq<u8>, i: int)
    requires
        0 <= i <= s.len(),
    ensures
        i <= digits_end(s, i) <= s.len(),
        forall|k: int| i <= k < digits_end(s, i) ==> is_digit(s[k]),
        digits_end(s, i) < s.len() ==> !is_digit(s[digits_end(s, i)]),
    decreases s.len() - i,
{
    if i < s.len() && is_digit(s[i]) {
        lemma_digits_end(s, i + 1);
    }
}

/// Exec version of `digits_end`.
fn digits_end_at(s: &[u8], i: usize) -> (r: usize)
    requires
        i <= s@.len(),
    ensures
        r == digits_end(s@, i as int),
        i <= r <= s@.len(),
{
    let mut k = i;
    while k < s.len() && 0x30 <= s[k] && s[k] <= 0x39
        invariant
            i <= k <= s@.len(),
            digits_end(s@, i as int) == digits_end(s@, k as int),
        decreases s@.len() - k,
    {
        k = k + 1;
    }
    k
}

/// Reads `s` as a decimal `i64`; `None` where `i64`'s `from_str` fails.
pub fn parse_i64_text(s: &[u8]) -> (r: Option<i64>)
    ensures
        r == parse_i64(s@),
{
    let len = s.len();
    let neg = len > 0 && s[0] == 0x2D;
    let p: usize = if len > 0 && (s[0] == 0x2B || s[0] == 0x2D) {
        1
    } else {
        0
    };
    if p >= len {
        return None;
    }
    let e = digits_end_at(s, p);
    if e != len {
        return None;
    }
    // Accumulate the magnitude; it may reach 2^63 for `i64::MIN`.
    let mut v: u64 = 0;
    let mut k = p;
    while k < len
        invariant
            p <= k <= len == s@.len(),
            digits_end(s@, p as int) == len,
            v == digits_value(s@, p as int, k as int),
            v <= 0x8000_0000_0000_0000u64,
            neg == (s@.len() > 0 && s@[0] == 0x2D),
            p == (if s@.len() > 0 && (s@[0] == 0x2B || s@[0] == 0x2D) { 1int } else { 0int }),
        decreases len - k,
    {
        proof {
            lemma_digits_end(s@, p as int);
        }
        let d = (s[k] - 0x30) as u64;
        assert(digits_value(s@, p as int, (k + 1) as int) == v * 10 + d);
        if v > (0x8000_0000_0000_0000u64 - d) / 10 {
            proof {
                lemma_digits_value_grows(s@, p as int, (k + 1) as int, len as int);
                assert(digits_value(s@, p as int, (k + 1) as int) > 0x8000_0000_0000_0000) by (
                nonlinear_arith)
                    requires
                        digits_value(s@, p as int, (k + 1) as int) == v * 10 + d,
                        v > (0x8000_0000_0000_0000 - d) / 10,
                        d <= 9,
                ;
                assert(integer_text(s@) == Some(
                    if neg {
                        -digits_value(s@, p as int, len as int)
                    } else {
                        digits_value(s@, p as int, len as int) as int
                    },
                ));
            }
            return None;
        }
        v = v * 10 + d;
        k = k + 1;
    }
    assert(integer_text(s@) == Some(
        if neg {
            -digits_value(s@, p as int, len as int)
        } else {
            digits_value(s@, p as int, len as int) as int
        },
    ));
    if neg {
        if v == 0x8000_0000_0000_0000u64 {
            Some(i64::MIN)
        } else {
            Some(-(v as i64))
        }
    } else {
        if v > 0x7FFF_FFFF_FFFF_FFFFu64 {
            None
        } else {
            Some(v as i64)
        }
    }
}

proof fn lemma_digits_value_grows(s: Seq<u8>, lo: int, k: int, hi: int)
    requires
        lo <= k <= hi <= s.len(),
        forall|j: int| lo <= j < hi ==> is_digit(s[j]),
    ensures
        digits_value(s, lo, k) <= digits_value(s, lo, hi),
    decreases hi - k,
{
    if k < hi {
        lemma_digits_value_grows(s, lo, k, hi - 1);
        assert(digits_value(s, lo, hi - 1) <= digits_value(s, lo, hi - 1) * 10 + (s[hi - 1]
            - 0x30) as nat) by (nonlinear_arith);
    }
}

fn spells_at(s: &[u8], p: usize, word: &[u8]) -> (r: bool)
    requires
        p <= s@.len(),
    ensures
        r == spells(s@, p as int, word@),
{
    let slen = s.len();
    if slen - p != word.len() {
        return false;
    }
    let mut k: usize = 0;
    while k < word.len()
        invariant
            p <= s@.len(),
            slen == s@.len(),
            s@.len() - p == word@.len(),
            k <= word@.len(),
            forall|j: int| 0 <= j < k ==> ascii_lower(#[trigger] s@[p + j]) == word@[j],
        decreases word@.len() - k,
    {
        let b = s[p + k];
        let l = if 0x41 <= b && b <= 0x5A {
            b + 0x20
        } else {
            b
        };
        if l != word[k] {
            assert(ascii_lower(s@[p + k]) != word@[k as int]);
            return false;
        }
        k = k + 1;
    }
    true
}

/// Whether `s` spells a non-finite value.
pub fn is_special_float(s: &[u8]) -> (r: bool)
    ensures
        r == special_float(s@),
{
    let len = s.len();
    let p0: usize = if len > 0 && (s[0] == 0x2B || s[0] == 0x2D) {
        1
    } else {
        0
    };
    let inf: [u8; 3] = [0x69u8, 0x6E, 0x66];
    let infinity: [u8; 8] = [0x69u8, 0x6E, 0x66, 0x69, 0x6E, 0x69, 0x74, 0x79];
    let nan: [u8; 3] = [0x6Eu8, 0x61, 0x6E];
    assert(inf@ =~= seq![0x69u8, 0x6E, 0x66]);
    assert(infinity@ =~= seq![0x69u8, 0x6E, 0x66, 0x69, 0x6E, 0x69, 0x74, 0x79]);
    assert(nan@ =~= seq![0x6Eu8, 0x61, 0x6E]);
    spells_at(s, p0, inf.as_slice()) || spells_at(s, p0, infinity.as_slice()) || spells_at(
        s,
        p0,
        nan.as_slice(),
    )
}

/// Whether `s` is text that `f64`'s `from_str` accepts.
pub fn is_float_text(s: &[u8]) -> (r: bool)
    ensures
        r == float_text(s@),
{
    let len = s.len();
    let p0: usize = if len > 0 && (s[0] == 0x2B || s[0] == 0x2D) {
        1
    } else {
        0
    };
    let p1 = digits_end_at(s, p0);
    let has_point = p1 < len && s[p1] == 0x2E;
    let p2 = if has_point {
        digits_end_at(s, p1 + 1)
    } else {
        p1
    };
    let ndigits = if has_point {
        (p1 - p0) + (p2 - p1 - 1)
    } else {
        p1 - p0
    };
    let special = is_special_float(s);
    let number = if ndigits < 1 {
        false
    } else if p2 == len {
        true
    } else if s[p2] == 0x65 || s[p2] == 0x45 {
        let p3 = if p2 + 1 < len && (s[p2 + 1] == 0x2B || s[p2 + 1] == 0x2D) {
            p2 + 2
        } else {
            p2 + 1
        };
        let p4 = digits_end_at(s, p3);
        p4 > p3 && p4 == len
    } else {
        false
    };
    special || number
}

/// Whether `s` holds a point or an exponent letter.
pub fn has_float_marker(s: &[u8]) -> (r: bool)
    ensures
        r == looks_like_float(s@),
{
    let mut k: usize = 0;
    while k < s.len()
        invariant
            k <= s@.len(),
            forall|j: int|
                0 <= j < k ==> !(s@[j] == 0x2E || s@[j] == 0x45 || s@[j] == 0x65 || s@[j] == 0x44
                    || s@[j] == 0x64),
        decreases s@.len() - k,
    {
        let b = s[k];
        if b == 0x2E || b == 0x45 || b == 0x65 || b == 0x44 || b == 0x64 {
            return true;
        }
        k = k + 1;
    }
    false
}

/// `s` with the exponent letters `d` and `D` written as `E`.
pub fn normalize_exponent_vec(s: &[u8]) -> (r: Vec<u8>)
    ensures
        r@ == normalize_exponent(s@),
{
    let mut out: Vec<u8> = Vec::new();
    let mut k: usize = 0;
    while k < s.len()
        invariant
            k <= s@.len(),
            out@ =~= normalize_exponent(s@.subrange(0, k as int)),
        decreases s@.len() - k,
    {
        let b = s[k];
        out.push(
            if b == 0x44 || b == 0x64 {
                0x45u8
            } else {
                b
            },
        );
        k = k + 1;
        assert(s@.subrange(0, k as int) =~= s@.subrange(0, (k - 1) as int).push(b));
    }
    assert(s@.subrange(0, s@.len() as int) =~= s@);
    out
}

/// Copies `s[lo..hi]` into a vector.
pub fn copy_range(s: &[u8], lo: usize, hi: usize) -> (r: Vec<u8>)
    requires
        lo <= hi <= s@.len(),
    ensures
        r@ == s@.subrange(lo as int, hi as int),
{
    let mut out: Vec<u8> = Vec::new();
    let mut k = lo;
    while k < hi
        invariant
            lo <= k <= hi <= s@.len(),
            out@ =~= s@.subrange(lo as int, k as int),
        decreases hi - k,
    {
        out.push(s[k]);
        k = k + 1;
    }
    out
}

/// `std::str::from_utf8` on ASCII bytes: they are valid UTF-8, and the
/// text they make is their characters, one per byte.
#[verifier::external_body]
fn ascii_as_str(b: &[u8]) -> (s: &str)
    requires
        forall|k: int| 0 <= k < b@.len() ==> b@[k] < 0x80,
    ensures
        s@ == ascii_chars(b@),
{
    match std::str::from_utf8(b) {
        Ok(s) => s,
        Err(_) => "",
    }
}

/// The ASCII bytes `b` as a `String`.
pub fn ascii_string(b: &[u8]) -> (s: String)
    requires
        forall|k: int| 0 <= k < b@.len() ==> b@[k] < 0x80,
    ensures
        s@ == ascii_chars(b@),
{
    ascii_as_str(b).to_owned()
}

} // verus!
