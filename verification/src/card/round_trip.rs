//! Reading back what was written: a keyword record that `Card::encode`
//! writes is parsed by `Card::try_from` into the card it came from.
use vstd::prelude::*;
use vstd::utf8::{encode_utf8, is_ascii_chars};

use super::encode::{escape_quotes, int_text, nat_text, spaces};
use super::scan::{
    ascii_chars, digits_end, digits_value, find_byte, integer_text, is_digit, parse_i64,
    skip_spaces, trim_end, trim_seq_end, QUOTE, SPACE,
};
use super::encode::{encoded, pad, value_record, value_text, with_comment};
use super::{all_printable, is_keyword_byte, parse_card, CardModel};
use super::{comment_at, comment_chars, number_value, scan_string, string_at, value_field, ValueModel};
use super::scan::looks_like_float;
use crate::extension::{xtension_named, xtension_text, XtensionType};

verus! {

proof fn lemma_nat_text_digits(n: nat)
    ensures
        nat_text(n).len() >= 1,
        forall|k: int| 0 <= k < nat_text(n).len() ==> is_digit(#[trigger] nat_text(n)[k]),
    decreases n,
{
    if n >= 10 {
        lemma_nat_text_digits(n / 10);
        assert(nat_text(n) == nat_text(n / 10).push((0x30 + n % 10) as u8));
    }
}

/// `digits_value` reads only the bytes below `hi`.
proof fn lemma_digits_value_frame(s: Seq<u8>, t: Seq<u8>, lo: int, hi: int)
    requires
        0 <= lo <= hi <= s.len(),
        hi <= t.len(),
        forall|k: int| lo <= k < hi ==> s[k] == t[k],
    ensures
        digits_value(s, lo, hi) == digits_value(t, lo, hi),
    decreases hi - lo,
{
    if hi > lo {
        lemma_digits_value_frame(s, t, lo, hi - 1);
    }
}

/// The digits of `n`, after any prefix, read back as `n`.
proof fn lemma_nat_text_value(pre: Seq<u8>, n: nat)
    ensures
        digits_value(pre + nat_text(n), pre.len() as int, (pre + nat_text(n)).len() as int) == n,
    decreases n,
{
    let s = pre + nat_text(n);
    let p = pre.len() as int;
    if n < 10 {
        assert(nat_text(n) == seq![(0x30 + n) as u8]);
        assert(digits_value(s, p, p) == 0);
    } else {
        let d = (0x30 + n % 10) as u8;
        assert(nat_text(n) == nat_text(n / 10).push(d));
        let t = pre + nat_text(n / 10);
        lemma_nat_text_value(pre, n / 10);
        assert(s == t.push(d));
        lemma_digits_value_frame(s, t, p, t.len() as int);
    }
}

proof fn lemma_digits_end_all(s: Seq<u8>, i: int)
    requires
        0 <= i <= s.len(),
        forall|k: int| i <= k < s.len() ==> is_digit(#[trigger] s[k]),
    ensures
        digits_end(s, i) == s.len(),
    decreases s.len() - i,
{
    if i < s.len() {
        lemma_digits_end_all(s, i + 1);
    }
}

/// The decimal text of an integer reads back as that integer.
pub proof fn int_text_law(n: i64)
    ensures
        parse_i64(int_text(n as int)) == Some(n),
{
    let m: nat = if n < 0 {
        (-(n as int)) as nat
    } else {
        n as nat
    };
    lemma_nat_text_digits(m);
    if n < 0 {
        let pre = seq![0x2Du8];
        let s = pre + nat_text(m);
        assert(int_text(n as int) == s);
        assert forall|k: int| 1 <= k < s.len() implies is_digit(#[trigger] s[k]) by {
            assert(s[k] == nat_text(m)[k - 1]);
        }
        lemma_digits_end_all(s, 1);
        lemma_nat_text_value(pre, m);
    } else {
        let pre = Seq::<u8>::empty();
        let s = pre + nat_text(m);
        assert(s == nat_text(m));
        assert(int_text(n as int) == s);
        lemma_digits_end_all(s, 0);
        lemma_nat_text_value(pre, m);
        assert(!is_digit(0x2B) && !is_digit(0x2D));
    }
}


/// Whether every character of `s` is printable ASCII.
pub open spec fn printable_text(s: Seq<char>) -> bool {
    forall|k: int| 0 <= k < s.len() ==> ' ' <= #[trigger] s[k] <= '~'
}

/// The bytes of printable ASCII text are its characters, one byte each.
pub proof fn lemma_printable_bytes(s: Seq<char>)
    requires
        printable_text(s),
    ensures
        encode_utf8(s).len() == s.len(),
        forall|k: int| 0 <= k < s.len() ==> #[trigger] encode_utf8(s)[k] == s[k] as u8,
        forall|k: int| 0 <= k < s.len() ==> 0x20 <= #[trigger] encode_utf8(s)[k] <= 0x7E,
        ascii_chars(encode_utf8(s)) == s,
{
    assert(is_ascii_chars(s));
    vstd::utf8::is_ascii_chars_encode_utf8(s);
    assert forall|k: int| 0 <= k < s.len() implies 0x20 <= #[trigger] encode_utf8(s)[k] <= 0x7E by {
        assert(encode_utf8(s)[k] == s[k] as u8);
    }
    assert(ascii_chars(encode_utf8(s)) =~= s);
}

/// Skipping spaces stops at the first byte that is not one.
proof fn lemma_skip_to(s: Seq<u8>, i: int, m: int, hi: int)
    requires
        i <= m <= hi,
        forall|k: int| i <= k < m ==> s[k] == SPACE,
        m == hi || s[m] != SPACE,
    ensures
        skip_spaces(s, i, hi) == m,
    decreases m - i,
{
    if i < m {
        lemma_skip_to(s, i + 1, m, hi);
    }
}

/// Trimming trailing spaces stops after the last byte that is not one.
proof fn lemma_trim_to(s: Seq<u8>, lo: int, m: int, hi: int)
    requires
        lo <= m <= hi,
        forall|k: int| m <= k < hi ==> s[k] == SPACE,
        m == lo || s[m - 1] != SPACE,
    ensures
        trim_end(s, lo, hi) == m,
    decreases hi - m,
{
    if m < hi {
        lemma_trim_to(s, lo, m, hi - 1);
    }
}

/// The search for `b` stops at its first occurrence.
proof fn lemma_find_to(s: Seq<u8>, i: int, m: int, hi: int, b: u8)
    requires
        i <= m <= hi,
        forall|k: int| i <= k < m ==> s[k] != b,
        m == hi || s[m] == b,
    ensures
        find_byte(s, i, hi, b) == m,
    decreases m - i,
{
    if i < m {
        lemma_find_to(s, i + 1, m, hi, b);
    }
}

/// Trailing spaces added to text that does not end in one are trimmed away.
proof fn lemma_trim_seq_spaces(b: Seq<u8>, n: nat)
    requires
        b.len() == 0 || b.last() != SPACE,
    ensures
        trim_seq_end(b + spaces(n)) == b,
    decreases n,
{
    if n == 0 {
        assert(b + spaces(0) =~= b);
    } else {
        assert((b + spaces(n)).drop_last() =~= b + spaces((n - 1) as nat));
        lemma_trim_seq_spaces(b, (n - 1) as nat);
    }
}

/// Reading a quoted string: the bytes of `escape_quotes(b)` and then a lone
/// quote, starting at `i`, read back as `b` and end after that quote.
proof fn lemma_scan_escaped(s: Seq<u8>, i: int, hi: int, acc: Seq<u8>, b: Seq<u8>)
    requires
        0 <= i,
        i + escape_quotes(b).len() < hi <= s.len(),
        s.subrange(i, i + escape_quotes(b).len() as int) == escape_quotes(b),
        s[i + escape_quotes(b).len()] == QUOTE,
        i + escape_quotes(b).len() + 1 == hi || s[i + escape_quotes(b).len() + 1] != QUOTE,
    ensures
        scan_string(s, i, hi, acc) == Some((i + escape_quotes(b).len() + 1, acc + b)),
    decreases b.len(),
{
    if b.len() == 0 {
        assert(acc + b =~= acc);
    } else {
        let x = b[0];
        let rest = b.drop_first();
        assert(b =~= seq![x] + rest);
        crate::card::long_string::lemma_escape_concat(seq![x], rest);
        reveal_with_fuel(escape_quotes, 2);
        assert(seq![x].drop_last() =~= Seq::<u8>::empty());
        let w: int = if x == QUOTE {
            2
        } else {
            1
        };
        assert(escape_quotes(seq![x]).len() == w);
        assert(escape_quotes(b) == escape_quotes(seq![x]) + escape_quotes(rest));
        let e = escape_quotes(b);
        assert(s[i] == e[0]);
        if x == QUOTE {
            assert(e[0] == QUOTE && e[1] == QUOTE);
            assert(s[i + 1] == e[1]);
        } else {
            assert(e[0] == x);
        }
        assert(s.subrange(i + w, i + w + escape_quotes(rest).len() as int) =~= escape_quotes(rest))
            by {
            assert forall|k: int| 0 <= k < escape_quotes(rest).len() implies s[i + w + k]
                == escape_quotes(rest)[k] by {
                assert(s[i + w + k] == e[w + k]);
            }
        }
        lemma_scan_escaped(s, i + w, hi, acc.push(x), rest);
        assert(acc.push(x) + rest =~= acc + b);
    }
}


/// Whether `c` reads back: printable ASCII, not empty, not ending in a space.
pub open spec fn readable_comment(c: Option<Seq<char>>) -> bool {
    match c {
        None => true,
        Some(x) => printable_text(x) && x.len() > 0 && x.last() != ' ',
    }
}

/// A comment as it reads back: after the space that follows the `/`.
pub open spec fn read_back_comment(c: Option<Seq<char>>) -> Option<Seq<char>> {
    match c {
        None => None,
        Some(x) => Some(seq![' '] + x),
    }
}

/// The bytes of `e` from `p` to the end of the card are ` / ` and the
/// comment, then spaces; or only spaces when there is no comment.
pub open spec fn tail_is(e: Seq<u8>, p: int, c: Option<Seq<char>>) -> bool {
    &&& e.len() == 80
    &&& 0 <= p <= 80
    &&& match c {
        None => forall|k: int| p <= k < 80 ==> e[k] == SPACE,
        Some(x) => {
            let xb = encode_utf8(x);
            &&& p + 3 + xb.len() <= 80
            &&& e[p] == SPACE
            &&& e[p + 1] == 0x2F
            &&& e[p + 2] == SPACE
            &&& forall|k: int| 0 <= k < xb.len() ==> e[p + 3 + k] == xb[k]
            &&& forall|k: int| p + 3 + xb.len() <= k < 80 ==> e[k] == SPACE
        },
    }
}

/// What the reader makes of the tail: where it finds a `/`, and the comment.
proof fn lemma_tail(e: Seq<u8>, p: int, c: Option<Seq<char>>)
    requires
        tail_is(e, p, c),
        readable_comment(c),
    ensures
        find_byte(e, p, 80, 0x2F) == match c {
            None => 80,
            Some(_) => p + 1,
        },
        comment_chars(comment_at(e, p, 80)) == read_back_comment(c),
        c is Some ==> comment_chars(comment_at(e, p + 1, 80)) == read_back_comment(c),
        c is None ==> skip_spaces(e, p, 80) == 80,
        c is Some ==> skip_spaces(e, p, 80) == p + 1,
{
    match c {
        None => {
            lemma_find_to(e, p, 80, 80, 0x2F);
            lemma_skip_to(e, p, 80, 80);
        },
        Some(x) => {
            let xb = encode_utf8(x);
            lemma_printable_bytes(x);
            lemma_find_to(e, p, p + 1, 80, 0x2F);
            lemma_skip_to(e, p, p + 1, 80);
            lemma_skip_to(e, p + 1, p + 1, 80);
            let q = p + 3 + xb.len();
            assert(e[q - 1] == xb[xb.len() - 1]);
            assert(xb[xb.len() - 1] == x.last() as u8);
            lemma_trim_to(e, p + 2, q, 80);
            let got = e.subrange(p + 2, q);
            assert(got =~= seq![SPACE] + xb);
            assert(ascii_chars(seq![SPACE] + xb) =~= seq![' '] + x) by {
                assert forall|k: int| 0 <= k < xb.len() implies (#[trigger] xb[k]) as char == x[k] by {
                    assert(xb[k] == x[k] as u8);
                }
            }
        },
    }
}

/// The text of an integer: not empty, digits after an optional `-`.
proof fn lemma_int_text_shape(n: int)
    ensures
        int_text(n).len() >= 1,
        int_text(n)[0] == 0x2D || is_digit(int_text(n)[0]),
        is_digit(int_text(n).last()),
        forall|k: int| 1 <= k < int_text(n).len() ==> is_digit(#[trigger] int_text(n)[k]),
        !looks_like_float(int_text(n)),
{
    let m: nat = if n < 0 {
        (-n) as nat
    } else {
        n as nat
    };
    lemma_nat_text_digits(m);
    let t = int_text(n);
    if n < 0 {
        assert(t == seq![0x2Du8] + nat_text(m));
        assert forall|k: int| 1 <= k < t.len() implies is_digit(#[trigger] t[k]) by {
            assert(t[k] == nat_text(m)[k - 1]);
        }
        assert(t.last() == nat_text(m).last());
    }
    assert forall|k: int| 0 <= k < t.len() implies !(t[k] == 0x2E || t[k] == 0x45 || t[k] == 0x65
        || t[k] == 0x44 || t[k] == 0x64) by {
        if k >= 1 {
            assert(is_digit(t[k]));
        }
    }
}

/// A keyword record's value field holding an integer reads back as it.
proof fn lemma_field_integer(e: Seq<u8>, n: i64, c: Option<Seq<char>>)
    requires
        readable_comment(c),
        ({
            let t = int_text(n as int);
            let k = if t.len() < 20 {
                20 - t.len()
            } else {
                0
            };
            &&& forall|i: int| 10 <= i < 10 + k ==> e[i] == SPACE
            &&& forall|i: int| 0 <= i < t.len() ==> e[10 + k + i] == t[i]
            &&& tail_is(e, 10 + k + t.len(), c)
        }),
    ensures
        value_field(e, 10, 80) == Some((ValueModel::Integer(n), read_back_comment(c))),
{
    let t = int_text(n as int);
    let k: int = if t.len() < 20 {
        20 - t.len()
    } else {
        0
    };
    let j = 10 + k;
    let p = j + t.len();
    lemma_int_text_shape(n as int);
    int_text_law(n);
    lemma_tail(e, p, c);
    assert(e[j] == t[0]);
    lemma_skip_to(e, 10, j, 80);
    assert forall|i: int| j <= i < p implies e[i] != 0x2F by {
        assert(e[i] == t[i - j]);
        if i > j {
            assert(is_digit(t[i - j]));
        }
    }
    let slash = match c {
        None => 80,
        Some(_) => p + 1,
    };
    lemma_find_to(e, j, slash, 80, 0x2F);
    assert(e[p - 1] == t.last());
    lemma_trim_to(e, j, p, slash);
    assert(e.subrange(j, p) =~= t);
}

/// A keyword record's value field holding a logical value reads back as it.
proof fn lemma_field_logical(e: Seq<u8>, b: bool, c: Option<Seq<char>>)
    requires
        readable_comment(c),
        forall|i: int| 10 <= i < 29 ==> e[i] == SPACE,
        e[29] == if b {
            0x54u8
        } else {
            0x46u8
        },
        tail_is(e, 30, c),
    ensures
        value_field(e, 10, 80) == Some((ValueModel::Logical(b), read_back_comment(c))),
{
    lemma_tail(e, 30, c);
    lemma_skip_to(e, 10, 29, 80);
    let slash = match c {
        None => 80,
        Some(_) => 31,
    };
    lemma_find_to(e, 29, slash, 80, 0x2F);
    lemma_trim_to(e, 29, 30, slash);
}

/// A keyword record's value field with no value reads back as undefined.
proof fn lemma_field_undefined(e: Seq<u8>, c: Option<Seq<char>>)
    requires
        readable_comment(c),
        tail_is(e, 10, c),
    ensures
        value_field(e, 10, 80) == Some((ValueModel::Undefined, read_back_comment(c))),
{
    lemma_tail(e, 10, c);
    match c {
        None => {
            lemma_find_to(e, 80, 80, 80, 0x2F);
            lemma_trim_to(e, 80, 80, 80);
        },
        Some(_) => {
            lemma_find_to(e, 11, 11, 80, 0x2F);
            lemma_trim_to(e, 11, 11, 11);
        },
    }
}


/// Spaces have no quotes to double.
proof fn lemma_escape_spaces(n: nat)
    ensures
        escape_quotes(spaces(n)) == spaces(n),
    decreases n,
{
    if n > 0 {
        lemma_escape_spaces((n - 1) as nat);
        assert(spaces(n).drop_last() =~= spaces((n - 1) as nat));
        assert(escape_quotes(spaces(n)) =~= spaces(n));
    }
}

/// Doubling quotes keeps text printable.
proof fn lemma_escape_printable(b: Seq<u8>)
    requires
        forall|k: int| 0 <= k < b.len() ==> 0x20 <= #[trigger] b[k] <= 0x7E,
    ensures
        forall|k: int| 0 <= k < escape_quotes(b).len() ==> 0x20 <= #[trigger] escape_quotes(b)[k]
            <= 0x7E,
    decreases b.len(),
{
    if b.len() > 0 {
        lemma_escape_printable(b.drop_last());
        let r = escape_quotes(b.drop_last());
        assert forall|k: int| 0 <= k < escape_quotes(b).len() implies 0x20 <= #[trigger] escape_quotes(
            b,
        )[k] <= 0x7E by {
            if k < r.len() {
                assert(escape_quotes(b)[k] == r[k]);
            }
        }
    }
}

/// A keyword record's value field holding a string reads back as it, when
/// the string is printable and does not end in a space.
proof fn lemma_field_string(e: Seq<u8>, x: Seq<char>, c: Option<Seq<char>>)
    requires
        readable_comment(c),
        printable_text(x),
        x.len() == 0 || x.last() != ' ',
        ({
            let q = super::encode::quoted_value(x);
            &&& 10 + q.len() <= 80
            &&& forall|i: int| 0 <= i < q.len() ==> e[10 + i] == q[i]
            &&& tail_is(e, 10 + q.len() as int, c)
        }),
    ensures
        value_field(e, 10, 80) == Some((ValueModel::String(x), read_back_comment(c))),
{
    let b = encode_utf8(x);
    lemma_printable_bytes(x);
    let q = super::encode::quoted_value(x);
    let width = x.len() + super::encode::char_quotes(x);
    let fill: nat = if width < 8 {
        (8 - width) as nat
    } else {
        0
    };
    let bf = b + spaces(fill);
    crate::card::long_string::lemma_escape_concat(b, spaces(fill));
    lemma_escape_spaces(fill);
    let eb = escape_quotes(bf);
    assert(eb == escape_quotes(b) + spaces(fill));
    assert(q == seq![QUOTE] + eb + seq![QUOTE]);
    let p: int = 10 + q.len() as int;
    lemma_tail(e, p, c);
    assert(q[0] == QUOTE);
    assert(e[10 + 0int] == q[0]);
    assert(e[10] == QUOTE);
    lemma_skip_to(e, 10, 10, 80);
    assert(e.subrange(11, 11 + eb.len() as int) =~= eb) by {
        assert forall|k: int| 0 <= k < eb.len() implies e[11 + k] == eb[k] by {
            assert(e[10 + (k + 1)] == q[k + 1]);
        }
    }
    assert(e[11 + eb.len() as int] == q[q.len() - 1]);
    assert(p == 11 + eb.len() + 1);
    lemma_scan_escaped(e, 11, 80, Seq::empty(), bf);
    assert(Seq::<u8>::empty() + bf =~= bf);
    assert(b.len() == 0 || b.last() != SPACE) by {
        if b.len() > 0 {
            assert(b.last() == x.last() as u8);
        }
    }
    lemma_trim_seq_spaces(b, fill);
    assert(string_at(e, 10, 80) == Some((p, b)));
}


/// Whether `c` may stand in a keyword.
pub open spec fn keyword_char(c: char) -> bool {
    ('A' <= c <= 'Z') || ('0' <= c <= '9') || c == '_' || c == '-'
}

/// Whether `kw` is the keyword of a keyword record: one to eight of `A`–`Z`,
/// `0`–`9`, `_` and `-`, and none of the keywords with a form of their own.
pub open spec fn record_keyword(kw: Seq<char>) -> bool {
    &&& keyword_text(kw)
    &&& kw != "END"@
    &&& kw != "COMMENT"@
    &&& kw != "HISTORY"@
    &&& kw != "CONTINUE"@
    &&& kw != "XTENSION"@
}

/// Whether a value reads back as written: an integer, a logical value, no
/// value, or a string of printable ASCII that does not end in a space.
pub open spec fn readable_value(v: ValueModel) -> bool {
    match v {
        ValueModel::Integer(_) => true,
        ValueModel::Logical(_) => true,
        ValueModel::Undefined => true,
        ValueModel::String(x) => printable_text(x) && (x.len() == 0 || x.last() != ' '),
        _ => false,
    }
}

/// Whether `kw` is one to eight keyword characters.
pub open spec fn keyword_text(kw: Seq<char>) -> bool {
    &&& 1 <= kw.len() <= 8
    &&& forall|k: int| 0 <= k < kw.len() ==> keyword_char(#[trigger] kw[k])
}

/// The layout of a keyword record and what is read of its keyword and of
/// its value field.
proof fn lemma_value_record(kw: Seq<char>, v: ValueModel, c: Option<Seq<char>>)
    requires
        keyword_text(kw),
        readable_value(v),
        readable_comment(c),
        value_text(v) matches Some(t) && with_comment(t, c).len() <= 70,
    ensures
        ({
            let e = value_record(kw, value_text(v)->0, c);
            &&& e.len() == 80
            &&& all_printable(e)
            &&& trim_end(e, 0, 8) == kw.len()
            &&& ascii_chars(e.subrange(0, kw.len() as int)) == kw
            &&& forall|k: int| 0 <= k < kw.len() ==> is_keyword_byte(#[trigger] e[k])
            &&& super::has_value_indicator(e)
            &&& value_field(e, 10, 80) == Some((v, read_back_comment(c)))
            &&& (v is String ==> e[10] == QUOTE && skip_spaces(e, 10, 80) == 10)
        }),
{
    let t = value_text(v)->0;
    let tt = with_comment(t, c);
    let e = value_record(kw, t, c);
    assert(printable_text(kw)) by {
        assert forall|k: int| 0 <= k < kw.len() implies ' ' <= #[trigger] kw[k] <= '~' by {
            assert(keyword_char(kw[k]));
        }
    }
    lemma_printable_bytes(kw);
    let kwb = encode_utf8(kw);
    let l = kwb.len() as int;
    assert(pad(kwb, 8) =~= kwb + spaces((8 - l) as nat));
    assert(pad(tt, 70) =~= tt + spaces((70 - tt.len()) as nat));
    assert(e.len() == 80);
    assert forall|k: int| 0 <= k < l implies e[k] == #[trigger] kwb[k] by {}
    assert forall|k: int| l <= k < 8 implies e[k] == SPACE by {}
    assert(e[8] == 0x3D && e[9] == SPACE);
    assert forall|k: int| 0 <= k < tt.len() implies e[10 + k] == #[trigger] tt[k] by {}
    assert forall|k: int| 10 + tt.len() <= k < 80 implies e[k] == SPACE by {}
    // the tail after the value text
    let p: int = 10 + t.len() as int;
    assert(tail_is(e, p, c)) by {
        match c {
            None => {},
            Some(x) => {
                lemma_printable_bytes(x);
                let xb = encode_utf8(x);
                assert(tt == t + seq![SPACE, 0x2Fu8, SPACE] + xb);
                assert(e[p] == tt[t.len() as int]);
                assert(e[p + 1] == tt[t.len() as int + 1]);
                assert(e[p + 2] == tt[t.len() as int + 2]);
                assert forall|k: int| 0 <= k < xb.len() implies e[p + 3 + k] == xb[k] by {
                    assert(e[10 + (t.len() + 3 + k)] == tt[t.len() + 3 + k]);
                }
            },
        }
    }
    assert forall|k: int| 0 <= k < t.len() implies e[10 + k] == #[trigger] t[k] by {
        assert(tt[k] == t[k]);
    }
    // the value field
    match v {
        ValueModel::Integer(n) => {
            let it = int_text(n as int);
            let sp: int = if it.len() < 20 {
                20 - it.len()
            } else {
                0
            };
            assert(t == spaces(sp as nat) + it);
            assert forall|i: int| 10 <= i < 10 + sp implies e[i] == SPACE by {
                assert(e[10 + (i - 10)] == t[i - 10]);
            }
            assert forall|i: int| 0 <= i < it.len() implies e[10 + sp + i] == it[i] by {
                assert(e[10 + (sp + i)] == t[sp + i]);
            }
            lemma_field_integer(e, n, c);
        },
        ValueModel::Logical(b) => {
            assert forall|i: int| 10 <= i < 29 implies e[i] == SPACE by {
                assert(e[10 + (i - 10)] == t[i - 10]);
            }
            assert(e[10 + 19int] == t[19]);
            lemma_field_logical(e, b, c);
        },
        ValueModel::Undefined => {
            lemma_field_undefined(e, c);
        },
        ValueModel::String(x) => {
            assert forall|i: int| 0 <= i < t.len() implies e[10 + i] == t[i] by {}
            lemma_field_string(e, x, c);
            assert(e[10 + 0int] == t[0]);
            lemma_skip_to(e, 10, 10, 80);
        },
        _ => {},
    }
    // the keyword
    assert(e[l - 1] == kwb[l - 1]);
    assert(kwb[l - 1] == kw[l - 1] as u8);
    assert(keyword_char(kw[l - 1]));
    lemma_trim_to(e, 0, l, 8);
    assert(e.subrange(0, l) =~= kwb);
    assert(ascii_chars(e.subrange(0, l)) == kw);
    assert forall|k: int| 0 <= k < l implies is_keyword_byte(#[trigger] e[k]) by {
        assert(e[k] == kw[k] as u8);
        assert(keyword_char(kw[k]));
    }
    // every byte printable
    assert forall|k: int| 0 <= k < 80 implies super::scan::is_printable(#[trigger] e[k]) by {
        if k < l {
            assert(e[k] == kwb[k]);
        } else if k < 10 {
        } else if k < 10 + t.len() {
            assert(e[k] == t[k - 10]);
            lemma_value_text_printable(v);
        } else if k < 10 + tt.len() {
            match c {
                Some(x) => {
                    lemma_printable_bytes(x);
                    let xb = encode_utf8(x);
                    assert(tt == t + seq![SPACE, 0x2Fu8, SPACE] + xb);
                    assert(e[k] == tt[k - 10]);
                    if k >= 10 + t.len() + 3 {
                        assert(tt[k - 10] == xb[k - 10 - t.len() - 3]);
                    }
                },
                None => {},
            }
        }
    }
}

/// Writing a keyword record and reading it back gives the card again, its
/// comment now led by the space written after the `/`: for a keyword of one
/// to eight keyword characters other than the reserved ones, an integer,
/// logical, empty or printable string value without trailing spaces, a
/// printable comment without trailing spaces, and a value and comment that
/// fit in the seventy bytes of the field.
pub proof fn keyword_record_round_trip(kw: Seq<char>, v: ValueModel, c: Option<Seq<char>>)
    requires
        record_keyword(kw),
        readable_value(v),
        readable_comment(c),
        value_text(v) matches Some(t) && with_comment(t, c).len() <= 70,
    ensures
        encoded(CardModel::Value { keyword: kw, value: v, comment: c }) matches Some(e) && e.len()
            == 80 && all_printable(e) && parse_card(e) == Ok::<CardModel, super::CardFailure>(
            CardModel::Value { keyword: kw, value: v, comment: read_back_comment(c) },
        ),
{
    reveal(encoded);
    lemma_value_record(kw, v, c);
}

/// Trimming text that neither starts nor ends with whitespace keeps it.
proof fn lemma_trim_plain(s: Seq<char>)
    requires
        s.len() > 0,
        !crate::text::is_whitespace(s[0]),
        !crate::text::is_whitespace(s.last()),
    ensures
        crate::text::trim(s) == s,
{
    assert(crate::text::ws_start(s, 0) == 0);
    assert(crate::text::ws_end(s, 0, s.len() as int) == s.len());
    assert(s.subrange(0, s.len() as int) =~= s);
}

/// Writing an XTENSION card and reading it back gives the card again, its
/// comment now led by the space written after the `/`, for a printable
/// comment without trailing spaces that fits in the record.
pub proof fn xtension_round_trip(x: XtensionType, c: Option<Seq<char>>)
    requires
        readable_comment(c),
        with_comment(super::encode::quoted_value(xtension_text(x)), c).len() <= 70,
    ensures
        encoded(CardModel::Xtension { x, comment: c }) matches Some(e) && e.len() == 80
            && all_printable(e) && parse_card(e) == Ok::<CardModel, super::CardFailure>(
            CardModel::Xtension { x, comment: read_back_comment(c) },
        ),
{
    reveal(encoded);
    reveal_strlit("XTENSION");
    reveal_strlit("IMAGE");
    reveal_strlit("BINTABLE");
    reveal_strlit("TABLE");
    reveal_strlit("END");
    reveal_strlit("COMMENT");
    reveal_strlit("HISTORY");
    reveal_strlit("CONTINUE");
    let xt = xtension_text(x);
    let kw = "XTENSION"@;
    assert(keyword_text(kw)) by {
        assert forall|k: int| 0 <= k < kw.len() implies keyword_char(#[trigger] kw[k]) by {}
    }
    assert(readable_value(ValueModel::String(xt)));
    lemma_value_record(kw, ValueModel::String(xt), c);
    let e = value_record(kw, super::encode::quoted_value(xt), c);
    assert(kw != "CONTINUE"@) by {
        assert(kw[1] != "CONTINUE"@[1]);
    }
    lemma_trim_plain(xt);
    assert(xtension_named(xt) == Some(x));
    assert(parse_card(e) == Ok::<CardModel, super::CardFailure>(
        CardModel::Xtension { x, comment: read_back_comment(c) },
    ));
}

/// Writing a CONTINUE card and reading it back gives the card again, its
/// comment now led by the space written after the `/`: for printable text
/// that does not end in a space, a comment that reads back, and a quoted
/// text and comment that fit in the seventy-one bytes after the keyword.
pub proof fn continue_round_trip(v: Seq<char>, c: Option<Seq<char>>)
    requires
        printable_text(v),
        v.len() == 0 || v.last() != ' ',
        readable_comment(c),
        with_comment(super::encode::quoted_continue(v), c).len() <= 71,
    ensures
        encoded(CardModel::Continue { value: v, comment: c }) matches Some(e) && e.len() == 80
            && all_printable(e) && parse_card(e) == Ok::<CardModel, super::CardFailure>(
            CardModel::Continue { value: v, comment: read_back_comment(c) },
        ),
{
    reveal(encoded);
    reveal_strlit("END");
    reveal_strlit("COMMENT");
    reveal_strlit("HISTORY");
    reveal_strlit("CONTINUE");
    lemma_printable_bytes(v);
    let b = encode_utf8(v);
    let eb = escape_quotes(b);
    let q = super::encode::quoted_continue(v);
    let tt = with_comment(q, c);
    let e = super::encode::continue_record(q, c);
    assert(q.len() <= 71);
    assert(pad(tt, 71) =~= tt + spaces((71 - tt.len()) as nat));
    assert(e.len() == 80);
    let kw = super::encode::continue_keyword();
    assert forall|k: int| 0 <= k < 9 implies e[k] == #[trigger] kw[k] by {}
    assert forall|k: int| 0 <= k < tt.len() implies e[9 + k] == #[trigger] tt[k] by {}
    assert forall|k: int| 9 + tt.len() <= k < 80 implies e[k] == SPACE by {}
    assert forall|k: int| 0 <= k < q.len() implies e[9 + k] == #[trigger] q[k] by {
        assert(tt[k] == q[k]);
    }
    // the keyword
    lemma_trim_to(e, 0, 8, 8);
    assert(ascii_chars(e.subrange(0, 8)) =~= "CONTINUE"@);
    assert forall|k: int| 0 <= k < 8 implies is_keyword_byte(#[trigger] e[k]) by {}
    assert("CONTINUE"@ != "COMMENT"@) by {
        assert("CONTINUE"@.len() != "COMMENT"@.len());
    }
    assert("CONTINUE"@ != "HISTORY"@) by {
        assert("CONTINUE"@.len() != "HISTORY"@.len());
    }
    // the quoted text
    let p: int = 9 + q.len() as int;
    assert(q == seq![QUOTE] + eb + seq![QUOTE]);
    assert(e[9] == q[0]);
    lemma_skip_to(e, 8, 9, 80);
    assert(e.subrange(10, 10 + eb.len() as int) =~= eb) by {
        assert forall|k: int| 0 <= k < eb.len() implies e[10 + k] == eb[k] by {
            assert(e[9 + (k + 1)] == q[k + 1]);
        }
    }
    assert(e[10 + eb.len() as int] == q[q.len() - 1]);
    assert(tail_is(e, p, c)) by {
        match c {
            None => {},
            Some(x) => {
                lemma_printable_bytes(x);
                let xb = encode_utf8(x);
                assert(tt == q + seq![SPACE, 0x2Fu8, SPACE] + xb);
                assert(e[p] == tt[q.len() as int]);
                assert(e[p + 1] == tt[q.len() as int + 1]);
                assert(e[p + 2] == tt[q.len() as int + 2]);
                assert forall|k: int| 0 <= k < xb.len() implies e[p + 3 + k] == xb[k] by {
                    assert(e[9 + (q.len() + 3 + k)] == tt[q.len() + 3 + k]);
                }
            },
        }
    }
    lemma_tail(e, p, c);
    lemma_scan_escaped(e, 10, 80, Seq::empty(), b);
    assert(Seq::<u8>::empty() + b =~= b);
    assert(b.len() == 0 || b.last() != SPACE) by {
        if b.len() > 0 {
            assert(b.last() == v.last() as u8);
        }
    }
    lemma_trim_seq_spaces(b, 0);
    assert(b + spaces(0) =~= b);
    assert(string_at(e, 8, 80) == Some((p, b)));
    // every byte printable
    lemma_escape_printable(b);
    assert forall|k: int| 0 <= k < 80 implies super::scan::is_printable(#[trigger] e[k]) by {
        if k < 9 {
        } else if k < p {
            assert(e[k] == q[k - 9]);
            if 10 <= k < p - 1 {
                assert(q[k - 9] == eb[k - 10]);
            }
        } else if k < 9 + tt.len() {
            match c {
                Some(x) => {
                    lemma_printable_bytes(x);
                    let xb = encode_utf8(x);
                    if k >= p + 3 {
                        assert(e[k] == xb[k - p - 3]);
                    }
                },
                None => {},
            }
        }
    }
}

/// The text of a value that reads back is printable.
proof fn lemma_value_text_printable(v: ValueModel)
    requires
        readable_value(v),
        value_text(v) is Some,
    ensures
        forall|k: int| 0 <= k < value_text(v)->0.len() ==> super::scan::is_printable(
            #[trigger] value_text(v)->0[k],
        ),
{
    let t = value_text(v)->0;
    match v {
        ValueModel::Integer(n) => {
            let it = int_text(n as int);
            lemma_int_text_shape(n as int);
            assert forall|k: int| 0 <= k < t.len() implies super::scan::is_printable(
                #[trigger] t[k],
            ) by {
                let sp: int = if it.len() < 20 {
                    20 - it.len()
                } else {
                    0
                };
                assert(t == spaces(sp as nat) + it);
                if k >= sp {
                    assert(t[k] == it[k - sp]);
                    if k > sp {
                        assert(is_digit(it[k - sp]));
                    }
                }
            }
        },
        ValueModel::String(x) => {
            lemma_printable_bytes(x);
            let b = encode_utf8(x);
            lemma_escape_printable(b);
            let q = t;
            assert forall|k: int| 0 <= k < q.len() implies super::scan::is_printable(#[trigger] q[k])
                by {
                let eb = escape_quotes(b);
                if 1 <= k < 1 + eb.len() {
                    assert(q[k] == eb[k - 1]);
                }
            }
        },
        _ => {},
    }
}


/// Whether a card without a value reads back as written: END, a blank
/// card, or commentary of printable ASCII, at most 72 characters and not
/// ending in a space.
pub open spec fn readable_commentary(m: CardModel) -> bool {
    match m {
        CardModel::End => true,
        CardModel::Blank => true,
        CardModel::Comment(x) => printable_text(x) && x.len() <= 72 && (x.len() == 0 || x.last()
            != ' '),
        CardModel::History(x) => printable_text(x) && x.len() <= 72 && (x.len() == 0 || x.last()
            != ' '),
        _ => false,
    }
}

/// Writing an END, blank, COMMENT or HISTORY card and reading it back gives
/// the card again.
pub proof fn commentary_round_trip(m: CardModel)
    requires
        readable_commentary(m),
    ensures
        encoded(m) matches Some(e) && e.len() == 80 && all_printable(e) && parse_card(e)
            == Ok::<CardModel, super::CardFailure>(m),
{
    reveal(encoded);
    let e = encoded(m)->0;
    reveal_strlit("END");
    reveal_strlit("COMMENT");
    reveal_strlit("HISTORY");
    match m {
        CardModel::End => {
            assert(e.len() == 80);
            lemma_trim_to(e, 0, 3, 8);
            assert(ascii_chars(e.subrange(0, 3)) =~= "END"@);
            assert forall|k: int| 0 <= k < 3 implies is_keyword_byte(#[trigger] e[k]) by {}
            assert forall|k: int| 0 <= k < 80 implies super::scan::is_printable(#[trigger] e[k])
                by {}
        },
        CardModel::Blank => {
            lemma_trim_to(e, 0, 0, 8);
            lemma_skip_to(e, 8, 80, 80);
            assert forall|k: int| 0 <= k < 80 implies super::scan::is_printable(#[trigger] e[k])
                by {}
        },
        CardModel::Comment(x) => {
            lemma_commentary(e, super::encode::comment_keyword(), x);
            assert(ascii_chars(e.subrange(0, 7)) =~= "COMMENT"@);
            assert forall|k: int| 0 <= k < 7 implies is_keyword_byte(#[trigger] e[k]) by {}
        },
        CardModel::History(x) => {
            lemma_commentary(e, super::encode::history_keyword(), x);
            assert(ascii_chars(e.subrange(0, 7)) =~= "HISTORY"@);
            assert("HISTORY"@[0] != "COMMENT"@[0]);
            assert forall|k: int| 0 <= k < 7 implies is_keyword_byte(#[trigger] e[k]) by {}
        },
        _ => {},
    }
}

/// The layout of a commentary record and what is read of its text.
proof fn lemma_commentary(e: Seq<u8>, kw: Seq<u8>, x: Seq<char>)
    requires
        kw.len() == 8,
        kw[7] == SPACE,
        forall|k: int| 0 <= k < 7 ==> 0x41 <= #[trigger] kw[k] <= 0x5A,
        e == super::encode::commentary_record(kw, x),
        printable_text(x),
        x.len() <= 72,
        x.len() == 0 || x.last() != ' ',
    ensures
        e.len() == 80,
        trim_end(e, 0, 8) == 7,
        e.subrange(0, 7) == kw.subrange(0, 7),
        ascii_chars(e.subrange(8, trim_end(e, 8, 80))) == x,
        all_printable(e),
{
    lemma_printable_bytes(x);
    let xb = encode_utf8(x);
    assert(pad(xb, 72) =~= xb + spaces((72 - xb.len()) as nat));
    assert(e.len() == 80);
    lemma_trim_to(e, 0, 7, 8);
    assert(e.subrange(0, 7) =~= kw.subrange(0, 7));
    let m: int = 8 + xb.len() as int;
    if xb.len() > 0 {
        assert(e[m - 1] == xb[xb.len() - 1]);
        assert(xb[xb.len() - 1] == x.last() as u8);
    }
    lemma_trim_to(e, 8, m, 80);
    assert(e.subrange(8, m) =~= xb);
    assert forall|k: int| 0 <= k < 80 implies super::scan::is_printable(#[trigger] e[k]) by {
        if 8 <= k < m {
            assert(e[k] == xb[k - 8]);
        }
    }
}

} // verus!
