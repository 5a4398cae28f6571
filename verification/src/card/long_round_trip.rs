//! Reading back a long string value: each of the records that a string
//! value is split into reads back as the card it was written from, and
//! stitching those cards gives back the value.
use vstd::prelude::*;
use vstd::utf8::{decode_utf8, encode_utf8, is_char_boundary, valid_utf8};

use super::encode::{char_quotes, escape_quotes, quoted_continue, quoted_value, with_comment};
use super::encode::encoded;
use super::long_string::{
    amp, continue_cards, encode_all, escaped_len, last_room, lemma_escape_concat, split_cards,
    split_from, split_index, split_then_stitch, stitch_all, stitched, split_cuts_ok,
    continue_cuts_ok,
};
use super::round_trip::{
    continue_round_trip, keyword_record_round_trip, lemma_printable_bytes, printable_text,
    read_back_comment, readable_comment, record_keyword,
};
use super::scan::QUOTE;
use super::{all_printable, parse_card, CardFailure, CardModel, ValueModel};

verus! {

/// The bytes of printable text between `i` and `j` are the bytes of its
/// characters there, and decode to them.
pub proof fn lemma_ascii_chunk(s: Seq<char>, i: int, j: int)
    requires
        printable_text(s),
        0 <= i <= j <= s.len(),
    ensures
        printable_text(s.subrange(i, j)),
        encode_utf8(s).subrange(i, j) == encode_utf8(s.subrange(i, j)),
        decode_utf8(encode_utf8(s).subrange(i, j)) == s.subrange(i, j),
{
    let t = s.subrange(i, j);
    assert(printable_text(t)) by {
        assert forall|k: int| 0 <= k < t.len() implies ' ' <= #[trigger] t[k] <= '~' by {
            assert(t[k] == s[i + k]);
        }
    }
    lemma_printable_bytes(s);
    lemma_printable_bytes(t);
    assert(encode_utf8(s).subrange(i, j) =~= encode_utf8(t)) by {
        assert forall|k: int| 0 <= k < j - i implies encode_utf8(s).subrange(i, j)[k]
            == encode_utf8(t)[k] by {
            assert(encode_utf8(s)[i + k] == s[i + k] as u8);
            assert(encode_utf8(t)[k] == t[k] as u8);
        }
    }
    vstd::utf8::encode_utf8_decode_utf8(t);
}

/// A quoted printable text takes one byte per character and one more per
/// quote.
pub proof fn lemma_escaped_width(v: Seq<char>)
    requires
        printable_text(v),
    ensures
        escaped_len(encode_utf8(v)) == v.len() + char_quotes(v),
    decreases v.len(),
{
    if v.len() > 0 {
        let n = v.len() as int;
        lemma_ascii_chunk(v, 0, n - 1);
        assert(v.subrange(0, n - 1) =~= v.drop_last());
        lemma_escaped_width(v.drop_last());
        lemma_printable_bytes(v);
        let b = encode_utf8(v);
        assert(b.drop_last() =~= b.subrange(0, n - 1));
        assert(b.last() == v.last() as u8);
    } else {
        lemma_printable_bytes(v);
        assert(encode_utf8(v) =~= Seq::<u8>::empty());
    }
}

/// The bytes that a split scan takes fit in what was left of the room.
pub proof fn lemma_split_prefix_fits(b: Seq<u8>, i: int, esc: int, max: int)
    requires
        0 <= i <= b.len(),
        esc <= max,
    ensures
        esc + escaped_len(b.subrange(i, split_from(b, i, esc, max))) <= max,
    decreases b.len() - i,
{
    super::long_string::lemma_split_from(b, i, esc, max);
    if i < b.len() {
        let w: int = if b[i] == QUOTE {
            2
        } else {
            1
        };
        if esc + w > max {
            assert(b.subrange(i, i) =~= Seq::<u8>::empty());
        } else {
            lemma_split_prefix_fits(b, i + 1, esc + w, max);
            let j = split_from(b, i + 1, esc + w, max);
            super::long_string::lemma_split_from(b, i + 1, esc + w, max);
            assert(b.subrange(i, j) =~= seq![b[i]] + b.subrange(i + 1, j));
            lemma_escape_concat(seq![b[i]], b.subrange(i + 1, j));
            reveal_with_fuel(escape_quotes, 2);
            assert(seq![b[i]].drop_last() =~= Seq::<u8>::empty());
        }
    } else {
        assert(b.subrange(i, i) =~= Seq::<u8>::empty());
    }
}

/// Text quoted for a CONTINUE record takes its escaped bytes and two
/// quotes.
pub proof fn lemma_quoted_continue_len(v: Seq<char>)
    ensures
        quoted_continue(v).len() == escaped_len(encode_utf8(v)) + 2,
{
}

/// Text quoted for a keyword record takes its escaped bytes, filled to at
/// least eight, and two quotes.
pub proof fn lemma_quoted_value_len(v: Seq<char>)
    requires
        printable_text(v),
    ensures
        quoted_value(v).len() == 2 + if escaped_len(encode_utf8(v)) < 8 {
            8
        } else {
            escaped_len(encode_utf8(v))
        },
{
    lemma_escaped_width(v);
}

/// A chunk with `&` after it: its escaped bytes are one more than the
/// chunk's.
pub proof fn lemma_chunk_amp(s: Seq<char>, i: int, j: int)
    requires
        printable_text(s),
        0 <= i <= j <= s.len(),
    ensures
        printable_text(s.subrange(i, j) + amp()),
        decode_utf8(encode_utf8(s).subrange(i, j)) + amp() == s.subrange(i, j) + amp(),
        escaped_len(encode_utf8(s.subrange(i, j) + amp())) == escaped_len(
            encode_utf8(s).subrange(i, j),
        ) + 1,
        (s.subrange(i, j) + amp()).last() == '&',
{
    lemma_ascii_chunk(s, i, j);
    let t = s.subrange(i, j) + amp();
    assert(printable_text(t)) by {
        assert forall|k: int| 0 <= k < t.len() implies ' ' <= #[trigger] t[k] <= '~' by {
            if k < j - i {
                assert(t[k] == s[i + k]);
            }
        }
    }
    lemma_escaped_width(t);
    lemma_escaped_width(s.subrange(i, j));
    assert(t.drop_last() =~= s.subrange(i, j));
}

/// The comment of a CONTINUE card.
pub open spec fn continue_comment(m: CardModel) -> Option<Seq<char>> {
    match m {
        CardModel::Continue { comment, .. } => comment,
        _ => None,
    }
}

/// Whether a CONTINUE card reads back from its record: printable text that
/// does not end in a space, a comment that reads back, and both fitting in
/// the record.
pub open spec fn readable_continue(m: CardModel) -> bool {
    match m {
        CardModel::Continue { value, comment } => {
            &&& printable_text(value)
            &&& value.len() == 0 || value.last() != ' '
            &&& readable_comment(comment)
            &&& with_comment(quoted_continue(value), comment).len() <= 71
        },
        _ => false,
    }
}

/// The CONTINUE cards that carry printable text from `pos` on each read
/// back, and only the last of them carries a comment.
pub proof fn lemma_continue_cards_readable(s: Seq<char>, pos: int, c: Option<Seq<char>>)
    requires
        printable_text(s),
        s.len() == 0 || s.last() != ' ',
        0 <= pos <= s.len(),
        readable_comment(c),
        c matches Some(x) ==> x.len() <= 66,
    ensures
        ({
            let cs = continue_cards(encode_utf8(s), pos, last_room(c), c);
            &&& forall|i: int| 0 <= i < cs.len() ==> readable_continue(#[trigger] cs[i])
            &&& forall|i: int| 0 <= i < cs.len() - 1 ==> continue_comment(#[trigger] cs[i]) is None
        }),
    decreases s.len() - pos,
{
    let b = encode_utf8(s);
    lemma_printable_bytes(s);
    let room = last_room(c);
    match c {
        Some(x) => {
            lemma_printable_bytes(x);
        },
        None => {},
    }
    if pos < s.len() {
        let n = s.len() as int;
        let rem = b.subrange(pos, n);
        lemma_ascii_chunk(s, pos, n);
        if escaped_len(rem) <= room {
            let v = s.subrange(pos, n);
            assert(v.last() == s.last());
            lemma_quoted_continue_len(v);
        } else {
            lemma_split_progress_at(rem);
            let e = split_index(rem, 68);
            lemma_split_prefix_fits(rem, 0, 0, 68);
            assert(rem.subrange(0, e) =~= b.subrange(pos, pos + e));
            lemma_chunk_amp(s, pos, pos + e);
            lemma_quoted_continue_len(s.subrange(pos, pos + e) + amp());
            lemma_continue_cards_readable(s, pos + e, c);
        }
    } else {
        lemma_quoted_continue_len(Seq::<char>::empty());
        assert(encode_utf8(Seq::<char>::empty()) =~= Seq::<u8>::empty());
        assert(escape_quotes(Seq::<u8>::empty()) =~= Seq::<u8>::empty());
    }
}

/// A split of a non-empty string takes at least one byte.
proof fn lemma_split_progress_at(rem: Seq<u8>)
    requires
        rem.len() > 0,
    ensures
        1 <= split_index(rem, 68) <= rem.len(),
{
    super::long_string::lemma_split_progress(rem, 68);
}

/// A keyword record or CONTINUE card as it reads back: its comment led by
/// the space written after the `/`.
pub open spec fn comment_read_back(m: CardModel) -> CardModel {
    match m {
        CardModel::Value { keyword, value, comment } => CardModel::Value {
            keyword,
            value,
            comment: read_back_comment(comment),
        },
        CardModel::Continue { value, comment } => CardModel::Continue {
            value,
            comment: read_back_comment(comment),
        },
        _ => m,
    }
}

/// Stitching the cards as they read back gives what stitching the cards
/// gives, as it reads back, when the string value has no comment and only
/// the last card carries one.
pub proof fn lemma_stitch_read_back(acc: CardModel, cs: Seq<CardModel>)
    requires
        acc matches CardModel::Value { comment: None, .. },
        forall|i: int| 0 <= i < cs.len() - 1 ==> continue_comment(#[trigger] cs[i]) is None,
    ensures
        stitch_all(acc, cs.map_values(|m: CardModel| comment_read_back(m))) == match stitch_all(
            acc,
            cs,
        ) {
            Some(m) => Some(comment_read_back(m)),
            None => None,
        },
    decreases cs.len(),
{
    let rcs = cs.map_values(|m: CardModel| comment_read_back(m));
    if cs.len() > 0 {
        let c0 = cs[0];
        assert(rcs[0] == comment_read_back(c0));
        assert(rcs.drop_first() =~= cs.drop_first().map_values(|m: CardModel| comment_read_back(m)));
        match stitched(acc, c0) {
            Some(n) => {
                assert(stitched(acc, comment_read_back(c0)) == Some(comment_read_back(n)));
                if cs.len() > 1 {
                    assert(continue_comment(cs[0]) is None);
                    assert(n matches CardModel::Value { comment: None, .. });
                    assert(comment_read_back(n) == n);
                    assert forall|i: int| 0 <= i < cs.drop_first().len() - 1 implies continue_comment(
                        #[trigger] cs.drop_first()[i],
                    ) is None by {
                        assert(cs.drop_first()[i] == cs[i + 1]);
                    }
                    lemma_stitch_read_back(n, cs.drop_first());
                    assert(stitch_all(acc, cs) == stitch_all(n, cs.drop_first()));
                    assert(stitch_all(acc, rcs) == stitch_all(comment_read_back(n), rcs.drop_first()));
                } else {
                    assert(cs.drop_first().len() == 0);
                    assert(rcs.drop_first().len() == 0);
                    assert(stitch_all(acc, cs) == stitch_all(n, cs.drop_first()));
                    assert(stitch_all(n, cs.drop_first()) == Some(n));
                    assert(stitch_all(acc, rcs) == stitch_all(comment_read_back(n), rcs.drop_first()));
                    assert(stitch_all(comment_read_back(n), rcs.drop_first()) == Some(comment_read_back(n)));
                }
            },
            None => {
                assert(stitched(acc, comment_read_back(c0)) is None);
                assert(stitch_all(acc, cs) is None);
                assert(stitch_all(acc, rcs) is None);
            },
        }
    } else {
        assert(comment_read_back(acc) == acc);
        assert(rcs.len() == 0);
    }
}

/// The records of cards that can all be written are their images in order.
pub proof fn lemma_encode_all(cards: Seq<CardModel>)
    requires
        forall|i: int| 0 <= i < cards.len() ==> encoded(#[trigger] cards[i]) is Some,
    ensures
        encode_all(cards) == Some(cards.map_values(|m: CardModel| encoded(m)->0)),
    decreases cards.len(),
{
    if cards.len() > 0 {
        assert forall|i: int| 0 <= i < cards.drop_first().len() implies encoded(
            #[trigger] cards.drop_first()[i],
        ) is Some by {
            assert(cards.drop_first()[i] == cards[i + 1]);
        }
        lemma_encode_all(cards.drop_first());
        assert(cards.map_values(|m: CardModel| encoded(m)->0) =~= seq![encoded(cards[0])->0]
            + cards.drop_first().map_values(|m: CardModel| encoded(m)->0));
    } else {
        assert(cards.map_values(|m: CardModel| encoded(m)->0) =~= Seq::<Seq<u8>>::empty());
    }
}

/// Whether a string value reads back from the records it is written as:
/// printable text that does not end in a space, a comment that reads back,
/// and either a value and comment that fit in one keyword record or a
/// comment of at most 66 characters for the last CONTINUE record.
pub open spec fn readable_string(s: Seq<char>, c: Option<Seq<char>>) -> bool {
    &&& printable_text(s)
    &&& s.len() == 0 || s.last() != ' '
    &&& readable_comment(c)
    &&& if escaped_len(encode_utf8(s)) <= 68 {
        with_comment(quoted_value(s), c).len() <= 70
    } else {
        c matches Some(x) ==> x.len() <= 66
    }
}

/// Each card that a string value is split into can be written, and its
/// record reads back as the card with its comment led by a space.
pub proof fn lemma_split_cards_read_back(kw: Seq<char>, s: Seq<char>, c: Option<Seq<char>>)
    requires
        record_keyword(kw),
        readable_string(s, c),
    ensures
        forall|i: int|
            0 <= i < split_cards(kw, s, c).len() ==> {
                let m = #[trigger] split_cards(kw, s, c)[i];
                &&& encoded(m) matches Some(e)
                &&& e.len() == 80
                &&& all_printable(e)
                &&& parse_card(e) == Ok::<CardModel, CardFailure>(comment_read_back(m))
            },
        split_cards(kw, s, c)[0] matches CardModel::Value { keyword: k, .. } && k == kw,
        split_cards(kw, s, c).len() >= 1,
        split_cards(kw, s, c).len() == 1 ==> split_cards(kw, s, c)[0] == (CardModel::Value {
            keyword: kw,
            value: ValueModel::String(s),
            comment: c,
        }),
        split_cards(kw, s, c).len() > 1 ==> split_cards(kw, s, c)[0] matches CardModel::Value {
            comment: None,
            ..
        },
        forall|i: int|
            0 <= i < split_cards(kw, s, c).len() - 1 ==> continue_comment(
                #[trigger] split_cards(kw, s, c)[i],
            ) is None,
        forall|i: int| 1 <= i < split_cards(kw, s, c).len() ==> #[trigger] split_cards(kw, s, c)[i] is Continue,
{
    let b = encode_utf8(s);
    lemma_printable_bytes(s);
    let cards = split_cards(kw, s, c);
    if escaped_len(b) <= 68 {
        let m = CardModel::Value { keyword: kw, value: ValueModel::String(s), comment: c };
        assert(cards == seq![m]);
        keyword_record_round_trip(kw, ValueModel::String(s), c);
    } else {
        let e = split_index(b, 67);
        super::long_string::lemma_split_progress(b, 67);
        lemma_split_prefix_fits(b, 0, 0, 67);
        lemma_chunk_amp(s, 0, e);
        let v0 = s.subrange(0, e) + amp();
        lemma_quoted_value_len(v0);
        let m0 = CardModel::Value { keyword: kw, value: ValueModel::String(v0), comment: None };
        keyword_record_round_trip(kw, ValueModel::String(v0), None);
        lemma_continue_cards_readable(s, e, c);
        let rest = continue_cards(b, e, last_room(c), c);
        assert(cards == seq![m0] + rest);
        assert(cards[0] == m0);
        if cards.len() == 1 {
            assert(rest.len() == 0);
            assert(e < b.len()) by {
                if e == b.len() {
                    super::long_string::lemma_split_all_fits(b, 0, 0, 67);
                    assert(b.subrange(0, b.len() as int) =~= b);
                }
            }
            assert(continue_cards(b, e, last_room(c), c).len() >= 1);
        }
        assert forall|i: int| 0 <= i < cards.len() implies {
            let m = #[trigger] cards[i];
            &&& encoded(m) matches Some(e)
            &&& e.len() == 80
            &&& all_printable(e)
            &&& parse_card(e) == Ok::<CardModel, CardFailure>(comment_read_back(m))
        } by {
            if i > 0 {
                assert(cards[i] == rest[i - 1]);
                assert(readable_continue(rest[i - 1]));
                match rest[i - 1] {
                    CardModel::Continue { value, comment } => {
                        continue_round_trip(value, comment);
                    },
                    _ => {},
                }
            }
        }
        assert forall|i: int| 0 <= i < cards.len() - 1 implies continue_comment(
            #[trigger] cards[i],
        ) is None by {
            if i > 0 {
                assert(cards[i] == rest[i - 1]);
            }
        }
        assert forall|i: int| 1 <= i < cards.len() implies #[trigger] cards[i] is Continue by {
            assert(cards[i] == rest[i - 1]);
            assert(readable_continue(rest[i - 1]));
        }
    }
}

/// Bytes below 0x80 are valid UTF-8, and every position in them is a
/// character boundary.
pub proof fn lemma_ascii_boundaries(b: Seq<u8>)
    requires
        forall|k: int| 0 <= k < b.len() ==> #[trigger] b[k] <= 0x7f,
    ensures
        valid_utf8(b),
        forall|i: int| 0 <= i <= b.len() ==> is_char_boundary(b, i),
    decreases b.len(),
{
    if b.len() > 0 {
        let rest = b.subrange(1, b.len() as int);
        assert forall|k: int| 0 <= k < rest.len() implies #[trigger] rest[k] <= 0x7f by {
            assert(rest[k] == b[k + 1]);
        }
        lemma_ascii_boundaries(rest);
        assert(vstd::utf8::pop_first_scalar(b) == rest);
        assert forall|i: int| 0 <= i <= b.len() implies is_char_boundary(b, i) by {
            if i > 0 {
                assert(is_char_boundary(rest, i - 1));
            }
        }
    }
}

/// The cuts of the CONTINUE cards of printable text fall between characters.
proof fn lemma_continue_cuts_ascii(b: Seq<u8>, pos: int, room: int)
    requires
        forall|i: int| 0 <= i <= b.len() ==> is_char_boundary(b, i),
    ensures
        continue_cuts_ok(b, pos, room),
    decreases b.len() - pos,
{
    if 0 <= pos < b.len() {
        let rem = b.subrange(pos, b.len() as int);
        if escaped_len(rem) > room {
            let e = split_index(rem, 68);
            if e > 0 {
                super::long_string::lemma_split_from(rem, 0, 0, 68);
                lemma_continue_cuts_ascii(b, pos + e, room);
            }
        }
    }
}

/// A printable string is cut only between characters.
pub proof fn lemma_split_cuts_ascii(s: Seq<char>, c: Option<Seq<char>>)
    requires
        printable_text(s),
    ensures
        split_cuts_ok(s, c),
{
    let b = encode_utf8(s);
    lemma_printable_bytes(s);
    lemma_ascii_boundaries(b);
    lemma_continue_cuts_ascii(b, split_index(b, 67), last_room(c));
    super::long_string::lemma_split_from(b, 0, 0, 67);
}

} // verus!
