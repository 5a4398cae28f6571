//! Long string values (4.2.1.2): splitting a string over a keyword record
//! and CONTINUE records, and stitching CONTINUE records back together.
use vstd::prelude::*;
use vstd::utf8::{decode_utf8, encode_utf8, is_char_boundary, valid_utf8};

use super::encode::{encoded, escape_quotes};
use super::scan::QUOTE;
use super::{opt_view, Card, CardModel, CardValue, ValueModel};
use crate::error::Error;

verus! {

/// Bytes taken by `b` once its quotes are doubled.
pub open spec fn escaped_len(b: Seq<u8>) -> nat {
    escape_quotes(b).len()
}

/// The split scan from position `i`, `esc` escaped bytes being used so far.
pub open spec fn split_from(b: Seq<u8>, i: int, esc: int, max: int) -> int
    decreases b.len() - i,
{
    if i >= b.len() {
        b.len() as int
    } else {
        let w = if b[i] == QUOTE {
            2int
        } else {
            1int
        };
        if esc + w > max {
            i
        } else {
            split_from(b, i + 1, esc + w, max)
        }
    }
}

pub proof fn lemma_split_from(b: Seq<u8>, i: int, esc: int, max: int)
    requires
        0 <= i <= b.len(),
    ensures
        i <= split_from(b, i, esc, max) <= b.len(),
    decreases b.len() - i,
{
    if i < b.len() {
        let w = if b[i] == QUOTE {
            2int
        } else {
            1int
        };
        if esc + w <= max {
            lemma_split_from(b, i + 1, esc + w, max);
        }
    }
}

/// The number of bytes of `b` whose escaped form fits in `max` bytes.
pub open spec fn split_index(b: Seq<u8>, max: int) -> int {
    split_from(b, 0, 0, max)
}

/// Room for the string in the last CONTINUE record once ` / ` and the comment
/// are written after it.
pub open spec fn last_room(c: Option<Seq<char>>) -> int {
    match c {
        Some(c) => if encode_utf8(c).len() <= 66 {
            66 - encode_utf8(c).len()
        } else {
            0
        },
        None => 69,
    }
}

/// The string `"&"`.
pub open spec fn amp() -> Seq<char> {
    seq!['&']
}

/// The CONTINUE cards that carry the bytes of `b` from `pos` on: chunks of at
/// most 68 escaped bytes, each ending in `&`, until the rest fits in
/// `room` and carries the comment; if the rest ran out before that, a last
/// card carries the comment alone.
pub open spec fn continue_cards(b: Seq<u8>, pos: int, room: int, c: Option<Seq<char>>) -> Seq<CardModel>
    decreases b.len() - pos,
{
    if !(0 <= pos < b.len()) {
        match c {
            Some(_) => seq![CardModel::Continue { value: Seq::empty(), comment: c }],
            None => Seq::empty(),
        }
    } else {
        let rem = b.subrange(pos, b.len() as int);
        if escaped_len(rem) <= room {
            seq![CardModel::Continue { value: decode_utf8(rem), comment: c }]
        } else {
            let e = split_index(rem, 68);
            let card = CardModel::Continue {
                value: decode_utf8(rem.subrange(0, e)) + amp(),
                comment: None,
            };
            if e <= 0 {
                seq![card]
            } else {
                proof {
                    lemma_split_from(rem, 0, 0, 68);
                }
                seq![card] + continue_cards(b, pos + e, room, c)
            }
        }
    }
}

/// Whether every position where `continue_cards` cuts `b` is a character boundary.
pub open spec fn continue_cuts_ok(b: Seq<u8>, pos: int, room: int) -> bool
    decreases b.len() - pos,
{
    if !(0 <= pos < b.len()) {
        true
    } else {
        let rem = b.subrange(pos, b.len() as int);
        if escaped_len(rem) <= room {
            true
        } else {
            let e = split_index(rem, 68);
            if e <= 0 {
                true
            } else {
                proof {
                    lemma_split_from(rem, 0, 0, 68);
                }
                is_char_boundary(b, pos + e) && continue_cuts_ok(b, pos + e, room)
            }
        }
    }
}

/// The cards that a string value is written as (4.2.1.2): one keyword record
/// when its escaped form takes at most 68 bytes; otherwise a keyword record
/// with the first 67 escaped bytes and `&`, then CONTINUE cards.
pub open spec fn split_cards(kw: Seq<char>, s: Seq<char>, c: Option<Seq<char>>) -> Seq<CardModel> {
    let b = encode_utf8(s);
    if escaped_len(b) <= 68 {
        seq![CardModel::Value { keyword: kw, value: ValueModel::String(s), comment: c }]
    } else {
        let e = split_index(b, 67);
        seq![
            CardModel::Value {
                keyword: kw,
                value: ValueModel::String(decode_utf8(b.subrange(0, e)) + amp()),
                comment: None,
            },
        ] + continue_cards(b, e, last_room(c), c)
    }
}

/// Whether `split_cards` cuts the string only at character boundaries.
pub open spec fn split_cuts_ok(s: Seq<char>, c: Option<Seq<char>>) -> bool {
    let b = encode_utf8(s);
    escaped_len(b) <= 68 || (is_char_boundary(b, split_index(b, 67)) && continue_cuts_ok(
        b,
        split_index(b, 67),
        last_room(c),
    ))
}

/// The card images of `cards`, or `None` when one of them cannot be written.
pub open spec fn encode_all(cards: Seq<CardModel>) -> Option<Seq<Seq<u8>>>
    decreases cards.len(),
{
    if cards.len() == 0 {
        Some(Seq::empty())
    } else {
        match (encoded(cards[0]), encode_all(cards.drop_first())) {
            (Some(r), Some(rs)) => Some(seq![r] + rs),
            _ => None,
        }
    }
}

/// The card after `cur` is stitched onto `prev` (4.2.1.2): `None` unless
/// `cur` is a CONTINUE card and `prev` a string value ending in `&`. The `&`
/// is replaced by the continued text; a continued comment replaces a
/// trailing `&` of the comment, is joined to it by a space, or becomes it.
pub open spec fn stitched(prev: CardModel, cur: CardModel) -> Option<CardModel> {
    match cur {
        CardModel::Continue { value: cont, comment: cont_comment } => match prev {
            CardModel::Value { keyword, value: ValueModel::String(s), comment } => if s.len() > 0
                && s.last() == '&' {
                Some(
                    CardModel::Value {
                        keyword,
                        value: ValueModel::String(s.drop_last() + cont),
                        comment: match cont_comment {
                            None => comment,
                            Some(x) => match comment {
                                Some(c) => if c.len() > 0 && c.last() == '&' {
                                    Some(c.drop_last() + x)
                                } else {
                                    Some(c.push(' ') + x)
                                },
                                None => Some(x),
                            },
                        },
                    },
                )
            } else {
                None
            },
            _ => None,
        },
        _ => None,
    }
}

/// Whether the escaped form of `b` takes at most `max` bytes.
fn escaped_len_at_most(b: &[u8], max: usize) -> (r: bool)
    ensures
        r == (escaped_len(b@) <= max),
{
    let mut k: usize = 0;
    let mut esc: usize = 0;
    while k < b.len()
        invariant
            k <= b@.len(),
            esc == escaped_len(b@.subrange(0, k as int)),
            esc <= max,
        decreases b@.len() - k,
    {
        assert(b@.subrange(0, k + 1).drop_last() =~= b@.subrange(0, k as int));
        let w: usize = if b[k] == QUOTE {
            2
        } else {
            1
        };
        if w > max - esc {
            proof {
                lemma_escaped_len_prefix(b@, k + 1);
            }
            return false;
        }
        esc = esc + w;
        k = k + 1;
    }
    assert(b@.subrange(0, b@.len() as int) =~= b@);
    true
}

/// The escaped length of a prefix of `b` is at most that of `b`.
proof fn lemma_escaped_len_prefix(b: Seq<u8>, k: int)
    requires
        0 <= k <= b.len(),
    ensures
        escaped_len(b.subrange(0, k)) <= escaped_len(b),
    decreases b.len() - k,
{
    if k < b.len() {
        lemma_escaped_len_prefix(b, k + 1);
        assert(b.subrange(0, k + 1).drop_last() =~= b.subrange(0, k));
    } else {
        assert(b.subrange(0, k) =~= b);
    }
}

/// The number of bytes of `b` whose escaped form fits in `max` bytes.
fn escape_split_index(b: &[u8], max: usize) -> (r: usize)
    ensures
        r == split_index(b@, max as int),
        r <= b@.len(),
{
    let mut k: usize = 0;
    let mut esc: usize = 0;
    while k < b.len()
        invariant
            k <= b@.len(),
            esc <= max,
            split_index(b@, max as int) == split_from(b@, k as int, esc as int, max as int),
        decreases b@.len() - k,
    {
        let w: usize = if b[k] == QUOTE {
            2
        } else {
            1
        };
        if w > max - esc {
            return k;
        }
        esc = esc + w;
        k = k + 1;
    }
    k
}

/// Room left for the string in the last CONTINUE record.
fn comment_max_last(comment: &Option<String>) -> (r: usize)
    ensures
        r == last_room(opt_view(*comment)),
{
    match comment {
        Some(c) => {
            let n = c.as_str().as_bytes().len();
            if n <= 66 {
                66 - n
            } else {
                0
            }
        },
        None => 69,
    }
}


/// Quoting commutes with concatenation.
pub proof fn lemma_escape_concat(a: Seq<u8>, b: Seq<u8>)
    ensures
        escape_quotes(a + b) == escape_quotes(a) + escape_quotes(b),
    decreases b.len(),
{
    if b.len() == 0 {
        assert(a + b =~= a);
        assert(escape_quotes(a) + escape_quotes(b) =~= escape_quotes(a));
    } else {
        lemma_escape_concat(a, b.drop_last());
        assert((a + b).drop_last() =~= a + b.drop_last());
        assert((a + b).last() == b.last());
        if b.last() == QUOTE {
            assert(escape_quotes(a + b) =~= escape_quotes(a) + escape_quotes(b));
        } else {
            assert(escape_quotes(a + b) =~= escape_quotes(a) + escape_quotes(b));
        }
    }
}

/// When all of `b[i..]` fits, the scan takes all of `b`.
proof fn lemma_split_takes_all(b: Seq<u8>, i: int, esc: int, max: int)
    requires
        0 <= i <= b.len(),
        esc + escaped_len(b.subrange(i, b.len() as int)) <= max,
    ensures
        split_from(b, i, esc, max) == b.len(),
    decreases b.len() - i,
{
    if i < b.len() {
        let rest = b.subrange(i + 1, b.len() as int);
        assert(b.subrange(i, b.len() as int) =~= seq![b[i]] + rest);
        lemma_escape_concat(seq![b[i]], rest);
        assert(seq![b[i]].drop_last() =~= Seq::<u8>::empty());
        lemma_split_takes_all(b, i + 1, esc + if b[i] == QUOTE {
            2int
        } else {
            1int
        }, max);
    }
}

/// A scan with room for one quoted byte takes at least one byte.
pub proof fn lemma_split_progress(b: Seq<u8>, max: int)
    requires
        b.len() > 0,
        max >= 2,
    ensures
        1 <= split_index(b, max) <= b.len(),
{
    lemma_split_from(b, 1, if b[0] == QUOTE {
        2int
    } else {
        1int
    }, max);
}

/// A boundary of `b` past `pos` is a boundary of `b[pos..]`.
proof fn lemma_boundary_suffix(b: Seq<u8>, pos: int, e: int)
    requires
        valid_utf8(b),
        0 <= pos <= b.len(),
        0 <= e <= b.len() - pos,
        is_char_boundary(b, pos),
        is_char_boundary(b, pos + e),
    ensures
        valid_utf8(b.subrange(pos, b.len() as int)),
        is_char_boundary(b.subrange(pos, b.len() as int), e),
{
    let rem = b.subrange(pos, b.len() as int);
    vstd::utf8::valid_utf8_split(b, pos);
    if e == rem.len() {
        vstd::utf8::is_char_boundary_start_end_of_seq(rem);
    } else if e > 0 {
        vstd::utf8::is_char_boundary_iff_not_is_continuation_byte(rem, e);
        vstd::utf8::is_char_boundary_iff_not_is_continuation_byte(b, pos + e);
    }
}

/// A copy of the comment.
fn copy_comment(c: &Option<String>) -> (r: Option<String>)
    ensures
        opt_view(r) == opt_view(*c),
{
    match c {
        Some(s) => Some(s.clone()),
        None => None,
    }
}

/// The records of the cards `split_cards` writes a string value as.
pub open spec fn split_records(kw: Seq<char>, s: Seq<char>, c: Option<Seq<char>>) -> Option<Seq<Seq<u8>>> {
    encode_all(split_cards(kw, s, c))
}

/// `done` followed by `rest`, when `rest` is there.
pub open spec fn then(done: Seq<Seq<u8>>, rest: Option<Seq<Seq<u8>>>) -> Option<Seq<Seq<u8>>> {
    match rest {
        Some(rs) => Some(done + rs),
        None => None,
    }
}

/// The views of card images.
pub open spec fn record_views(v: Seq<[u8; 80]>) -> Seq<Seq<u8>> {
    v.map_values(|a: [u8; 80]| a@)
}

/// Encodes `card` after the records `out`, or gives the error.
fn push_encoded(out: &mut Vec<[u8; 80]>, card: Card) -> (r: Result<(), Error>)
    ensures
        match encoded(card@) {
            Some(b) => r is Ok && record_views(final(out)@) == record_views(old(out)@).push(b),
            None => r matches Err(e) && e is InvalidCard,
        },
{
    match card.encode() {
        Ok(a) => {
            let ghost before = out@;
            out.push(a);
            assert(record_views(out@) =~= record_views(before).push(a@));
            Ok(())
        },
        Err(e) => Err(e),
    }
}

/// `encode_all` of a card followed by more cards.
proof fn lemma_encode_all_cons(x: CardModel, rest: Seq<CardModel>)
    ensures
        encode_all(seq![x] + rest) == match (encoded(x), encode_all(rest)) {
            (Some(r), Some(rs)) => Some(seq![r] + rs),
            _ => None,
        },
{
    assert((seq![x] + rest).drop_first() =~= rest);
}

/// Appending the image of the next card keeps the records and the cards
/// still to write in step.
proof fn lemma_then_step(done: Seq<Seq<u8>>, x: CardModel, rest: Seq<CardModel>, r: Seq<u8>)
    requires
        encoded(x) == Some(r),
    ensures
        then(done, encode_all(seq![x] + rest)) == then(done.push(r), encode_all(rest)),
{
    lemma_encode_all_cons(x, rest);
    match encode_all(rest) {
        Some(rs) => {
            assert(done + (seq![r] + rs) =~= done.push(r) + rs);
        },
        None => {},
    }
}

/// A card that cannot be written leaves nothing to write.
proof fn lemma_then_fail(done: Seq<Seq<u8>>, x: CardModel, rest: Seq<CardModel>)
    requires
        encoded(x) is None,
    ensures
        then(done, encode_all(seq![x] + rest)) is None,
{
    lemma_encode_all_cons(x, rest);
}

/// 4.2.1.2 Writes a string value as a keyword record followed by as many
/// CONTINUE records as it needs (see `split_cards`). The comment goes on the
/// last record only; where the last piece of the string leaves no room for
/// it, a last CONTINUE record carries the comment alone.
pub fn split_long_string(keyword: &str, s: &str, comment: &Option<String>) -> (r: Result<Vec<[u8; 80]>, Error>)
    requires
        split_cuts_ok(s@, opt_view(*comment)),
    ensures
        match split_records(keyword@, s@, opt_view(*comment)) {
            Some(rs) => r matches Ok(v) && record_views(v@) == rs,
            None => r matches Err(e) && e is InvalidCard,
        },
{
    let ghost c = opt_view(*comment);
    let ghost b = encode_utf8(s@);
    let sb = s.as_bytes();
    let mut records: Vec<[u8; 80]> = Vec::new();
    proof {
        vstd::utf8::encode_utf8_valid_utf8(s@);
        vstd::utf8::encode_utf8_decode_utf8(s@);
    }
    if escaped_len_at_most(sb, 68) {
        let card = Card::Value {
            keyword: keyword.to_owned(),
            value: CardValue::String(s.to_owned()),
            comment: copy_comment(comment),
        };
        let ghost x = card@;
        proof {
            assert(split_cards(keyword@, s@, c) =~= seq![x] + Seq::<CardModel>::empty());
            assert(record_views(records@) =~= Seq::<Seq<u8>>::empty());
        }
        match push_encoded(&mut records, card) {
            Ok(()) => {
                proof {
                    lemma_then_step(Seq::empty(), x, Seq::empty(), encoded(x)->0);
                    assert(Seq::<Seq<u8>>::empty().push(encoded(x)->0) + Seq::<Seq<u8>>::empty()
                        =~= record_views(records@));
                }
            },
            Err(e) => {
                proof {
                    lemma_then_fail(Seq::empty(), x, Seq::empty());
                }
                return Err(e);
            },
        }
        return Ok(records);
    }
    let end = escape_split_index(sb, 67);
    let (head, tail) = s.split_at(end);
    proof {
        vstd::utf8::encode_utf8_decode_utf8(head@);
        assert(encode_utf8(head@) =~= b.subrange(0, end as int));
    }
    let first = Card::Value {
        keyword: keyword.to_owned(),
        value: CardValue::String(head.to_owned().concat("&")),
        comment: None,
    };
    let room = comment_max_last(comment);
    let ghost x = first@;
    let ghost mut todo = continue_cards(b, end as int, room as int, c);
    proof {
        assert(head@ + "&"@ == decode_utf8(b.subrange(0, end as int)) + amp()) by {
            reveal_strlit("&");
        }
        assert(split_cards(keyword@, s@, c) =~= seq![x] + todo);
        assert(record_views(records@) =~= Seq::<Seq<u8>>::empty());
    }
    match push_encoded(&mut records, first) {
        Ok(()) => {
            proof {
                lemma_then_step(Seq::empty(), x, todo, encoded(x)->0);
                assert(Seq::<Seq<u8>>::empty().push(encoded(x)->0) =~= record_views(records@));
            }
        },
        Err(e) => {
            proof {
                lemma_then_fail(Seq::empty(), x, todo);
            }
            return Err(e);
        },
    }
    let mut remaining = tail;
    let ghost mut pos: int = end as int;
    let mut comment_written = false;
    proof {
        assert(encode_utf8(remaining@) =~= b.subrange(pos, b.len() as int));
    }
    while remaining.as_bytes().len() > 0
        invariant
            b == encode_utf8(s@),
            valid_utf8(b),
            c == opt_view(*comment),
            room == last_room(c),
            0 <= pos <= b.len(),
            is_char_boundary(b, pos),
            encode_utf8(remaining@) == b.subrange(pos, b.len() as int),
            comment_written ==> pos == b.len(),
            continue_cuts_ok(b, pos, room as int),
            todo == if comment_written {
                Seq::<CardModel>::empty()
            } else {
                continue_cards(b, pos, room as int, c)
            },
            split_records(keyword@, s@, c) == then(record_views(records@), encode_all(todo)),
        decreases b.len() - pos,
    {
        let rb = remaining.as_bytes();
        let ghost rem = b.subrange(pos, b.len() as int);
        let is_last = escaped_len_at_most(rb, room);
        let max: usize = if is_last {
            room
        } else {
            68
        };
        let cut = escape_split_index(rb, max);
        proof {
            if is_last {
                assert(rem.subrange(0, rem.len() as int) =~= rem);
                lemma_split_takes_all(rem, 0, 0, room as int);
                vstd::utf8::is_char_boundary_start_end_of_seq(b);
            } else {
                lemma_split_progress(rem, 68);
            }
            lemma_boundary_suffix(b, pos, cut as int);
        }
        let (chunk, rest) = remaining.split_at(cut);
        proof {
            vstd::utf8::encode_utf8_decode_utf8(chunk@);
            assert(encode_utf8(chunk@) =~= rem.subrange(0, cut as int));
        }
        let card = if is_last {
            Card::Continue { value: chunk.to_owned(), comment: copy_comment(comment) }
        } else {
            Card::Continue { value: chunk.to_owned().concat("&"), comment: None }
        };
        let ghost x = card@;
        let ghost next = if is_last {
            Seq::<CardModel>::empty()
        } else {
            continue_cards(b, pos + cut, room as int, c)
        };
        proof {
            if is_last {
                assert(rem.subrange(0, cut as int) =~= rem);
            } else {
                assert(chunk@ + "&"@ == decode_utf8(rem.subrange(0, cut as int)) + amp()) by {
                    reveal_strlit("&");
                }
            }
            assert(todo =~= seq![x] + next);
        }
        let ghost done = record_views(records@);
        match push_encoded(&mut records, card) {
            Ok(()) => {
                proof {
                    lemma_then_step(done, x, next, encoded(x)->0);
                }
            },
            Err(e) => {
                proof {
                    lemma_then_fail(done, x, next);
                }
                return Err(e);
            },
        }
        if is_last {
            comment_written = true;
        }
        proof {
            assert(encode_utf8(rest@) =~= b.subrange(pos + cut, b.len() as int));
            pos = pos + cut;
            todo = next;
        }
        remaining = rest;
    }
    proof {
        assert(encode_utf8(remaining@).len() == 0);
        assert(pos == b.len());
    }
    if comment.is_some() && !comment_written {
        let card = Card::Continue { value: String::new(), comment: copy_comment(comment) };
        let ghost x = card@;
        proof {
            assert(todo =~= seq![x] + Seq::<CardModel>::empty());
        }
        let ghost done = record_views(records@);
        match push_encoded(&mut records, card) {
            Ok(()) => {
                proof {
                    lemma_then_step(done, x, Seq::empty(), encoded(x)->0);
                    assert(record_views(records@) + Seq::<Seq<u8>>::empty() =~= record_views(
                        records@,
                    ));
                }
            },
            Err(e) => {
                proof {
                    lemma_then_fail(done, x, Seq::empty());
                }
                return Err(e);
            },
        }
        return Ok(records);
    }
    proof {
        assert(record_views(records@) + Seq::<Seq<u8>>::empty() =~= record_views(records@));
    }
    Ok(records)
}


/// Whether `s` ends with `&`.
fn ends_with_amp(s: &str) -> (r: bool)
    ensures
        r == (s@.len() > 0 && s@.last() == '&'),
{
    let n = s.unicode_len();
    n > 0 && s.get_char(n - 1) == '&'
}

/// `s` without its last character, then `t`.
fn replace_last(s: &String, t: &str) -> (r: String)
    requires
        s@.len() > 0,
    ensures
        r@ == s@.drop_last() + t@,
{
    let n = s.as_str().unicode_len();
    let head = s.as_str().substring_char(0, n - 1);
    assert(head@ =~= s@.drop_last());
    head.to_owned().concat(t)
}

/// 4.2.1.2 Stitches a CONTINUE card onto the card before it (see
/// `stitched`): true when it did, the card before being changed; false, and
/// nothing changed, otherwise.
pub fn stitch_continue(prev: Option<&mut Card>, current: &Card) -> (r: bool)
    ensures
        match prev {
            Some(p) => match stitched((*p)@, current@) {
                Some(m) => r && (*final(p))@ == m,
                None => !r && (*final(p))@ == (*p)@,
            },
            None => !r,
        },
{
    match prev {
        None => false,
        Some(p) => {
            let next = stitched_card(&*p, current);
            match next {
                Some(c) => {
                    *p = c;
                    true
                },
                None => false,
            }
        },
    }
}

/// The comment of a stitched card.
fn stitched_comment(comment: &Option<String>, cont_comment: &Option<String>) -> (r: Option<String>)
    ensures
        opt_view(r) == match opt_view(*cont_comment) {
            None => opt_view(*comment),
            Some(x) => match opt_view(*comment) {
                Some(c) => if c.len() > 0 && c.last() == '&' {
                    Some(c.drop_last() + x)
                } else {
                    Some(c.push(' ') + x)
                },
                None => Some(x),
            },
        },
{
    match cont_comment {
        None => copy_comment(comment),
        Some(x) => match comment {
            Some(c) => if ends_with_amp(c.as_str()) {
                Some(replace_last(c, x.as_str()))
            } else {
                let r = c.clone().concat(" ").concat(x.as_str());
                proof {
                    reveal_strlit(" ");
                    assert(r@ =~= c@.push(' ') + x@);
                }
                Some(r)
            },
            None => Some(x.clone()),
        },
    }
}

/// The card `stitched` gives, built anew.
pub(crate) fn stitched_card(prev: &Card, current: &Card) -> (r: Option<Card>)
    ensures
        match stitched(prev@, current@) {
            Some(m) => r matches Some(c) && c@ == m,
            None => r is None,
        },
{
    match current {
        Card::Continue { value: cont, comment: cont_comment } => match prev {
            Card::Value { keyword, value: CardValue::String(s), comment } => {
                if !ends_with_amp(s.as_str()) {
                    return None;
                }
                Some(
                    Card::Value {
                        keyword: keyword.clone(),
                        value: CardValue::String(replace_last(s, cont.as_str())),
                        comment: stitched_comment(comment, cont_comment),
                    },
                )
            },
            _ => None,
        },
        _ => None,
    }
}


/// The card that stitching `cards` one after another onto `acc` gives;
/// `None` when one of them does not stitch.
pub open spec fn stitch_all(acc: CardModel, cards: Seq<CardModel>) -> Option<CardModel>
    decreases cards.len(),
{
    if cards.len() == 0 {
        Some(acc)
    } else {
        match stitched(acc, cards[0]) {
            Some(n) => stitch_all(n, cards.drop_first()),
            None => None,
        }
    }
}

/// A scan that takes all of `b[i..]` had room for all of it.
pub proof fn lemma_split_all_fits(b: Seq<u8>, i: int, esc: int, max: int)
    requires
        0 <= i <= b.len(),
        split_from(b, i, esc, max) == b.len(),
        esc <= max,
    ensures
        esc + escaped_len(b.subrange(i, b.len() as int)) <= max,
    decreases b.len() - i,
{
    if i < b.len() {
        let rest = b.subrange(i + 1, b.len() as int);
        assert(b.subrange(i, b.len() as int) =~= seq![b[i]] + rest);
        lemma_escape_concat(seq![b[i]], rest);
        assert(seq![b[i]].drop_last() =~= Seq::<u8>::empty());
        let w = if b[i] == QUOTE {
            2int
        } else {
            1int
        };
        reveal_with_fuel(escape_quotes, 2);
        assert(escaped_len(seq![b[i]]) == w);
        assert(esc + w <= max);
        lemma_split_all_fits(b, i + 1, esc + w, max);
        assert(escaped_len(b.subrange(i, b.len() as int)) == w + escaped_len(rest));
    } else {
        assert(b.subrange(i, b.len() as int) =~= Seq::<u8>::empty());
    }
}

/// Boundaries of `b` up to `q` are boundaries of `b[..q]`.
proof fn lemma_boundary_prefix(b: Seq<u8>, p: int, q: int)
    requires
        valid_utf8(b),
        0 <= p <= q <= b.len(),
        is_char_boundary(b, p),
        is_char_boundary(b, q),
    ensures
        valid_utf8(b.subrange(0, q)),
        is_char_boundary(b.subrange(0, q), p),
{
    let pre = b.subrange(0, q);
    vstd::utf8::valid_utf8_split(b, q);
    if p == q {
        vstd::utf8::is_char_boundary_start_end_of_seq(pre);
    } else if p > 0 {
        vstd::utf8::is_char_boundary_iff_not_is_continuation_byte(pre, p);
        vstd::utf8::is_char_boundary_iff_not_is_continuation_byte(b, p);
    }
}

/// Decoding `b[..q]` is decoding `b[..p]` and then `b[p..q]`.
proof fn lemma_decode_prefixes(b: Seq<u8>, p: int, q: int)
    requires
        valid_utf8(b),
        0 <= p <= q <= b.len(),
        is_char_boundary(b, p),
        is_char_boundary(b, q),
    ensures
        decode_utf8(b.subrange(0, q)) == decode_utf8(b.subrange(0, p)) + decode_utf8(
            b.subrange(p, q),
        ),
{
    lemma_boundary_prefix(b, p, q);
    let pre = b.subrange(0, q);
    vstd::utf8::decode_utf8_split(pre, p);
    assert(pre.subrange(0, p) =~= b.subrange(0, p));
    assert(pre.subrange(p, pre.len() as int) =~= b.subrange(p, q));
}

/// Stitching the CONTINUE cards from `pos` onto a string value holding the
/// first `pos` bytes and `&` gives back the whole string and the comment.
proof fn lemma_stitch_continue_cards(
    kw: Seq<char>,
    b: Seq<u8>,
    pos: int,
    room: int,
    c: Option<Seq<char>>,
)
    requires
        valid_utf8(b),
        0 <= pos <= b.len(),
        is_char_boundary(b, pos),
        continue_cuts_ok(b, pos, room),
        c is None ==> room >= 68,
        pos == b.len() ==> c is Some,
    ensures
        stitch_all(
            CardModel::Value {
                keyword: kw,
                value: ValueModel::String(decode_utf8(b.subrange(0, pos)) + amp()),
                comment: None,
            },
            continue_cards(b, pos, room, c),
        ) == Some(CardModel::Value { keyword: kw, value: ValueModel::String(decode_utf8(b)), comment: c }),
    decreases b.len() - pos,
{
    let head = decode_utf8(b.subrange(0, pos));
    assert((head + amp()).drop_last() =~= head);
    vstd::utf8::is_char_boundary_start_end_of_seq(b);
    assert(b.subrange(0, b.len() as int) =~= b);
    reveal_with_fuel(stitch_all, 2);
    if pos == b.len() {
        let cards = continue_cards(b, pos, room, c);
        assert(head + Seq::<char>::empty() =~= head);
        assert(cards.drop_first() =~= Seq::<CardModel>::empty());
    } else {
        let rem = b.subrange(pos, b.len() as int);
        lemma_decode_prefixes(b, pos, b.len() as int);
        if escaped_len(rem) <= room {
            let cards = continue_cards(b, pos, room, c);
            assert(cards.drop_first() =~= Seq::<CardModel>::empty());
        } else {
            let e = split_index(rem, 68);
            lemma_split_progress(rem, 68);
            lemma_decode_prefixes(b, pos, pos + e);
            assert(rem.subrange(0, e) =~= b.subrange(pos, pos + e));
            let cards = continue_cards(b, pos, room, c);
            assert(cards.drop_first() =~= continue_cards(b, pos + e, room, c));
            if pos + e == b.len() {
                lemma_split_all_fits(rem, 0, 0, 68);
                assert(rem.subrange(0, rem.len() as int) =~= rem);
            }
            assert(head + (decode_utf8(rem.subrange(0, e)) + amp()) =~= decode_utf8(
                b.subrange(0, pos + e),
            ) + amp());
            lemma_stitch_continue_cards(kw, b, pos + e, room, c);
        }
    }
}

/// Stitching the cards that a string value is split into gives back the
/// keyword record with the whole string and the comment (4.2.1.2).
pub proof fn split_then_stitch(kw: Seq<char>, s: Seq<char>, c: Option<Seq<char>>)
    requires
        split_cuts_ok(s, c),
    ensures
        stitch_all(split_cards(kw, s, c)[0], split_cards(kw, s, c).drop_first()) == Some(
            CardModel::Value { keyword: kw, value: ValueModel::String(s), comment: c },
        ),
{
    let b = encode_utf8(s);
    let cards = split_cards(kw, s, c);
    vstd::utf8::encode_utf8_valid_utf8(s);
    vstd::utf8::encode_utf8_decode_utf8(s);
    if escaped_len(b) <= 68 {
        assert(cards.drop_first() =~= Seq::<CardModel>::empty());
    } else {
        let e = split_index(b, 67);
        lemma_split_from(b, 0, 0, 67);
        if e == b.len() {
            lemma_split_all_fits(b, 0, 0, 67);
            assert(b.subrange(0, b.len() as int) =~= b);
        }
        assert(cards.drop_first() =~= continue_cards(b, e, last_room(c), c));
        lemma_stitch_continue_cards(kw, b, e, last_room(c), c);
    }
}


/// Whether a card can be split without cutting a character apart.
pub open spec fn records_cuts_ok(m: CardModel) -> bool {
    match m {
        CardModel::Value { value: ValueModel::String(s), comment, .. } => split_cuts_ok(s, comment),
        _ => true,
    }
}

/// The card images a card is written as: `split_records` for a string
/// value, the one image of `encoded` for any other card.
pub open spec fn card_records(m: CardModel) -> Option<Seq<Seq<u8>>> {
    match m {
        CardModel::Value { keyword, value: ValueModel::String(s), comment } => split_records(
            keyword,
            s,
            comment,
        ),
        _ => match encoded(m) {
            Some(b) => Some(seq![b]),
            None => None,
        },
    }
}

impl Card {
    /// The records this card is written as: a string value is split over a
    /// keyword record and CONTINUE records where it needs them (see
    /// `split_long_string`); any other card is one record.
    pub fn encode_records(&self) -> (r: Result<Vec<[u8; 80]>, Error>)
        requires
            records_cuts_ok(self@),
        ensures
            match card_records(self@) {
                Some(rs) => r matches Ok(v) && record_views(v@) == rs,
                None => r matches Err(e) && e is InvalidCard,
            },
    {
        match self {
            Card::Value { keyword, value: CardValue::String(s), comment } => split_long_string(
                keyword.as_str(),
                s.as_str(),
                comment,
            ),
            _ => {
                let mut v: Vec<[u8; 80]> = Vec::new();
                match self.encode() {
                    Ok(a) => {
                        v.push(a);
                        assert(record_views(v@) =~= seq![a@]);
                        Ok(v)
                    },
                    Err(e) => Err(e),
                }
            },
        }
    }
}

} // verus!
