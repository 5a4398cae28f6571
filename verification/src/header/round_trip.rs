//! Reading back a header that was written: the card images that
//! `Header::write_to_writer` writes are read by
//! `Header::read_from_block_reader` into the cards they came from, long
//! string values stitched back together.
use vstd::prelude::*;

use super::read::{add_card, read_cards, ReadFailure};
use super::write::{all_records, fill_block, flatten};
use crate::card::encode::{encoded, quoted_value, value_text, with_comment};
use crate::card::long_round_trip::{
    comment_read_back, continue_comment, lemma_encode_all, lemma_split_cuts_ascii, lemma_split_cards_read_back,
    lemma_stitch_read_back, readable_string,
};
use crate::card::long_string::{card_records, split_cards, split_then_stitch, stitch_all, stitched};
use crate::card::round_trip::{
    commentary_round_trip, keyword_record_round_trip, read_back_comment, readable_comment,
    readable_commentary, readable_value, record_keyword, xtension_round_trip,
};
use crate::card::{all_printable, parse_card, CardFailure, CardModel, ValueModel};
use crate::extension::xtension_text;

verus! {

/// Whether a card reads back from the records it is written as: a keyword
/// record of `keyword_record_round_trip` or a string value of
/// `readable_string`, an XTENSION card whose value and comment fit in the
/// record, END, a blank card, or commentary of `commentary_round_trip`.
pub open spec fn readable_card(m: CardModel) -> bool {
    match m {
        CardModel::Value { keyword, value, comment } => record_keyword(keyword) && match value {
            ValueModel::String(s) => readable_string(s, comment),
            _ => {
                &&& readable_value(value)
                &&& readable_comment(comment)
                &&& value_text(value) matches Some(t) && with_comment(t, comment).len() <= 70
            },
        },
        CardModel::Xtension { x, comment } => {
            &&& readable_comment(comment)
            &&& with_comment(quoted_value(xtension_text(x)), comment).len() <= 70
        },
        CardModel::Continue { .. } => false,
        _ => readable_commentary(m),
    }
}

/// A card as it reads back: a comment is led by the space written after its
/// `/`.
pub open spec fn read_back(m: CardModel) -> CardModel {
    match m {
        CardModel::Value { keyword, value, comment } => CardModel::Value {
            keyword,
            value,
            comment: read_back_comment(comment),
        },
        CardModel::Xtension { x, comment } => CardModel::Xtension {
            x,
            comment: read_back_comment(comment),
        },
        _ => m,
    }
}

/// The cards as they read back.
pub open spec fn read_back_all(cards: Seq<CardModel>) -> Seq<CardModel> {
    cards.map_values(|m: CardModel| read_back(m))
}

/// The cards that the records of a card read back as, one per record: the
/// keyword record and CONTINUE cards of a string value, the card itself
/// otherwise.
pub open spec fn read_models(m: CardModel) -> Seq<CardModel> {
    match m {
        CardModel::Value { keyword, value: ValueModel::String(s), comment } => split_cards(
            keyword,
            s,
            comment,
        ).map_values(|x: CardModel| comment_read_back(x)),
        _ => seq![read_back(m)],
    }
}

/// The records of the cards, one after another.
pub open spec fn header_records(cards: Seq<CardModel>) -> Seq<Seq<u8>>
    decreases cards.len(),
{
    if cards.len() == 0 {
        Seq::empty()
    } else {
        header_records(cards.drop_last()) + card_records(cards.last())->0
    }
}

/// The cards that the records of the cards read back as, one after another.
pub open spec fn header_models(cards: Seq<CardModel>) -> Seq<CardModel>
    decreases cards.len(),
{
    if cards.len() == 0 {
        Seq::empty()
    } else {
        header_models(cards.drop_last()) + read_models(cards.last())
    }
}

/// The cards read so far, `acc`, once the cards `ms` are added in order.
pub open spec fn fold_cards(acc: Seq<CardModel>, ms: Seq<CardModel>) -> Seq<CardModel>
    decreases ms.len(),
{
    if ms.len() == 0 {
        acc
    } else {
        add_card(fold_cards(acc, ms.drop_last()), ms.last())
    }
}

/// Whether the records `rs` are read as the cards `ms`, one for one.
pub open spec fn records_read_as(rs: Seq<Seq<u8>>, ms: Seq<CardModel>) -> bool {
    &&& rs.len() == ms.len()
    &&& forall|j: int|
        0 <= j < rs.len() ==> {
            &&& (#[trigger] rs[j]).len() == 80
            &&& all_printable(rs[j])
            &&& parse_card(rs[j]) == Ok::<CardModel, CardFailure>(ms[j])
        }
}

/// A readable card is written as records that read back as `read_models`:
/// the first is no CONTINUE card, the others are, and none is END unless the
/// card is.
proof fn lemma_card_records(m: CardModel)
    requires
        readable_card(m),
    ensures
        card_records(m) matches Some(rs) && records_read_as(rs, read_models(m)),
        read_models(m).len() >= 1,
        !(read_models(m)[0] is Continue),
        forall|j: int| 1 <= j < read_models(m).len() ==> #[trigger] read_models(m)[j] is Continue,
        forall|j: int| 0 <= j < read_models(m).len() ==> ((#[trigger] read_models(m)[j]) is End
            <==> m is End),
{
    match m {
        CardModel::Value { keyword, value, comment } => {
            match value {
                ValueModel::String(s) => {
                    lemma_split_cards_read_back(keyword, s, comment);
                    let cards = split_cards(keyword, s, comment);
                    lemma_encode_all(cards);
                    let rs = cards.map_values(|x: CardModel| encoded(x)->0);
                    let ms = read_models(m);
                    assert forall|j: int| 0 <= j < rs.len() implies {
                        &&& (#[trigger] rs[j]).len() == 80
                        &&& all_printable(rs[j])
                        &&& parse_card(rs[j]) == Ok::<CardModel, CardFailure>(ms[j])
                    } by {}
                    assert forall|j: int| 1 <= j < ms.len() implies #[trigger] ms[j] is Continue by {
                        assert(cards[j] is Continue);
                    }
                },
                _ => {
                    keyword_record_round_trip(keyword, value, comment);
                    reveal(encoded);
                },
            }
        },
        CardModel::Xtension { x, comment } => {
            xtension_round_trip(x, comment);
        },
        _ => {
            commentary_round_trip(m);
        },
    }
}

/// Adding cards one after another: first those of `ms1`, then those of `ms2`.
proof fn lemma_fold_concat(acc: Seq<CardModel>, ms1: Seq<CardModel>, ms2: Seq<CardModel>)
    ensures
        fold_cards(acc, ms1 + ms2) == fold_cards(fold_cards(acc, ms1), ms2),
    decreases ms2.len(),
{
    if ms2.len() == 0 {
        assert(ms1 + ms2 =~= ms1);
    } else {
        assert((ms1 + ms2).drop_last() =~= ms1 + ms2.drop_last());
        lemma_fold_concat(acc, ms1, ms2.drop_last());
    }
}

/// Stitching cards one by one from the front is stitching the last onto
/// the stitch of the others.
proof fn lemma_stitch_all_snoc(x: CardModel, cs: Seq<CardModel>)
    requires
        cs.len() >= 1,
    ensures
        stitch_all(x, cs) == match stitch_all(x, cs.drop_last()) {
            Some(z) => stitched(z, cs.last()),
            None => None,
        },
    decreases cs.len(),
{
    if cs.len() == 1 {
        assert(cs.drop_first().len() == 0);
        assert(cs.drop_last().len() == 0);
        assert(cs.last() == cs[0]);
        assert(stitch_all(x, cs.drop_last()) == Some(x));
        match stitched(x, cs[0]) {
            Some(n) => {
                assert(stitch_all(n, cs.drop_first()) == Some(n));
            },
            None => {},
        }
    } else {
        assert(cs.drop_last()[0] == cs[0]);
        assert(cs.drop_first().last() == cs.last());
        assert(cs.drop_first().drop_last() =~= cs.drop_last().drop_first());
        match stitched(x, cs[0]) {
            Some(n) => {
                lemma_stitch_all_snoc(n, cs.drop_first());
                assert(stitch_all(x, cs) == stitch_all(n, cs.drop_first()));
                assert(stitch_all(x, cs.drop_last()) == stitch_all(n, cs.drop_last().drop_first()));
            },
            None => {
                assert(stitch_all(x, cs) is None);
                assert(stitch_all(x, cs.drop_last()) is None);
            },
        }
    }
}

/// Adding a card that is no CONTINUE card and then the CONTINUE cards that
/// stitch onto it leaves the stitched card after the cards read before.
proof fn lemma_fold_stitch(acc: Seq<CardModel>, x: CardModel, cs: Seq<CardModel>, y: CardModel)
    requires
        !(x is Continue),
        stitch_all(x, cs) == Some(y),
    ensures
        fold_cards(acc, seq![x] + cs) == acc.push(y),
    decreases cs.len(),
{
    if cs.len() == 0 {
        assert(seq![x] + cs =~= seq![x]);
        assert(seq![x].drop_last() =~= Seq::<CardModel>::empty());
        assert(fold_cards(acc, Seq::<CardModel>::empty()) == acc);
        assert(fold_cards(acc, seq![x]) == add_card(acc, x));
        assert(acc.len() > 0 ==> stitched(acc.last(), x) is None);
        assert(y == x);
    } else {
        lemma_stitch_all_snoc(x, cs);
        let z = stitch_all(x, cs.drop_last())->0;
        lemma_fold_stitch(acc, x, cs.drop_last(), z);
        assert((seq![x] + cs).drop_last() =~= seq![x] + cs.drop_last());
        assert((seq![x] + cs).last() == cs.last());
        assert(acc.push(z).last() == z);
        assert(acc.push(z).drop_last() =~= acc);
        assert(fold_cards(acc, seq![x] + cs) == add_card(
            fold_cards(acc, seq![x] + cs.drop_last()),
            cs.last(),
        ));
        assert(stitched(z, cs.last()) == Some(y));
    }
}

/// The records of a readable card, read after the cards `acc`, leave the
/// card as it reads back after them.
proof fn lemma_fold_card(acc: Seq<CardModel>, m: CardModel)
    requires
        readable_card(m),
    ensures
        fold_cards(acc, read_models(m)) == acc.push(read_back(m)),
{
    lemma_card_records(m);
    match m {
        CardModel::Value { keyword, value: ValueModel::String(s), comment } => {
            lemma_split_cards_read_back(keyword, s, comment);
            let cards = split_cards(keyword, s, comment);
            if cards.len() == 1 {
                assert(read_models(m) =~= seq![read_back(m)]);
                assert(seq![read_back(m)].drop_last() =~= Seq::<CardModel>::empty());
                assert(fold_cards(acc, Seq::<CardModel>::empty()) == acc);
                assert(acc.len() > 0 ==> stitched(acc.last(), read_back(m)) is None);
            } else {
                lemma_split_cuts_ascii(s, comment);
                split_then_stitch(keyword, s, comment);
                let v0 = cards[0];
                let cs = cards.drop_first();
                assert forall|i: int| 0 <= i < cs.len() - 1 implies continue_comment(
                    #[trigger] cs[i],
                ) is None by {
                    assert(cs[i] == cards[i + 1]);
                }
                lemma_stitch_read_back(v0, cs);
                let rcs = cs.map_values(|x: CardModel| comment_read_back(x));
                assert(read_models(m) =~= seq![comment_read_back(v0)] + rcs);
                assert(comment_read_back(v0) == v0);
                lemma_fold_stitch(acc, v0, rcs, read_back(m));
            }
        },
        _ => {
            assert(read_models(m) == seq![read_back(m)]);
            assert(seq![read_back(m)].drop_last() =~= Seq::<CardModel>::empty());
            assert(fold_cards(acc, Seq::<CardModel>::empty()) == acc);
            assert(acc.len() > 0 ==> stitched(acc.last(), read_back(m)) is None);
        },
    }
}

/// The records of readable cards read back as the cards, as they read back.
proof fn lemma_header_models(cards: Seq<CardModel>)
    requires
        forall|i: int| 0 <= i < cards.len() ==> readable_card(#[trigger] cards[i]),
    ensures
        all_records(cards) == Some(flatten(header_records(cards))),
        records_read_as(header_records(cards), header_models(cards)),
        fold_cards(Seq::empty(), header_models(cards)) == read_back_all(cards),
        cards.len() > 0 && cards.last() is End ==> header_models(cards).len() >= 1
            && header_models(cards).last() is End,
        (forall|i: int| 0 <= i < cards.len() ==> !(#[trigger] cards[i] is End)) ==> forall|j: int|
            0 <= j < header_models(cards).len() ==> !(#[trigger] header_models(cards)[j] is End),
    decreases cards.len(),
{
    if cards.len() == 0 {
        assert(read_back_all(cards) =~= Seq::<CardModel>::empty());
    } else {
        let init = cards.drop_last();
        let m = cards.last();
        assert forall|i: int| 0 <= i < init.len() implies readable_card(#[trigger] init[i]) by {
            assert(init[i] == cards[i]);
        }
        lemma_header_models(init);
        lemma_card_records(m);
        let rs0 = header_records(init);
        let ms0 = header_models(init);
        let rs1 = card_records(m)->0;
        let ms1 = read_models(m);
        lemma_flatten_concat(rs0, rs1);
        let rs = rs0 + rs1;
        let ms = ms0 + ms1;
        assert forall|j: int| 0 <= j < rs.len() implies {
            &&& (#[trigger] rs[j]).len() == 80
            &&& all_printable(rs[j])
            &&& parse_card(rs[j]) == Ok::<CardModel, CardFailure>(ms[j])
        } by {
            if j < rs0.len() {
                assert(rs[j] == rs0[j]);
                assert(ms[j] == ms0[j]);
            } else {
                assert(rs[j] == rs1[j - rs0.len()]);
                assert(ms[j] == ms1[j - ms0.len()]);
            }
        }
        lemma_fold_concat(Seq::empty(), ms0, ms1);
        lemma_fold_card(read_back_all(init), m);
        assert(read_back_all(init).push(read_back(m)) =~= read_back_all(cards));
        if (forall|i: int| 0 <= i < cards.len() ==> !(#[trigger] cards[i] is End)) {
            assert forall|i: int| 0 <= i < init.len() implies !(#[trigger] init[i] is End) by {
                assert(init[i] == cards[i]);
            }
            assert forall|j: int| 0 <= j < ms.len() implies !(#[trigger] ms[j] is End) by {
                if j >= ms0.len() {
                    assert(ms[j] == ms1[j - ms0.len()]);
                }
            }
        }
        if m is End {
            assert(ms.last() == ms1.last());
        }
    }
}

/// The bytes of records one after another.
proof fn lemma_flatten_concat(a: Seq<Seq<u8>>, b: Seq<Seq<u8>>)
    ensures
        flatten(a + b) == flatten(a) + flatten(b),
    decreases b.len(),
{
    if b.len() == 0 {
        assert(a + b =~= a);
        assert(flatten(a) + flatten(b) =~= flatten(a));
    } else {
        assert((a + b).drop_last() =~= a + b.drop_last());
        lemma_flatten_concat(a, b.drop_last());
        assert(flatten(a) + flatten(b.drop_last()) + b.last() =~= flatten(a) + (flatten(
            b.drop_last(),
        ) + b.last()));
    }
}

/// Records of eighty bytes lie one after another in their flattening.
proof fn lemma_flatten_records(rs: Seq<Seq<u8>>)
    requires
        forall|j: int| 0 <= j < rs.len() ==> (#[trigger] rs[j]).len() == 80,
    ensures
        flatten(rs).len() == 80 * rs.len(),
        forall|j: int| 0 <= j < rs.len() ==> flatten(rs).subrange(80 * j, 80 * j + 80) == #[trigger] rs[j],
    decreases rs.len(),
{
    if rs.len() > 0 {
        let init = rs.drop_last();
        assert forall|j: int| 0 <= j < init.len() implies (#[trigger] init[j]).len() == 80 by {
            assert(init[j] == rs[j]);
        }
        lemma_flatten_records(init);
        let a = flatten(init);
        let b = a + rs.last();
        assert forall|j: int| 0 <= j < rs.len() implies flatten(rs).subrange(80 * j, 80 * j + 80)
            == #[trigger] rs[j] by {
            if j < init.len() {
                assert(init[j] == rs[j]);
                assert(b.subrange(80 * j, 80 * j + 80) =~= a.subrange(80 * j, 80 * j + 80));
            } else {
                assert(b.subrange(80 * j, 80 * j + 80) =~= rs.last());
            }
        }
    }
}

/// Filling to whole blocks keeps the bytes and ends at a multiple of 2880.
proof fn lemma_fill_block(b: Seq<u8>)
    ensures
        fill_block(b).len() % 2880 == 0,
        fill_block(b).len() >= b.len(),
        fill_block(b).subrange(0, b.len() as int) == b,
{
    let n = b.len() as int;
    let fill = (2880 - n % 2880) % 2880;
    assert((n + fill) % 2880 == 0) by (nonlinear_arith)
        requires
            n >= 0,
            fill == (2880 - n % 2880) % 2880,
    ;
    assert(fill_block(b).subrange(0, n) =~= b);
}

/// Reading records from record `k` on, those before it read already, gives
/// all the cards they read as, up to the END record, and the blocks they
/// fill.
proof fn lemma_read_from(data: Seq<u8>, rs: Seq<Seq<u8>>, ms: Seq<CardModel>, k: int)
    requires
        0 <= k < ms.len(),
        records_read_as(rs, ms),
        ms.last() is End,
        forall|j: int| 0 <= j < ms.len() - 1 ==> !(#[trigger] ms[j] is End),
        data.len() % 2880 == 0,
        data.len() >= 80 * ms.len(),
        forall|j: int| 0 <= j < rs.len() ==> data.subrange(80 * j, 80 * j + 80) == #[trigger] rs[j],
    ensures
        read_cards(data, k, fold_cards(Seq::empty(), ms.subrange(0, k))) == Ok::<
            (Seq<CardModel>, int),
            ReadFailure,
        >((fold_cards(Seq::empty(), ms), (ms.len() - 1) / 36 + 1)),
    decreases ms.len() - k,
{
    let n = ms.len() as int;
    let acc = fold_cards(Seq::empty(), ms.subrange(0, k));
    let q = data.len() / 2880;
    assert(data.len() == 2880 * q) by (nonlinear_arith)
        requires
            data.len() % 2880 == 0,
            q == data.len() / 2880,
    ;
    assert((k / 36 + 1) * 2880 <= data.len()) by (nonlinear_arith)
        requires
            0 <= k < n,
            80 * n <= data.len(),
            data.len() == 2880 * q,
    {
        assert((k / 36) * 2880 <= 80 * k);
        assert((k / 36) < q);
    }
    crate::header::read::lemma_record_in_block(k);
    assert(data.subrange(k * 80, k * 80 + 80) == rs[k]) by {
        assert(80 * k == k * 80);
    }
    let m = ms[k];
    assert(ms.subrange(0, k + 1).drop_last() =~= ms.subrange(0, k));
    assert(ms.subrange(0, k + 1).last() == m);
    if k == n - 1 {
        assert(ms.subrange(0, k + 1) =~= ms);
    } else {
        assert(!(m is End));
        lemma_read_from(data, rs, ms, k + 1);
    }
}

/// Writing the cards of a header and reading them back gives the cards
/// again, each comment led by the space written after its `/`, long string
/// values stitched back together from their CONTINUE records, and the
/// number of blocks they fill: for cards that each read back from their
/// records (see `readable_card`), the last of them END and no END before it.
pub proof fn header_round_trip(cards: Seq<CardModel>)
    requires
        cards.len() >= 1,
        cards.last() is End,
        forall|i: int| 0 <= i < cards.len() - 1 ==> !(#[trigger] cards[i] is End),
        forall|i: int| 0 <= i < cards.len() ==> readable_card(#[trigger] cards[i]),
    ensures
        all_records(cards) matches Some(b) && read_cards(fill_block(b), 0, Seq::empty()) == Ok::<
            (Seq<CardModel>, int),
            ReadFailure,
        >((read_back_all(cards), (header_records(cards).len() - 1) / 36 + 1)),
{
    lemma_header_models(cards);
    let init = cards.drop_last();
    assert forall|i: int| 0 <= i < init.len() implies readable_card(#[trigger] init[i]) by {
        assert(init[i] == cards[i]);
    }
    lemma_header_models(init);
    let rs = header_records(cards);
    let ms = header_models(cards);
    assert(forall|i: int| 0 <= i < init.len() ==> !(#[trigger] init[i] is End)) by {
        assert forall|i: int| 0 <= i < init.len() implies !(#[trigger] init[i] is End) by {
            assert(init[i] == cards[i]);
        }
    }
    lemma_card_records(cards.last());
    assert forall|j: int| 0 <= j < ms.len() - 1 implies !(#[trigger] ms[j] is End) by {
        let ms0 = header_models(init);
        let ms1 = read_models(cards.last());
        assert(ms =~= ms0 + ms1);
        if j < ms0.len() {
            assert(ms[j] == ms0[j]);
        } else {
            assert(ms[j] == ms1[j - ms0.len()]);
            assert(ms1.len() == 1);
        }
    }
    lemma_flatten_records(rs);
    let b = flatten(rs);
    lemma_fill_block(b);
    let data = fill_block(b);
    assert forall|j: int| 0 <= j < rs.len() implies data.subrange(80 * j, 80 * j + 80)
        == #[trigger] rs[j] by {
        assert(data.subrange(80 * j, 80 * j + 80) =~= b.subrange(80 * j, 80 * j + 80));
    }
    assert(ms.subrange(0, 0) =~= Seq::<CardModel>::empty());
    assert(fold_cards(Seq::empty(), Seq::<CardModel>::empty()) == Seq::<CardModel>::empty());
    lemma_read_from(data, rs, ms, 0);
}

} // verus!
