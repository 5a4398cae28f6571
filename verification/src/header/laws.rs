//! What appending, setting and removing cards does to later look-ups.
use vstd::prelude::*;

use super::{index_from, index_of_key, key_for, key_of, lemma_index_from, lookup};
use crate::card::{card_keyword, CardModel};

verus! {

proof fn lemma_index_from_push(cards: Seq<CardModel>, c: CardModel, key: Seq<char>, i: int)
    requires
        0 <= i <= cards.len(),
    ensures
        index_from(cards.push(c), key, i) == match index_from(cards, key, i) {
            Some(j) => Some(j),
            None => if key_of(c) == key {
                Some(cards.len() as int)
            } else {
                None
            },
        },
    decreases cards.len() - i,
{
    if i < cards.len() {
        assert(cards.push(c)[i] == cards[i]);
        lemma_index_from_push(cards, c, key, i + 1);
    } else {
        assert(cards.push(c)[i] == c);
        reveal_with_fuel(index_from, 2);
    }
}

/// Looking up a keyword after appending a card finds the first card filed
/// under that keyword before, and the appended card when there was none.
pub proof fn append_then_lookup(cards: Seq<CardModel>, c: CardModel, keyword: Seq<char>)
    ensures
        lookup(cards.push(c), keyword) == match lookup(cards, keyword) {
            Some(m) => Some(m),
            None => if key_of(c) == key_for(keyword) {
                Some(c)
            } else {
                None
            },
        },
{
    lemma_index_from_push(cards, c, key_for(keyword), 0);
    lemma_index_from(cards, key_for(keyword), 0);
}

/// After `Header::set`, looking up the card's own keyword finds that card.
pub proof fn set_then_lookup(cards: Seq<CardModel>, c: CardModel)
    ensures
        lookup(
            match index_of_key(cards, key_of(c)) {
                Some(i) => cards.update(i, c),
                None => cards.push(c),
            },
            card_keyword(c),
        ) == Some(c),
{
    let key = key_of(c);
    lemma_index_from(cards, key, 0);
    match index_of_key(cards, key) {
        Some(i) => {
            let after = cards.update(i, c);
            lemma_index_from(after, key, 0);
            assert(key_of(after[i]) == key);
            assert forall|k: int| 0 <= k < i implies key_of(#[trigger] after[k]) != key by {
                assert(after[k] == cards[k]);
            }
            lemma_index_from_first(after, key, 0, i);
        },
        None => {
            append_then_lookup(cards, c, card_keyword(c));
        },
    }
}

/// The first position filed under `key` is the one before which no card is.
proof fn lemma_index_from_first(cards: Seq<CardModel>, key: Seq<char>, i: int, j: int)
    requires
        0 <= i <= j < cards.len(),
        key_of(cards[j]) == key,
        forall|k: int| i <= k < j ==> key_of(#[trigger] cards[k]) != key,
    ensures
        index_from(cards, key, i) == Some(j),
    decreases j - i,
{
    if i < j {
        lemma_index_from_first(cards, key, i + 1, j);
    }
}

/// Removing the first card filed under a key leaves the cards after it in
/// place: looking the key up again finds the next such card, if any.
pub proof fn remove_then_lookup(cards: Seq<CardModel>, keyword: Seq<char>)
    requires
        index_of_key(cards, key_for(keyword)) is Some,
    ensures
        ({
            let i = index_of_key(cards, key_for(keyword))->0;
            index_of_key(cards.remove(i), key_for(keyword)) == match index_from(
                cards,
                key_for(keyword),
                i + 1,
            ) {
                Some(j) => Some(j - 1),
                None => None,
            }
        }),
{
    let key = key_for(keyword);
    lemma_index_from(cards, key, 0);
    let i = index_of_key(cards, key)->0;
    let after = cards.remove(i);
    lemma_index_from(cards, key, i + 1);
    lemma_index_from(after, key, 0);
    match index_from(cards, key, i + 1) {
        Some(j) => {
            assert(after[j - 1] == cards[j]);
            assert forall|k: int| 0 <= k < j - 1 implies key_of(#[trigger] after[k]) != key by {
                if k < i {
                    assert(after[k] == cards[k]);
                } else {
                    assert(after[k] == cards[k + 1]);
                }
            }
            lemma_index_from_first(after, key, 0, j - 1);
        },
        None => {
            assert forall|k: int| 0 <= k < after.len() implies key_of(#[trigger] after[k]) != key by {
                if k < i {
                    assert(after[k] == cards[k]);
                } else {
                    assert(after[k] == cards[k + 1]);
                }
            }
            lemma_index_none(after, key, 0);
        },
    }
}

/// Where no card is filed under `key`, nothing is found.
proof fn lemma_index_none(cards: Seq<CardModel>, key: Seq<char>, i: int)
    requires
        0 <= i <= cards.len(),
        forall|k: int| i <= k < cards.len() ==> key_of(#[trigger] cards[k]) != key,
    ensures
        index_from(cards, key, i) is None,
    decreases cards.len() - i,
{
    if i < cards.len() {
        lemma_index_none(cards, key, i + 1);
    }
}

} // verus!
