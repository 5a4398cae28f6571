//! A header: the cards of an HDU in order, looked up by keyword without
//! regard to case.
use vstd::prelude::*;
use vstd::utf8::encode_utf8;

use crate::card::long_string::stitched;
use crate::card::{card_keyword, Card, CardModel, CardValue, ValueModel};

pub mod keywords;
pub mod glob_laws;
pub mod laws;
pub mod read;
pub mod round_trip;
pub mod write;

verus! {

/// The upper-case form of `s` that `str::to_uppercase` gives.
pub uninterp spec fn uppercase(s: Seq<char>) -> Seq<char>;

/// Whether every character of `s` is ASCII.
pub open spec fn all_ascii(s: Seq<char>) -> bool {
    forall|k: int| 0 <= k < s.len() ==> (#[trigger] s[k] as u32) < 0x80
}

/// ASCII lower-case letters raised to upper case, everything else kept.
pub open spec fn ascii_upper(s: Seq<char>) -> Seq<char> {
    s.map_values(|c: char| if 'a' <= c <= 'z' { ((c as u32) - 0x20) as char } else { c })
}

/// The key a keyword is filed under: its upper-case form.
pub open spec fn key_for(k: Seq<char>) -> Seq<char> {
    if all_ascii(k) {
        ascii_upper(k)
    } else {
        uppercase(k)
    }
}

/// `str::to_uppercase`: the upper-case form of `s`, which for ASCII text
/// raises `a`–`z` to `A`–`Z` and keeps every other character.
#[verifier::external_body]
fn to_upper(s: &str) -> (r: String)
    ensures
        r@ == uppercase(s@),
        all_ascii(s@) ==> r@ == ascii_upper(s@),
{
    s.to_uppercase()
}

/// The key of `s`, as `key_for` gives it.
pub fn key_of_text(s: &str) -> (r: String)
    ensures
        r@ == key_for(s@),
{
    to_upper(s)
}

/// The key a card is filed under.
pub open spec fn key_of(c: CardModel) -> Seq<char> {
    key_for(card_keyword(c))
}

/// The first position at or after `i` of a card filed under `key`.
pub open spec fn index_from(cards: Seq<CardModel>, key: Seq<char>, i: int) -> Option<int>
    decreases cards.len() - i,
{
    if !(0 <= i < cards.len()) {
        None
    } else if key_of(cards[i]) == key {
        Some(i)
    } else {
        index_from(cards, key, i + 1)
    }
}

pub proof fn lemma_index_from(cards: Seq<CardModel>, key: Seq<char>, i: int)
    requires
        0 <= i,
    ensures
        index_from(cards, key, i) matches Some(j) ==> i <= j < cards.len() && key_of(cards[j])
            == key && forall|k: int| i <= k < j ==> key_of(#[trigger] cards[k]) != key,
        index_from(cards, key, i) is None ==> forall|k: int|
            i <= k < cards.len() ==> key_of(#[trigger] cards[k]) != key,
    decreases cards.len() - i,
{
    if 0 <= i < cards.len() && key_of(cards[i]) != key {
        lemma_index_from(cards, key, i + 1);
    }
}

/// The position of the first card filed under `key`.
pub open spec fn index_of_key(cards: Seq<CardModel>, key: Seq<char>) -> Option<int> {
    index_from(cards, key, 0)
}

/// The first card whose keyword is `keyword`, without regard to case.
pub open spec fn lookup(cards: Seq<CardModel>, keyword: Seq<char>) -> Option<CardModel> {
    match index_of_key(cards, key_for(keyword)) {
        Some(i) => Some(cards[i]),
        None => None,
    }
}

/// The value of the first keyword record filed under `keyword`; `None` when
/// there is none or the first such card has no value.
pub open spec fn lookup_value(cards: Seq<CardModel>, keyword: Seq<char>) -> Option<ValueModel> {
    match lookup(cards, keyword) {
        Some(CardModel::Value { value, .. }) => Some(value),
        _ => None,
    }
}

/// Wildcard match of `t` against the pattern `p`: `*` stands for any run of
/// bytes, `?` for any one byte, every other byte for itself.
pub open spec fn glob(p: Seq<u8>, t: Seq<u8>) -> bool
    decreases p.len() + t.len(),
{
    if p.len() == 0 {
        t.len() == 0
    } else if p[0] == 0x2A {
        glob(p.drop_first(), t) || (t.len() > 0 && glob(p, t.drop_first()))
    } else if p[0] == 0x3F {
        t.len() > 0 && glob(p.drop_first(), t.drop_first())
    } else {
        t.len() > 0 && p[0] == t[0] && glob(p.drop_first(), t.drop_first())
    }
}

/// The cards whose keyword matches the pattern `p`, in order.
pub open spec fn matching(cards: Seq<CardModel>, p: Seq<u8>) -> Seq<CardModel>
    decreases cards.len(),
{
    if cards.len() == 0 {
        Seq::empty()
    } else {
        let rest = matching(cards.drop_last(), p);
        if glob(p, encode_utf8(card_keyword(cards.last()))) {
            rest.push(cards.last())
        } else {
            rest
        }
    }
}

/// The views of card references.
pub open spec fn card_refs(v: Seq<&Card>) -> Seq<CardModel> {
    v.map_values(|c: &Card| c@)
}

/// The cards of an HDU header, in order (4.4).
///
/// Beside the cards stands the index of their keywords: `keys[i]` is the
/// upper-cased keyword of `cards[i]`, and a lookup is a search of `keys`
/// from the front. It is a vector and not a hash map keyed by the keyword
/// text because the contracts of `HashMap` say nothing useful for `String`
/// keys, whereas what a vector holds, and so every lookup, can be stated.
#[derive(Debug)]
pub struct Header {
    cards: Vec<Card>,
    keys: Vec<String>,
}

impl View for Header {
    type V = Seq<CardModel>;

    closed spec fn view(&self) -> Seq<CardModel> {
        self.cards@.map_values(|c: Card| c@)
    }
}

impl Default for Header {
    fn default() -> (h: Header)
        ensures
            h.well_formed(),
            h@ == Seq::<CardModel>::empty(),
    {
        Header::new()
    }
}

/// Wildcard match, as `glob` states it.
fn glob_match(pattern: &[u8], text: &[u8]) -> (r: bool)
    ensures
        r == glob(pattern@, text@),
    decreases pattern@.len() + text@.len(),
{
    if pattern.len() == 0 {
        return text.len() == 0;
    }
    let p_rest = &pattern[1..pattern.len()];
    assert(p_rest@ =~= pattern@.drop_first());
    if pattern[0] == 0x2A {
        if glob_match(p_rest, text) {
            return true;
        }
        if text.len() == 0 {
            return false;
        }
        let t_rest = &text[1..text.len()];
        assert(t_rest@ =~= text@.drop_first());
        glob_match(pattern, t_rest)
    } else if pattern[0] == 0x3F {
        if text.len() == 0 {
            return false;
        }
        let t_rest = &text[1..text.len()];
        assert(t_rest@ =~= text@.drop_first());
        glob_match(p_rest, t_rest)
    } else {
        if text.len() == 0 || pattern[0] != text[0] {
            return false;
        }
        let t_rest = &text[1..text.len()];
        assert(t_rest@ =~= text@.drop_first());
        glob_match(p_rest, t_rest)
    }
}

impl Header {
    /// Every card is filed under its key.
    pub closed spec fn well_formed(&self) -> bool {
        &&& self.keys@.len() == self.cards@.len()
        &&& forall|i: int|
            0 <= i < self.cards@.len() ==> #[trigger] self.keys@[i]@ == key_of(self.cards@[i]@)
    }

    /// An empty header.
    pub fn new() -> (h: Header)
        ensures
            h.well_formed(),
            h@ == Seq::<CardModel>::empty(),
    {
        let h = Header { cards: Vec::new(), keys: Vec::new() };
        assert(h@ =~= Seq::<CardModel>::empty());
        h
    }

    /// The cards, in order.
    pub fn cards(&self) -> (r: &[Card])
        ensures
            r@.map_values(|c: Card| c@) == self@,
    {
        self.cards.as_slice()
    }

    /// The number of cards.
    pub fn len(&self) -> (r: usize)
        ensures
            r == self@.len(),
    {
        self.cards.len()
    }

    /// Whether there are no cards.
    pub fn is_empty(&self) -> (r: bool)
        ensures
            r == (self@.len() == 0),
    {
        self.cards.len() == 0
    }

    /// The position of the first card filed under `key`, which is taken as
    /// it stands (see `key_of_text` for the key of a keyword).
    pub fn position(&self, key: &str) -> (r: Option<usize>)
        requires
            self.well_formed(),
        ensures
            match r {
                Some(j) => index_of_key(self@, key@) == Some(j as int) && j < self@.len() && key_of(
                    self@[j as int],
                ) == key@,
                None => index_of_key(self@, key@) is None,
            },
    {
        proof {
            lemma_index_from(self@, key@, 0);
        }
        let mut i: usize = 0;
        while i < self.keys.len()
            invariant
                self.well_formed(),
                i <= self@.len(),
                index_of_key(self@, key@) == index_from(self@, key@, i as int),
            decreases self@.len() - i,
        {
            if crate::text::str_eq(self.keys[i].as_str(), key) {
                return Some(i);
            }
            i = i + 1;
        }
        None
    }

    /// The first card whose keyword is `keyword`, without regard to case.
    pub fn get(&self, keyword: &str) -> (r: Option<&Card>)
        requires
            self.well_formed(),
        ensures
            match lookup(self@, keyword@) {
                Some(m) => r matches Some(c) && c@ == m,
                None => r is None,
            },
    {
        let key = key_of_text(keyword);
        match self.position(key.as_str()) {
            Some(i) => Some(&self.cards[i]),
            None => None,
        }
    }

    /// The value of the first card whose keyword is `keyword`; `None` when
    /// there is no such card or it has no value.
    pub fn get_value(&self, keyword: &str) -> (r: Option<&CardValue>)
        requires
            self.well_formed(),
        ensures
            match lookup_value(self@, keyword@) {
                Some(v) => r matches Some(x) && x@ == v,
                None => r is None,
            },
    {
        match self.get(keyword) {
            Some(c) => c.value(),
            None => None,
        }
    }

    /// The cards whose keyword matches the pattern `upper`, taken as it
    /// stands, in order.
    pub fn find_matching(&self, upper: &str) -> (r: Vec<&Card>)
        ensures
            card_refs(r@) == matching(self@, encode_utf8(upper@)),
    {
        let p = upper.as_bytes();
        let mut out: Vec<&Card> = Vec::new();
        let mut i: usize = 0;
        while i < self.cards.len()
            invariant
                i <= self.cards@.len(),
                p@ == encode_utf8(upper@),
                card_refs(out@) == matching(self@.subrange(0, i as int), p@),
            decreases self.cards@.len() - i,
        {
            let c = &self.cards[i];
            let ghost prefix = self@.subrange(0, i as int + 1);
            assert(prefix.drop_last() =~= self@.subrange(0, i as int));
            assert(prefix.last() == c@);
            if glob_match(p, c.keyword().as_bytes()) {
                out.push(c);
                assert(card_refs(out@) =~= matching(prefix, p@));
            }
            i = i + 1;
        }
        assert(self@.subrange(0, self.cards@.len() as int) =~= self@);
        out
    }

    /// The cards whose keyword matches `pattern` once it is raised to upper
    /// case: `*` stands for any run of characters, `?` for any one.
    pub fn find(&self, pattern: &str) -> (r: Vec<&Card>)
        ensures
            card_refs(r@) == matching(self@, encode_utf8(key_for(pattern@))),
    {
        let p = key_of_text(pattern);
        self.find_matching(p.as_str())
    }

    /// Adds `card` at the end.
    pub fn append(&mut self, card: Card)
        requires
            old(self).well_formed(),
        ensures
            final(self).well_formed(),
            final(self)@ == old(self)@.push(card@),
    {
        let key = key_of_text(card.keyword());
        self.keys.push(key);
        self.cards.push(card);
        assert(self@ =~= old(self)@.push(card@));
    }

    /// Removes and gives the first card whose keyword is `keyword`, without
    /// regard to case; `None`, and nothing changed, when there is none.
    pub fn remove(&mut self, keyword: &str) -> (r: Option<Card>)
        requires
            old(self).well_formed(),
        ensures
            final(self).well_formed(),
            match index_of_key(old(self)@, key_for(keyword@)) {
                Some(i) => r matches Some(c) && c@ == old(self)@[i] && final(self)@ == old(
                    self,
                )@.remove(i),
                None => r is None && final(self)@ == old(self)@,
            },
    {
        let key = key_of_text(keyword);
        match self.position(key.as_str()) {
            Some(i) => {
                let ghost before = self@;
                let ghost keys_before = self.keys@;
                self.keys.remove(i);
                let c = self.cards.remove(i);
                assert(self@ =~= before.remove(i as int));
                assert forall|j: int| 0 <= j < self.cards@.len() implies #[trigger] self.keys@[j]@
                    == key_of(self.cards@[j]@) by {
                    if j < i {
                        assert(self.keys@[j] == keys_before[j]);
                    } else {
                        assert(self.keys@[j] == keys_before[j + 1]);
                    }
                }
                Some(c)
            },
            None => None,
        }
    }

    /// Puts `card` in place of the first card filed under the same keyword,
    /// or at the end when there is none.
    pub fn set(&mut self, card: Card)
        requires
            old(self).well_formed(),
        ensures
            final(self).well_formed(),
            match index_of_key(old(self)@, key_of(card@)) {
                Some(i) => final(self)@ == old(self)@.update(i, card@),
                None => final(self)@ == old(self)@.push(card@),
            },
    {
        let key = key_of_text(card.keyword());
        match self.position(key.as_str()) {
            Some(i) => {
                let ghost before = self@;
                self.cards.set(i, card);
                assert(self@ =~= before.update(i as int, card@));
            },
            None => {
                self.keys.push(key);
                self.cards.push(card);
                assert(self@ =~= old(self)@.push(card@));
            },
        }
    }
}

} // verus!
