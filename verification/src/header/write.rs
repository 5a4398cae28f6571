//! Writing a header as card images in whole blocks.
use vstd::prelude::*;

use super::Header;
use crate::card::encode::{push_all, push_spaces, spaces};
use crate::card::long_string::{card_records, record_views, records_cuts_ok};
use crate::card::CardModel;
use crate::error::Error;

verus! {

/// The records `rs` one after another.
pub open spec fn flatten(rs: Seq<Seq<u8>>) -> Seq<u8>
    decreases rs.len(),
{
    if rs.len() == 0 {
        Seq::empty()
    } else {
        flatten(rs.drop_last()) + rs.last()
    }
}

/// The card images of `cards` one after another, each card written as
/// `card_records` gives it; `None` when one cannot be written.
pub open spec fn all_records(cards: Seq<CardModel>) -> Option<Seq<u8>>
    decreases cards.len(),
{
    if cards.len() == 0 {
        Some(Seq::empty())
    } else {
        match (all_records(cards.drop_last()), card_records(cards.last())) {
            (Some(a), Some(rs)) => Some(a + flatten(rs)),
            _ => None,
        }
    }
}

/// `b` filled with spaces to a whole number of blocks.
pub open spec fn fill_block(b: Seq<u8>) -> Seq<u8> {
    b + spaces(((2880 - b.len() % 2880) % 2880) as nat)
}

proof fn lemma_all_records_fail(cards: Seq<CardModel>, k: int)
    requires
        0 <= k <= cards.len(),
        all_records(cards.subrange(0, k)) is None,
    ensures
        all_records(cards) is None,
    decreases cards.len() - k,
{
    if k < cards.len() {
        assert(cards.subrange(0, k + 1).drop_last() =~= cards.subrange(0, k));
        lemma_all_records_fail(cards, k + 1);
    } else {
        assert(cards.subrange(0, k) =~= cards);
    }
}

impl Header {
    /// Appends the card images of the cards, in order, to `out`, the last
    /// block filled with spaces (see `all_records`); the error of the first
    /// card that cannot be written.
    pub fn write_to_writer(&self, out: &mut Vec<u8>) -> (r: Result<(), Error>)
        requires
            forall|i: int| 0 <= i < self@.len() ==> records_cuts_ok(#[trigger] self@[i]),
        ensures
            match all_records(self@) {
                Some(b) => r is Ok && final(out)@ == old(out)@ + fill_block(b),
                None => r matches Err(Error::InvalidCard(_)),
            },
    {
        let cards = self.cards();
        let ghost start = out@;
        let start_len = out.len();
        let mut i: usize = 0;
        while i < cards.len()
            invariant
                cards@.map_values(|c: crate::card::Card| c@) == self@,
                i <= cards@.len(),
                forall|j: int| 0 <= j < self@.len() ==> records_cuts_ok(#[trigger] self@[j]),
                all_records(self@.subrange(0, i as int)) matches Some(b) && out@ == start + b,
                start_len == start.len(),
            decreases cards@.len() - i,
        {
            let ghost before = out@;
            let ghost prefix = self@.subrange(0, i as int + 1);
            assert(prefix.drop_last() =~= self@.subrange(0, i as int));
            assert(prefix.last() == cards@[i as int]@);
            assert(records_cuts_ok(self@[i as int]));
            let recs = match cards[i].encode_records() {
                Ok(v) => v,
                Err(e) => {
                    proof {
                        lemma_all_records_fail(self@, i as int + 1);
                    }
                    return Err(e);
                },
            };
            let mut k: usize = 0;
            while k < recs.len()
                invariant
                    k <= recs@.len(),
                    out@ == before + flatten(record_views(recs@).subrange(0, k as int)),
                decreases recs@.len() - k,
            {
                let ghost mid = out@;
                push_all(out, recs[k].as_slice());
                proof {
                    let rv = record_views(recs@);
                    assert(rv.subrange(0, k as int + 1).drop_last() =~= rv.subrange(0, k as int));
                    assert(rv[k as int] == recs@[k as int]@);
                }
                k = k + 1;
            }
            proof {
                assert(record_views(recs@).subrange(0, recs@.len() as int) =~= record_views(recs@));
            }
            i = i + 1;
        }
        proof {
            assert(self@.subrange(0, cards@.len() as int) =~= self@);
        }
        let ghost b = all_records(self@)->0;
        assert(out@ == start + b);
        let rem = (out.len() - start_len) % 2880;
        let fill: usize = if rem == 0 {
            0
        } else {
            2880 - rem
        };
        push_spaces(out, fill);
        Ok(())
    }
}

} // verus!
