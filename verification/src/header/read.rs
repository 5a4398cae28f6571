//! Reading a header from its blocks (4.4), with long string values
//! stitched back together (4.2.1.2).
use vstd::prelude::*;

use super::{key_of, Header};
use crate::card::long_string::{stitched, stitched_card};
use crate::card::{
    all_printable, card_keyword, nonprintable_error, parse_card, Card, CardFailure, CardModel, RawCard,
};
use crate::error::Error;
use crate::io::block::{record_at, BlockReader};

verus! {

/// The cards read so far with `m` added: stitched onto the last card where
/// it continues it, after it otherwise.
pub open spec fn add_card(acc: Seq<CardModel>, m: CardModel) -> Seq<CardModel> {
    if acc.len() > 0 && stitched(acc.last(), m) is Some {
        acc.drop_last().push(stitched(acc.last(), m)->0)
    } else {
        acc.push(m)
    }
}

/// Why a header could not be read.
pub enum ReadFailure {
    /// A card image is not printable ASCII or is malformed, with the message.
    Invalid(Seq<char>),
    /// An XTENSION card names an unknown extension type, with the message.
    Unsupported(Seq<char>),
    /// The data ended before the END card.
    MissingEnd,
}

pub proof fn lemma_record_in_block(k: int)
    requires
        k >= 0,
    ensures
        (k + 1) * 80 <= (k / 36 + 1) * 2880,
        k * 80 >= (k / 36) * 2880,
{
    assert((k + 1) * 80 <= (k / 36 + 1) * 2880) by (nonlinear_arith);
    assert(k * 80 >= (k / 36) * 2880) by (nonlinear_arith);
}

/// The cards of a header read from `data`, card image `k` on, after the
/// cards `acc`, and the number of blocks the header takes: blocks are read
/// whole, and the header ends with the block that holds the END card.
pub open spec fn read_cards(data: Seq<u8>, k: int, acc: Seq<CardModel>) -> Result<
    (Seq<CardModel>, int),
    ReadFailure,
>
    decreases data.len() - k * 80,
{
    if k < 0 || (k / 36 + 1) * 2880 > data.len() {
        Err(ReadFailure::MissingEnd)
    } else {
        proof {
            lemma_record_in_block(k);
        }
        let rec = data.subrange(k * 80, k * 80 + 80);
        if !all_printable(rec) {
            Err(ReadFailure::Invalid(nonprintable_error(rec)))
        } else {
            match parse_card(rec) {
                Err(CardFailure::Invalid(m)) => Err(ReadFailure::Invalid(m)),
                Err(CardFailure::Unsupported(m)) => Err(ReadFailure::Unsupported(m)),
                Ok(m) => {
                    let acc2 = add_card(acc, m);
                    if m is End {
                        Ok((acc2, k / 36 + 1))
                    } else {
                        read_cards(data, k + 1, acc2)
                    }
                },
            }
        }
    }
}

/// Whether `r` is the error that `f` stands for.
pub open spec fn read_failure_matches<T>(r: Result<T, Error>, f: ReadFailure) -> bool {
    match f {
        ReadFailure::Invalid(msg) => r matches Err(Error::InvalidCard(m)) && m@ == msg,
        ReadFailure::Unsupported(msg) => r matches Err(Error::UnsupportedFeature(m)) && m@ == msg,
        ReadFailure::MissingEnd => r matches Err(Error::InvalidHeader(m))
            && m@ == "missing END card before EOF"@,
    }
}

impl Header {
    /// 4.2.1.2 Stitches `card` onto the last card where it continues a long
    /// string value; true when it did.
    fn stitch_last(&mut self, card: &Card) -> (r: bool)
        requires
            old(self).well_formed(),
        ensures
            final(self).well_formed(),
            r == (old(self)@.len() > 0 && stitched(old(self)@.last(), card@) is Some),
            r ==> final(self)@ == add_card(old(self)@, card@),
            !r ==> final(self)@ == old(self)@,
    {
        let n = self.cards.len();
        if n == 0 {
            return false;
        }
        match stitched_card(&self.cards[n - 1], card) {
            Some(c) => {
                let ghost before = self@;
                proof {
                    assert(card_keyword(c@) == card_keyword(before[n - 1]));
                }
                self.cards.set(n - 1, c);
                assert(self@ =~= before.drop_last().push(c@));
                true
            },
            None => false,
        }
    }

    /// Reads a header from `reader`, a block at a time, up to and including
    /// the block that holds the END card (see `read_cards`); gives the header
    /// and the number of blocks it took. An `InvalidHeader` error, "missing END
    /// card before EOF", when the
    /// data ends first; the errors of `RawCard::try_from` and
    /// `Card::try_from` for a bad card image.
    pub fn read_from_block_reader(reader: &mut BlockReader) -> (r: Result<(Header, u64), Error>)
        requires
            old(reader).well_formed(),
        ensures
            final(reader).well_formed(),
            final(reader).data() == old(reader).data(),
            match read_cards(old(reader).rest(), 0, Seq::empty()) {
                Ok((cards, n)) => r matches Ok((h, m)) && h.well_formed() && h@ == cards && m == n
                    && final(reader).rest() == old(reader).rest().subrange(
                    n * 2880,
                    old(reader).rest().len() as int,
                ),
                Err(f) => read_failure_matches(r, f),
            },
    {
        let ghost data = reader.rest();
        let mut header = Header::new();
        let blocks_before = reader.blocks_read();
        let ghost mut b: int = 0;
        proof {
            reader.lemma_rest();
            assert(data.subrange(0, data.len() as int) =~= data);
        }
        loop
            invariant
                reader.well_formed(),
                reader.data() == old(reader).data(),
                data == old(reader).rest(),
                b >= 0,
                b * 2880 <= data.len(),
                reader.rest() == data.subrange(b * 2880, data.len() as int),
                reader.blocks() == blocks_before + b,
                header.well_formed(),
                read_cards(data, 0, Seq::empty()) == read_cards(data, b * 36, header@),
            decreases data.len() - b * 2880,
        {
            proof {
                reader.lemma_rest();
            }
            let block = match reader.read_block() {
                Ok(block) => block,
                Err(e) => {
                    proof {
                        assert((b * 36 / 36 + 1) * 2880 > data.len()) by (nonlinear_arith)
                            requires
                                data.len() - b * 2880 < 2880,
                        ;
                    }
                    return Err(Error::InvalidHeader(String::from_str("missing END card before EOF")));
                },
            };
            let ghost bstart = b * 2880;
            proof {
                assert(block@ == data.subrange(bstart, bstart + 2880));
            }
            let records = block.records();
            let mut j: usize = 0;
            while j < 36
                invariant
                    j <= 36,
                    records@.len() == 36,
                    forall|i: int| 0 <= i < 36 ==> #[trigger] records@[i]@ == record_at(block@, i),
                    block@ == data.subrange(bstart, bstart + 2880),
                    bstart == b * 2880,
                    b >= 0,
                    bstart + 2880 <= data.len(),
                    reader.well_formed(),
                    reader.data() == old(reader).data(),
                    data == old(reader).rest(),
                    reader.rest() == data.subrange(bstart + 2880, data.len() as int),
                    reader.blocks() == blocks_before + b + 1,
                    header.well_formed(),
                    read_cards(data, 0, Seq::empty()) == read_cards(data, b * 36 + j, header@),
                decreases 36 - j,
            {
                let ghost k: int = b * 36 + j;
                proof {
                    assert(k / 36 == b) by (nonlinear_arith)
                        requires
                            k == b * 36 + j,
                            j < 36,
                    ;
                    assert(k * 80 == bstart + j * 80) by (nonlinear_arith)
                        requires
                            k == b * 36 + j,
                            bstart == b * 2880,
                    ;
                    assert(records@[j as int]@ =~= data.subrange(k * 80, k * 80 + 80));
                }
                let raw = match RawCard::try_from(&records[j]) {
                    Ok(raw) => raw,
                    Err(e) => return Err(e),
                };
                let card = match Card::try_from(raw) {
                    Ok(c) => c,
                    Err(e) => return Err(e),
                };
                let is_end = match card {
                    Card::End => true,
                    _ => false,
                };
                let ghost before = header@;
                if !header.stitch_last(&card) {
                    header.append(card);
                }
                proof {
                    assert(header@ == add_card(before, card@));
                }
                if is_end {
                    let consumed = reader.blocks_read() - blocks_before;
                    return Ok((header, consumed));
                }
                j = j + 1;
            }
            proof {
                b = b + 1;
                assert(b * 36 == (b - 1) * 36 + 36);
                assert(b * 2880 == bstart + 2880);
            }
        }
    }
}

} // verus!
