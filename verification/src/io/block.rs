//! 2880-byte blocks (2.2) and the readers and writers that move data in them.
use vstd::prelude::*;

use crate::error::{Error, IoError, IoErrorKind};

verus! {

/// Bytes in a block (2.2).
pub const BLOCK_SIZE: usize = 2880;

/// Bytes in a card image.
pub const RECORD_SIZE: usize = 80;

/// Card images in a block.
pub const RECORDS_PER_BLOCK: usize = 36;

/// Section 2.2: a sequence of 2880 eight-bit bytes aligned on 2880-byte
/// boundaries in the FITS file, most commonly either a header block or a
/// data block.
pub struct Block([u8; 2880]);

impl View for Block {
    type V = Seq<u8>;

    closed spec fn view(&self) -> Seq<u8> {
        self.0@
    }
}

/// The `k`-th card image of the bytes `b`.
pub open spec fn record_at(b: Seq<u8>, k: int) -> Seq<u8> {
    b.subrange(k * 80, k * 80 + 80)
}

impl Block {
    /// A block of zero bytes.
    pub fn zeroed() -> (b: Block)
        ensures
            b@ == Seq::new(2880, |i: int| 0u8),
    {
        let b = Block([0u8; 2880]);
        assert(b@ =~= Seq::new(2880, |i: int| 0u8));
        b
    }

    /// A block of spaces.
    pub fn blank() -> (b: Block)
        ensures
            b@ == Seq::new(2880, |i: int| 0x20u8),
    {
        let b = Block([0x20u8; 2880]);
        assert(b@ =~= Seq::new(2880, |i: int| 0x20u8));
        b
    }

    /// The 2880 bytes.
    pub fn as_bytes(&self) -> (r: &[u8])
        ensures
            r@ == self@,
            r@.len() == 2880,
    {
        self.0.as_slice()
    }

    /// The 2880 bytes, to be written in place.
    pub fn as_bytes_mut(&mut self) -> (r: &mut [u8])
        ensures
            r@ == old(self)@,
            final(self)@ == final(r)@,
    {
        &mut self.0
    }

    /// The 36 card images of the block, in order.
    pub fn records(&self) -> (r: Vec<[u8; 80]>)
        ensures
            r@.len() == 36,
            forall|k: int| 0 <= k < 36 ==> #[trigger] r@[k]@ == record_at(self@, k),
    {
        let mut out: Vec<[u8; 80]> = Vec::new();
        let mut k: usize = 0;
        while k < 36
            invariant
                k <= 36,
                self@.len() == 2880,
                out@.len() == k,
                forall|j: int| 0 <= j < k ==> #[trigger] out@[j]@ == record_at(self@, j),
            decreases 36 - k,
        {
            let mut rec: [u8; 80] = [0u8; 80];
            let mut i: usize = 0;
            while i < 80
                invariant
                    k < 36,
                    i <= 80,
                    self@.len() == 2880,
                    rec@.len() == 80,
                    forall|j: int| 0 <= j < i ==> rec@[j] == self@[k * 80 + j],
                decreases 80 - i,
            {
                rec[i] = self.0[k * 80 + i];
                i = i + 1;
            }
            assert(rec@ =~= record_at(self@, k as int));
            out.push(rec);
            k = k + 1;
        }
        out
    }

    /// Writes `record` as the card image at `index`.
    pub fn set_record(&mut self, index: usize, record: &[u8; 80])
        requires
            index < 36,
        ensures
            final(self)@ == old(self)@.subrange(0, index * 80) + record@ + old(self)@.subrange(
                index * 80 + 80,
                2880,
            ),
    {
        let start = index * 80;
        let mut i: usize = 0;
        while i < 80
            invariant
                start == index * 80,
                index < 36,
                i <= 80,
                self@.len() == 2880,
                record@.len() == 80,
                forall|j: int| 0 <= j < start ==> self@[j] == old(self)@[j],
                forall|j: int| start + 80 <= j < 2880 ==> self@[j] == old(self)@[j],
                forall|j: int| 0 <= j < i ==> self@[start + j] == record@[j],
                forall|j: int| start + i <= j < start + 80 ==> self@[j] == old(self)@[j],
            decreases 80 - i,
        {
            self.0[start + i] = record[i];
            i = i + 1;
        }
        assert(self@ =~= old(self)@.subrange(0, index * 80) + record@ + old(self)@.subrange(
            index * 80 + 80,
            2880,
        ));
    }
}

/// The number of blocks that `n` bytes take.
pub open spec fn blocks_for(n: int) -> int {
    (n + 2879) / 2880
}

/// The number of blocks that `n` bytes take.
pub fn blocks_needed(n: u64) -> (r: u64)
    ensures
        r == blocks_for(n as int),
{
    n / 2880 + if n % 2880 == 0 {
        0
    } else {
        1
    }
}

/// `n` bytes rounded up to whole blocks.
pub fn padded_size(n: u64) -> (r: u64)
    requires
        blocks_for(n as int) * 2880 <= u64::MAX,
    ensures
        r == blocks_for(n as int) * 2880,
{
    blocks_needed(n) * 2880
}

/// The fill bytes that complete the last block of `n` bytes.
pub fn padding_bytes(n: u64) -> (r: u64)
    requires
        blocks_for(n as int) * 2880 <= u64::MAX,
    ensures
        r == blocks_for(n as int) * 2880 - n,
        r < 2880,
{
    let p = padded_size(n);
    assert(blocks_for(n as int) * 2880 >= n && blocks_for(n as int) * 2880 < n + 2880)
        by (nonlinear_arith);
    p - n
}

/// Rounding up to whole blocks: the padded size is a multiple of 2880, at
/// least `n` and less than `n + 2880`, and the padding is what it adds.
pub proof fn padding_law(n: nat)
    ensures
        (blocks_for(n as int) * 2880) % 2880 == 0,
        n <= blocks_for(n as int) * 2880 < n + 2880,
        blocks_for(n as int) * 2880 - n < 2880,
        n % 2880 == 0 ==> blocks_for(n as int) * 2880 == n,
{
    assert((blocks_for(n as int) * 2880) % 2880 == 0) by (nonlinear_arith);
    assert(n <= blocks_for(n as int) * 2880 < n + 2880) by (nonlinear_arith);
    assert(n % 2880 == 0 ==> blocks_for(n as int) * 2880 == n) by (nonlinear_arith);
}

/// Reads FITS data a block at a time.
pub struct BlockReader<'a> {
    inner: &'a [u8],
    pos: usize,
    /// The number of whole blocks read so far.
    pub blocks_read: u64,
}

impl<'a> BlockReader<'a> {
    /// The bytes still to be read.
    pub closed spec fn rest(&self) -> Seq<u8> {
        self.inner@.subrange(self.pos as int, self.inner@.len() as int)
    }

    /// The bytes being read, from the first.
    pub closed spec fn data(&self) -> Seq<u8> {
        self.inner@
    }

    /// The number of whole blocks read so far.
    pub closed spec fn blocks(&self) -> u64 {
        self.blocks_read
    }

    /// Where the next read starts.
    pub closed spec fn position(&self) -> int {
        self.pos as int
    }

    pub closed spec fn well_formed(&self) -> bool {
        &&& self.pos <= self.inner@.len()
        &&& self.blocks_read * 2880 <= self.pos
    }

    pub proof fn lemma_rest(&self)
        requires
            self.well_formed(),
        ensures
            0 <= self.position() <= self.data().len(),
            self.rest() == self.data().subrange(self.position(), self.data().len() as int),
            self.blocks() * 2880 <= self.position(),
    {
    }

    /// The number of whole blocks read so far.
    pub fn blocks_read(&self) -> (r: u64)
        ensures
            r == self.blocks(),
    {
        self.blocks_read
    }

    /// A reader at the start of `inner`.
    pub fn new(inner: &'a [u8]) -> (r: BlockReader<'a>)
        ensures
            r.well_formed(),
            r.data() == inner@,
            r.position() == 0,
            r.rest() == inner@,
            r.blocks() == 0,
    {
        let r = BlockReader { inner, pos: 0, blocks_read: 0 };
        assert(r.rest() =~= inner@);
        r
    }

    /// The next 2880 bytes; an `UnexpectedEof` I/O error, and nothing left
    /// to read, where fewer bytes remain.
    pub fn read_block(&mut self) -> (r: Result<Block, Error>)
        requires
            old(self).well_formed(),
        ensures
            final(self).well_formed(),
            final(self).data() == old(self).data(),
            old(self).rest().len() >= 2880 ==> (r matches Ok(b) && b@ == old(self).rest().subrange(
                0,
                2880,
            ) && final(self).rest() == old(self).rest().subrange(2880, old(self).rest().len() as int)
                && final(self).position() == old(self).position() + 2880
                && final(self).blocks() == old(self).blocks() + 1),
            old(self).rest().len() < 2880 ==> (r matches Err(Error::Io(e)) && e.kind
                == IoErrorKind::UnexpectedEof && final(self).rest().len() == 0
                && final(self).position() == final(self).data().len()
                && final(self).blocks() == old(self).blocks()),
    {
        let n = self.inner.len();
        if n - self.pos < 2880 {
            self.pos = n;
            assert(self.rest() =~= Seq::<u8>::empty());
            return Err(Error::Io(IoError { kind: IoErrorKind::UnexpectedEof }));
        }
        let mut block = Block::zeroed();
        let p = self.pos;
        let mut i: usize = 0;
        while i < 2880
            invariant
                i <= 2880,
                p == self.pos,
                n == self.inner@.len(),
                p + 2880 <= n,
                block@.len() == 2880,
                forall|j: int| 0 <= j < i ==> block@[j] == self.inner@[p + j],
            decreases 2880 - i,
        {
            block.0[i] = self.inner[p + i];
            i = i + 1;
        }
        let ghost before = self.rest();
        assert(block@ =~= before.subrange(0, 2880));
        self.pos = self.pos + 2880;
        self.blocks_read = self.blocks_read + 1;
        assert(self.rest() =~= before.subrange(2880, before.len() as int));
        Ok(block)
    }
}

/// The card images `recs`, one after another.
pub open spec fn joined(recs: Seq<Seq<u8>>) -> Seq<u8>
    decreases recs.len(),
{
    if recs.len() == 0 {
        Seq::empty()
    } else {
        joined(recs.drop_last()) + recs.last()
    }
}

/// Whether each of `recs` is a card image of 80 bytes.
pub open spec fn all_records(recs: Seq<Seq<u8>>) -> bool {
    forall|i: int| 0 <= i < recs.len() ==> (#[trigger] recs[i]).len() == 80
}

/// A card image of spaces.
pub open spec fn blank_record() -> Seq<u8> {
    Seq::new(80, |i: int| 0x20u8)
}

/// The number of blocks that `n` card images take.
pub open spec fn blocks_for_records(n: int) -> int {
    (n + 35) / 36
}

/// The blocks that hold the card images `recs`: the images one after
/// another, then spaces up to a whole number of blocks.
pub open spec fn blocks_of(recs: Seq<Seq<u8>>) -> Seq<u8> {
    joined(recs) + Seq::new(
        (blocks_for_records(recs.len() as int) * 2880 - 80 * recs.len()) as nat,
        |i: int| 0x20u8,
    )
}

proof fn lemma_joined_len(recs: Seq<Seq<u8>>)
    requires
        all_records(recs),
    ensures
        joined(recs).len() == 80 * recs.len(),
    decreases recs.len(),
{
    if recs.len() > 0 {
        assert(all_records(recs.drop_last()));
        lemma_joined_len(recs.drop_last());
    }
}

/// The first `m` card images are the first `80 m` bytes.
proof fn lemma_joined_prefix(recs: Seq<Seq<u8>>, m: int)
    requires
        all_records(recs),
        0 <= m <= recs.len(),
    ensures
        joined(recs).subrange(0, 80 * m) == joined(recs.take(m)),
    decreases recs.len(),
{
    lemma_joined_len(recs);
    if m == recs.len() {
        assert(recs.take(m) =~= recs);
        assert(joined(recs).subrange(0, 80 * m) =~= joined(recs));
    } else {
        let d = recs.drop_last();
        assert(all_records(d));
        lemma_joined_len(d);
        lemma_joined_prefix(d, m);
        assert(d.take(m) =~= recs.take(m));
        assert(joined(recs).subrange(0, 80 * m) =~= joined(d).subrange(0, 80 * m));
    }
}

/// Card image `n` stands at bytes `80 n` to `80 n + 80`.
proof fn lemma_joined_at(recs: Seq<Seq<u8>>, n: int)
    requires
        all_records(recs),
        0 <= n < recs.len(),
    ensures
        joined(recs).subrange(80 * n, 80 * n + 80) == recs[n],
{
    lemma_joined_prefix(recs, n + 1);
    lemma_joined_len(recs);
    let t = recs.take(n + 1);
    assert(t.drop_last() =~= recs.take(n));
    assert(all_records(recs.take(n)));
    lemma_joined_len(recs.take(n));
    assert(joined(recs).subrange(80 * n, 80 * n + 80) =~= joined(t).subrange(80 * n, 80 * n + 80));
    assert(joined(t).subrange(80 * n, 80 * n + 80) =~= recs[n]);
}

/// Writes card images a block at a time, filling the last block with spaces.
/// The bytes go to the end of a vector, after whatever it held before.
pub struct BlockWriter {
    inner: Vec<u8>,
    start: usize,
    buffer: Block,
    slot: usize,
    records: Ghost<Seq<Seq<u8>>>,
    /// The number of whole blocks written so far.
    pub blocks_written: u64,
}

impl BlockWriter {
    /// What the vector held before this writer wrote to it.
    pub closed spec fn sink_before(&self) -> Seq<u8> {
        self.inner@.subrange(0, self.start as int)
    }

    /// The bytes this writer has written so far.
    pub closed spec fn written(&self) -> Seq<u8> {
        self.inner@.subrange(self.start as int, self.inner@.len() as int)
    }

    /// The number of whole blocks written so far.
    pub closed spec fn blocks_out(&self) -> u64 {
        self.blocks_written
    }

    /// The card images waiting for their block to be complete.
    pub closed spec fn pending(&self) -> Seq<u8> {
        self.buffer@.subrange(0, self.slot * 80)
    }

    /// The card images handed to the writer so far, in order.
    pub closed spec fn records(&self) -> Seq<Seq<u8>> {
        self.records@
    }

    /// The number of card images handed to the writer so far.
    pub open spec fn records_in(&self) -> int {
        self.records().len() as int
    }

    pub closed spec fn well_formed(&self) -> bool {
        &&& self.slot < 36
        &&& self.buffer@.len() == 2880
        &&& forall|j: int| self.slot * 80 <= j < 2880 ==> self.buffer@[j] == 0x20
        &&& self.start <= self.inner@.len()
        &&& self.inner@.len() == self.start + self.blocks_written * 2880
        &&& self.records@.len() == self.blocks_written * 36 + self.slot
        &&& all_records(self.records@)
        &&& self.written() + self.pending() == joined(self.records@)
    }

    /// How the bytes handed to a writer are laid out: whole blocks written,
    /// one for every 36 card images, and fewer than 36 card images waiting.
    pub open spec fn layout(&self) -> bool {
        &&& self.written().len() == self.blocks_out() * 2880
        &&& self.blocks_out() == self.records_in() / 36
        &&& self.pending().len() == 80 * (self.records_in() % 36)
        &&& self.pending().len() < 2880
    }

    /// After any number of card images, a writer has written one block for
    /// every 36 of them, and those blocks hold exactly the first
    /// 36 × (that number of blocks) card images, one after another; the
    /// others wait, in order.
    pub proof fn written_blocks_hold_the_first_records(&self)
        requires
            self.well_formed(),
        ensures
            self.blocks_out() == self.records_in() / 36,
            self.written() == joined(self.records().take(36 * (self.records_in() / 36))),
            self.written() + self.pending() == joined(self.records()),
            all_records(self.records()),
    {
        self.lemma_layout();
        let recs = self.records@;
        let m: int = 36 * (recs.len() as int / 36);
        lemma_joined_len(recs);
        lemma_joined_prefix(recs, m);
        assert(self.written() =~= joined(recs).subrange(0, 80 * m));
    }

    /// The number of whole blocks written so far.
    pub fn blocks_written(&self) -> (r: u64)
        ensures
            r == self.blocks_out(),
    {
        self.blocks_written
    }

    /// A writer that appends blocks to `inner`.
    pub fn new(inner: Vec<u8>) -> (w: BlockWriter)
        ensures
            w.well_formed(),
            w.layout(),
            w.sink_before() == inner@,
            w.written() == Seq::<u8>::empty(),
            w.pending() == Seq::<u8>::empty(),
            w.blocks_out() == 0,
            w.records() == Seq::<Seq<u8>>::empty(),
    {
        let start = inner.len();
        let w = BlockWriter {
            inner,
            start,
            buffer: Block::blank(),
            slot: 0,
            records: Ghost(Seq::empty()),
            blocks_written: 0,
        };
        assert(w.pending() =~= Seq::<u8>::empty());
        assert(w.sink_before() =~= inner@);
        assert(w.written() =~= Seq::<u8>::empty());
        assert(w.written() + w.pending() =~= joined(Seq::<Seq<u8>>::empty()));
        w
    }

    /// Adds a card image; the block is written out when its 36th card image
    /// arrives.
    pub fn write_record(&mut self, record: &[u8; 80]) -> (r: Result<(), Error>)
        requires
            old(self).well_formed(),
            old(self).blocks_out() < u64::MAX,
        ensures
            r is Ok,
            final(self).well_formed(),
            final(self).layout(),
            final(self).sink_before() == old(self).sink_before(),
            final(self).records() == old(self).records().push(record@),
            old(self).pending().len() + 80 < 2880 ==> {
                &&& final(self).written() == old(self).written()
                &&& final(self).pending() == old(self).pending() + record@
                &&& final(self).blocks_out() == old(self).blocks_out()
            },
            old(self).pending().len() + 80 == 2880 ==> {
                &&& final(self).written() == old(self).written() + old(self).pending() + record@
                &&& final(self).pending() == Seq::<u8>::empty()
                &&& final(self).blocks_out() == old(self).blocks_out() + 1
            },
    {
        let ghost w0 = old(self).written();
        let ghost p0 = old(self).pending();
        let ghost recs0 = self.records@;
        self.buffer.set_record(self.slot, record);
        self.slot = self.slot + 1;
        self.records = Ghost(recs0.push(record@));
        assert(self.pending() =~= p0 + record@);
        if self.slot == 36 {
            let ghost buf = self.buffer@;
            assert(buf =~= p0 + record@);
            self.flush();
            assert(self.pending() =~= Seq::<u8>::empty());
        }
        proof {
            let recs = self.records@;
            assert(recs.drop_last() =~= recs0);
            assert(all_records(recs));
            assert(self.written() + self.pending() =~= w0 + p0 + record@);
            assert(joined(recs) == joined(recs0) + record@);
            self.lemma_layout();
        }
        Ok(())
    }

    proof fn lemma_layout(&self)
        requires
            self.well_formed(),
        ensures
            self.layout(),
    {
        assert(self.written().len() == self.blocks_out() * 2880);
        assert((self.blocks_written * 36 + self.slot) / 36 == self.blocks_written) by (nonlinear_arith)
            requires
                self.slot < 36,
        ;
        assert((self.blocks_written * 36 + self.slot) % 36 == self.slot) by (nonlinear_arith)
            requires
                self.slot < 36,
        ;
    }

    /// Writes out the buffered block, filled with spaces.
    fn flush(&mut self)
        requires
            old(self).slot <= 36,
            old(self).buffer@.len() == 2880,
            forall|j: int| old(self).slot * 80 <= j < 2880 ==> old(self).buffer@[j] == 0x20,
            old(self).start <= old(self).inner@.len(),
            old(self).inner@.len() == old(self).start + old(self).blocks_out() * 2880,
            old(self).blocks_out() < u64::MAX,
        ensures
            final(self).slot == 0,
            final(self).buffer@ == Seq::new(2880, |i: int| 0x20u8),
            final(self).start == old(self).start,
            final(self).records == old(self).records,
            final(self).start <= final(self).inner@.len(),
            final(self).inner@.len() == final(self).start + final(self).blocks_out() * 2880,
            final(self).sink_before() == old(self).sink_before(),
            final(self).written() == old(self).written() + old(self).buffer@,
            final(self).blocks_out() == old(self).blocks_out() + 1,
    {
        let ghost before = self.inner@;
        crate::card::encode::push_all(&mut self.inner, self.buffer.as_bytes());
        self.blocks_written = self.blocks_written + 1;
        self.buffer = Block::blank();
        self.slot = 0;
        assert(self.sink_before() =~= old(self).sink_before());
        assert(self.written() =~= old(self).written() + old(self).buffer@);
    }

    /// Writes out the last block, if any card images wait for it, and gives
    /// the number of blocks written, one for every 36 card images handed in
    /// and one more for those left over, and the vector: what it held
    /// before, then the card images one after another, then spaces up to a
    /// whole number of blocks.
    pub fn finish(self) -> (r: (u64, Vec<u8>))
        requires
            self.well_formed(),
            self.blocks_out() < u64::MAX,
        ensures
            r.0 == self.blocks_out() + if self.pending().len() > 0 { 1int } else { 0int },
            r.0 == blocks_for_records(self.records_in()),
            r.1@ == self.sink_before() + blocks_of(self.records()),
            r.1@.len() == self.sink_before().len() + r.0 * 2880,
    {
        proof {
            self.lemma_layout();
            assert(self.inner@ =~= self.sink_before() + self.written());
            lemma_joined_len(self.records@);
            let k = self.records@.len();
            let b = self.blocks_written as int;
            let s = self.slot as int;
            assert(s == 0 ==> (b * 36 + s + 35) / 36 == b) by (nonlinear_arith)
                requires
                    0 <= s < 36,
            ;
            assert(s > 0 ==> (b * 36 + s + 35) / 36 == b + 1) by (nonlinear_arith)
                requires
                    0 <= s < 36,
            ;
        }
        let ghost recs = self.records@;
        let mut w = self;
        if w.slot > 0 {
            let ghost buf = w.buffer@;
            let ghost p = self.pending();
            w.flush();
            assert(buf =~= p + Seq::new((2880 - p.len()) as nat, |i: int| 0x20u8));
            assert(w.inner@ =~= w.sink_before() + w.written());
            assert(w.inner@ =~= self.sink_before() + (self.written() + p) + Seq::new(
                (2880 - p.len()) as nat,
                |i: int| 0x20u8,
            ));
        } else {
            assert(self.pending() =~= Seq::<u8>::empty());
            assert(w.inner@ =~= self.sink_before() + (self.written() + self.pending()) + Seq::new(
                0,
                |i: int| 0x20u8,
            ));
        }
        (w.blocks_written, w.inner)
    }
}

/// The blocks written for some card images read back as those card images
/// in order, then card images of spaces: card image `i` of block `j` is card
/// image `36 j + i` where there is one, a blank one otherwise.
pub proof fn written_blocks_read_back(recs: Seq<Seq<u8>>, j: int, i: int)
    requires
        all_records(recs),
        0 <= j < blocks_for_records(recs.len() as int),
        0 <= i < 36,
    ensures
        blocks_of(recs).len() == blocks_for_records(recs.len() as int) * 2880,
        record_at(blocks_of(recs).subrange(2880 * j, 2880 * j + 2880), i) == if 36 * j + i
            < recs.len() {
            recs[36 * j + i]
        } else {
            blank_record()
        },
{
    let k = recs.len() as int;
    let nb = blocks_for_records(k);
    lemma_joined_len(recs);
    assert(nb * 2880 >= 80 * k) by (nonlinear_arith)
        requires
            nb == (k + 35) / 36,
            k >= 0,
    ;
    assert(36 * j + i < 36 * nb) by (nonlinear_arith)
        requires
            j < nb,
            i < 36,
    ;
    let n = 36 * j + i;
    let all = blocks_of(recs);
    assert(record_at(all.subrange(2880 * j, 2880 * j + 2880), i) =~= all.subrange(80 * n, 80 * n
        + 80));
    if n < k {
        lemma_joined_at(recs, n);
        assert(all.subrange(80 * n, 80 * n + 80) =~= joined(recs).subrange(80 * n, 80 * n + 80));
    } else {
        assert(all.subrange(80 * n, 80 * n + 80) =~= blank_record());
    }
}

} // verus!
