//! A FITS file held in memory, and the index of its HDUs.
use vstd::prelude::*;

use super::hdu::{extension_kind, hdu_kind_from_extension_header, image_kind, HduEntry, HduKind, HduModel};
use crate::bitpix::{bitpix_of, bitpix_width, Bitpix};
use crate::card::{CardModel, ValueModel};
use crate::error::{fault_matches, Error, HeaderFault, IoError, IoErrorKind};
use crate::header::keywords::{axes_fault, axes_product, data_size, data_size_fault};
use crate::pixel::Pixel;
use super::bintable::{element_bytes, ColumnModel};
use super::compression::{
    algorithm_of, algorithm_text, compression_fault, int_param, quantize_of, tiling_of, zbitpix_of, AlgoParams, CmpType,
    CompressionHeader,
};
use super::rice::{rice_decode, rice_decompress};
use super::table::{
    descriptor_at, descriptor_width, field_pos, first_column_named, layout_fault, layout_of,
    vla_element,
    BinTableLayout, LayoutModel,
};
use super::tiles::{placed, prefix_product, tile_pixels, tiles_product, valid_tiling};
use crate::header::read::{read_cards, read_failure_matches, ReadFailure};
use crate::header::{lookup, lookup_value, Header};
use crate::io::block::{blocks_for, BlockReader};

verus! {

/// EXTNAME, when it is a string.
pub open spec fn hdu_name(cards: Seq<CardModel>) -> Option<Seq<char>> {
    match lookup_value(cards, "EXTNAME"@) {
        Some(ValueModel::String(s)) => Some(s),
        _ => None,
    }
}

/// EXTVER, when it is an integer.
pub open spec fn hdu_version(cards: Seq<CardModel>) -> Option<i64> {
    match lookup_value(cards, "EXTVER"@) {
        Some(ValueModel::Integer(i)) => Some(i),
        _ => None,
    }
}

/// The index entry of an HDU whose header, at `offset`, holds `cards` and
/// takes `nblocks` blocks: its data follows the header and takes
/// `data_size` rounded up to whole blocks. The first HDU is the primary
/// one; the kind of the others comes from their header. `None` when the
/// header does not give the data size or the kind, or an offset does not
/// fit in 64 bits.
pub open spec fn entry_for(cards: Seq<CardModel>, index: int, offset: int, nblocks: int) -> Option<
    HduModel,
> {
    let kind = if index == 0 {
        Some(HduKind::Primary)
    } else {
        extension_kind(cards)
    };
    match (data_size(cards), kind) {
        (Some(sz), Some(k)) => {
            let dl = blocks_for(sz) * 2880;
            let doff = offset + nblocks * 2880;
            if 0 <= dl <= u64::MAX && doff + dl <= u64::MAX {
                Some(
                    HduModel {
                        index,
                        header_offset: offset,
                        data_offset: doff,
                        data_len: dl,
                        kind: k,
                        name: hdu_name(cards),
                        version: hdu_version(cards),
                    },
                )
            } else {
                None
            }
        },
        _ => None,
    }
}

/// The entry of the HDU whose header starts at `offset`, `index` HDUs
/// coming before it.
pub open spec fn hdu_at(data: Seq<u8>, offset: int, index: int) -> Option<HduModel> {
    if 0 <= offset <= data.len() {
        match read_cards(data.subrange(offset, data.len() as int), 0, Seq::empty()) {
            Ok((cards, nb)) => entry_for(cards, index, offset, nb),
            Err(_) => None,
        }
    } else {
        None
    }
}

pub proof fn lemma_read_cards_blocks(data: Seq<u8>, k: int, acc: Seq<CardModel>)
    requires
        k >= 0,
    ensures
        read_cards(data, k, acc) matches Ok((c, n)) ==> 1 <= n && n * 2880 <= data.len(),
    decreases data.len() - k * 80,
{
    if !(k < 0 || (k / 36 + 1) * 2880 > data.len()) {
        crate::header::read::lemma_record_in_block(k);
        let rec = data.subrange(k * 80, k * 80 + 80);
        if crate::card::all_printable(rec) {
            match crate::card::parse_card(rec) {
                Ok(m) => {
                    if !(m is End) {
                        lemma_read_cards_blocks(data, k + 1, crate::header::read::add_card(acc, m));
                    }
                },
                Err(_) => {},
            }
        }
    }
}

/// The HDUs of `data` from the header at `offset` on, after `entries`: the
/// scan ends where less than a block is left after an HDU.
pub open spec fn scan_hdus(data: Seq<u8>, offset: int, entries: Seq<HduModel>) -> Option<
    Seq<HduModel>,
>
    decreases data.len() + 1 - offset,
{
    match hdu_at(data, offset, entries.len() as int) {
        None => None,
        Some(e) => {
            let next = e.data_offset + e.data_len;
            let es = entries.push(e);
            if next > data.len() || data.len() - next < 2880 {
                Some(es)
            } else {
                proof {
                    lemma_read_cards_blocks(data.subrange(offset, data.len() as int), 0, Seq::empty());
                }
                scan_hdus(data, next, es)
            }
        },
    }
}

/// Why no HDU can be read at some offset: its header cannot be read, or it
/// does not give what the index needs.
pub enum HduFault {
    Read(ReadFailure),
    Header(HeaderFault),
}

/// Whether `r` is the error that `f` stands for.
pub open spec fn hdu_fault_matches<T>(r: Result<T, Error>, f: HduFault) -> bool {
    match f {
        HduFault::Read(rf) => read_failure_matches(r, rf),
        HduFault::Header(hf) => fault_matches(r, hf),
    }
}

/// The error of the HDU whose header starts at `offset`, `index` HDUs
/// coming before it, when it has no entry (`hdu_at` is `None`): the failure
/// to read its header; else that of its data size; else, for an extension,
/// a missing or invalid XTENSION; else an offset past 2^64.
pub open spec fn hdu_fault(data: Seq<u8>, offset: int, index: int) -> HduFault {
    match read_cards(data.subrange(offset, data.len() as int), 0, Seq::empty()) {
        Err(f) => HduFault::Read(f),
        Ok((cards, _)) => match data_size(cards) {
            None => HduFault::Header(data_size_fault(cards)),
            Some(sz) => if blocks_for(sz) * 2880 <= u64::MAX && index > 0 && extension_kind(cards)
                is None {
                match lookup(cards, "XTENSION"@) {
                    None => HduFault::Header(HeaderFault::Missing("XTENSION"@)),
                    Some(_) => HduFault::Header(HeaderFault::BadValue("XTENSION"@)),
                }
            } else {
                HduFault::Header(HeaderFault::Header("data size does not fit in 64 bits"@))
            },
        },
    }
}

/// The error of a scan from the header at `offset` on (see `scan_hdus`),
/// when it fails: that of the first HDU that has no entry.
pub open spec fn scan_fault(data: Seq<u8>, offset: int, entries: Seq<HduModel>) -> HduFault
    decreases data.len() + 1 - offset,
{
    match hdu_at(data, offset, entries.len() as int) {
        None => hdu_fault(data, offset, entries.len() as int),
        Some(e) => {
            let next = e.data_offset + e.data_len;
            if next > data.len() || data.len() - next < 2880 {
                HduFault::Header(HeaderFault::Malformed)
            } else {
                proof {
                    lemma_read_cards_blocks(data.subrange(offset, data.len() as int), 0, Seq::empty());
                }
                scan_fault(data, next, entries.push(e))
            }
        },
    }
}

/// Whether `es` is the index of a file read from its start: the primary HDU
/// first, at offset 0, then only extensions; every entry numbered by its
/// position, its header taking one or more whole blocks, and each header
/// starting where the data of the HDU before it ends.
pub open spec fn hdu_chain(es: Seq<HduModel>) -> bool {
    &&& es.len() >= 1
    &&& es[0].kind == HduKind::Primary
    &&& es[0].header_offset == 0
    &&& forall|i: int| 0 <= i < es.len() ==> hdu_in_chain(es, i)
}

/// The properties of entry `i` of an index read from the start of a file.
pub open spec fn hdu_in_chain(es: Seq<HduModel>, i: int) -> bool {
    &&& es[i].index == i
    &&& es[i].data_offset - es[i].header_offset >= 2880
    &&& (es[i].data_offset - es[i].header_offset) % 2880 == 0
    &&& i > 0 ==> es[i].kind != HduKind::Primary && es[i].header_offset == es[i - 1].data_offset
        + es[i - 1].data_len
}

/// The first entries of an index read from the start of a file, the next
/// header being at `offset`.
spec fn chain_so_far(es: Seq<HduModel>, offset: int) -> bool {
    &&& es.len() == 0 ==> offset == 0
    &&& es.len() > 0 ==> es[0].kind == HduKind::Primary && es[0].header_offset == 0 && offset
        == es.last().data_offset + es.last().data_len
    &&& forall|i: int| 0 <= i < es.len() ==> hdu_in_chain(es, i)
}

/// What an entry found at `offset` looks like.
proof fn lemma_hdu_at_shape(data: Seq<u8>, offset: int, index: int)
    requires
        index >= 0,
        hdu_at(data, offset, index) is Some,
    ensures
        ({
            let e = hdu_at(data, offset, index)->0;
            &&& e.index == index
            &&& e.header_offset == offset
            &&& e.data_offset - offset >= 2880
            &&& (e.data_offset - offset) % 2880 == 0
            &&& index == 0 ==> e.kind == HduKind::Primary
            &&& index > 0 ==> e.kind != HduKind::Primary
        }),
{
    let rest = data.subrange(offset, data.len() as int);
    lemma_read_cards_blocks(rest, 0, Seq::empty());
    let (cards, nb) = read_cards(rest, 0, Seq::empty())->Ok_0;
    vstd::arithmetic::div_mod::lemma_mod_multiples_basic(nb, 2880);
    assert(nb * 2880 >= 2880) by (nonlinear_arith)
        requires
            nb >= 1,
    ;
}

/// Scanning on from the first entries of a chain gives a chain.
proof fn lemma_scan_chain(data: Seq<u8>, offset: int, entries: Seq<HduModel>)
    requires
        chain_so_far(entries, offset),
        scan_hdus(data, offset, entries) is Some,
    ensures
        hdu_chain(scan_hdus(data, offset, entries)->0),
    decreases data.len() + 1 - offset,
{
    let e = hdu_at(data, offset, entries.len() as int)->0;
    lemma_hdu_at_shape(data, offset, entries.len() as int);
    let next = e.data_offset + e.data_len;
    let es = entries.push(e);
    assert forall|i: int| 0 <= i < es.len() implies hdu_in_chain(es, i) by {
        if i < entries.len() {
            assert(hdu_in_chain(entries, i));
            if i > 0 {
                assert(es[i - 1] == entries[i - 1]);
            }
        }
    }
    assert(chain_so_far(es, next));
    if !(next > data.len() || data.len() - next < 2880) {
        lemma_read_cards_blocks(data.subrange(offset, data.len() as int), 0, Seq::empty());
        lemma_scan_chain(data, next, es);
    }
}

/// The index of a file is a chain of HDUs (see `hdu_chain`): the primary
/// HDU first at offset 0, then extensions only, each header starting where
/// the data before it ends and taking whole blocks.
pub proof fn hdu_index_is_a_chain(data: Seq<u8>)
    requires
        scan_hdus(data, 0, Seq::empty()) is Some,
    ensures
        hdu_chain(scan_hdus(data, 0, Seq::empty())->0),
{
    lemma_scan_chain(data, 0, Seq::empty());
}

/// Whether `s` is `PRIMARY` in any mix of ASCII case.
pub open spec fn is_primary_name(s: Seq<char>) -> bool {
    s.len() == "primary"@.len() && forall|k: int|
        0 <= k < s.len() ==> lower_char(#[trigger] s[k]) == "primary"@[k]
}

/// ASCII upper-case letters lowered, every other character kept.
pub open spec fn lower_char(c: char) -> char {
    if 'A' <= c <= 'Z' {
        ((c as u32) + 0x20) as char
    } else {
        c
    }
}

/// The first entry, at or after `i`, with EXTNAME `name` and EXTVER
/// `target`, a missing EXTVER counting as 1.
pub open spec fn first_named(es: Seq<HduModel>, name: Seq<char>, target: i64, i: int) -> Option<int>
    decreases es.len() - i,
{
    if !(0 <= i < es.len()) {
        None
    } else if es[i].name == Some(name) && match es[i].version {
        Some(v) => v,
        None => 1,
    } == target {
        Some(i)
    } else {
        first_named(es, name, target, i + 1)
    }
}

/// The cards of the header of the HDU `e`.
pub open spec fn header_cards(bytes: Seq<u8>, e: HduModel) -> Result<Seq<CardModel>, ReadFailure> {
    match read_cards(bytes.subrange(e.header_offset, bytes.len() as int), 0, Seq::empty()) {
        Ok((c, _)) => Ok(c),
        Err(f) => Err(f),
    }
}

/// NAXIS, NAXIS1 and NAXIS2 (ZNAXIS, ZNAXIS1 and ZNAXIS2 for a compressed
/// image), when all three are valid.
pub open spec fn image_dims(cards: Seq<CardModel>, compressed: bool) -> Option<(int, int, int)> {
    if compressed {
        match (
            crate::fits::compression::znaxis_value(cards),
            crate::fits::compression::zaxis_value(cards, 1),
            crate::fits::compression::zaxis_value(cards, 2),
        ) {
            (Some(n), Some(w), Some(h)) => Some((n, w as int, h as int)),
            _ => None,
        }
    } else {
        match (
            lookup_value(cards, "NAXIS"@),
            crate::header::keywords::axis_value(cards, 1),
            crate::header::keywords::axis_value(cards, 2),
        ) {
            (Some(ValueModel::Integer(n)), Some(w), Some(h)) => if 0 <= n <= 999 {
                Some((n as int, w, h))
            } else {
                None
            },
            _ => None,
        }
    }
}

/// The first HDU, at or after `i`, that holds an image of two or more
/// dimensions with the first two non-empty; HDUs whose dimensions cannot be
/// read are passed over, and a header that cannot be read at all is an error.
pub open spec fn find_image_from(bytes: Seq<u8>, es: Seq<HduModel>, i: int) -> Result<
    Option<int>,
    ReadFailure,
>
    decreases es.len() - i,
{
    if !(0 <= i < es.len()) {
        Ok(None)
    } else if !image_kind(es[i].kind) {
        find_image_from(bytes, es, i + 1)
    } else {
        match header_cards(bytes, es[i]) {
            Err(f) => Err(f),
            Ok(cards) => match image_dims(cards, es[i].kind == HduKind::CompressedImage) {
                Some((n, w, h)) => if n >= 2 && w > 0 && h > 0 {
                    Ok(Some(i))
                } else {
                    find_image_from(bytes, es, i + 1)
                },
                None => find_image_from(bytes, es, i + 1),
            },
        }
    }
}

/// BITPIX, when it is one of the six allowed values.
pub open spec fn header_bitpix(cards: Seq<CardModel>) -> Option<Bitpix> {
    match lookup_value(cards, "BITPIX"@) {
        Some(ValueModel::Integer(i)) => bitpix_of(i as int),
        _ => None,
    }
}

/// The number of pixels of an image: 0 when NAXIS is 0, NAXIS1 × … ×
/// NAXISn otherwise; `None` when NAXIS or one of the axes is missing or
/// invalid.
pub open spec fn pixel_count(cards: Seq<CardModel>) -> Option<int> {
    match lookup_value(cards, "NAXIS"@) {
        Some(ValueModel::Integer(n)) => if n == 0 {
            Some(0)
        } else if 0 < n <= 999 {
            axes_product(cards, n as nat)
        } else {
            None
        },
        _ => None,
    }
}

/// The error of an image header that gives no pixel count (`pixel_count` is
/// `None`): NAXIS missing or out of range, else the first wrong NAXISn.
pub open spec fn pixel_count_fault(cards: Seq<CardModel>) -> HeaderFault {
    match lookup_value(cards, "NAXIS"@) {
        None => HeaderFault::Missing("NAXIS"@),
        Some(ValueModel::Integer(n)) => if 0 <= n <= 999 {
            match axes_fault(cards, n as nat) {
                Some(f) => f,
                None => HeaderFault::Malformed,
            }
        } else {
            HeaderFault::BadValue("NAXIS"@)
        },
        Some(_) => HeaderFault::BadValue("NAXIS"@),
    }
}

/// The `count` pixels whose big-endian bytes follow one another in `raw`.
pub open spec fn pixels_of<T: Pixel>(raw: Seq<u8>, count: int) -> Seq<T> {
    let w = bitpix_width(T::pixel_bitpix()) as int;
    Seq::new(count as nat, |i: int| T::decoded(raw.subrange(i * w, i * w + w)))
}

/// What reading the image of the HDU `e` of `bytes` as pixels of type `want`
/// comes to: `UnsupportedFeature` for a tile-compressed image, `InvalidHDU`
/// for an HDU that holds no image, the failure of its header, a
/// `MissingKeyword` or `InvalidKeywordValue` error for BITPIX, `TypeMismatch`
/// when it is not `want`, the error of `pixel_count_fault` when NAXIS or an
/// axis is missing or invalid, `UnexpectedEof` when
/// the file ends before the last pixel; otherwise `ok` holds of the result,
/// the raw bytes of the pixels and their number.
pub open spec fn image_read<R>(
    r: Result<R, Error>,
    bytes: Seq<u8>,
    e: HduModel,
    want: Bitpix,
    ok: spec_fn(R, Seq<u8>, int) -> bool,
) -> bool {
    if e.kind == HduKind::CompressedImage {
        r matches Err(Error::UnsupportedFeature(m)) && m@
            == "reading tile-compressed images is not yet implemented"@
    } else if e.kind != HduKind::Primary && e.kind != HduKind::Image {
        r matches Err(Error::InvalidHDU(m)) && m@ == "HDU "@ + crate::error::decimal(e.index as nat)
            + " is "@ + kind_text(e.kind) + ", not an image"@
    } else {
        match header_cards(bytes, e) {
            Err(f) => read_failure_matches(r, f),
            Ok(cards) => match header_bitpix(cards) {
                None => match lookup_value(cards, "BITPIX"@) {
                    None => r matches Err(Error::MissingKeyword(k)) && k@ == "BITPIX"@,
                    Some(_) => r matches Err(Error::InvalidKeywordValue { keyword, .. }) && keyword@
                        == "BITPIX"@,
                },
                Some(b) => if b != want {
                    r matches Err(Error::TypeMismatch(m)) && m@ == "header has "@ + bitpix_text(b)
                        + ", caller requested "@ + bitpix_text(want)
                } else {
                    match pixel_count(cards) {
                        None => fault_matches(r, pixel_count_fault(cards)),
                        Some(c) => if c == 0 {
                            r matches Ok(v) && ok(v, Seq::empty(), 0)
                        } else if e.data_offset + c * bitpix_width(b) > bytes.len() {
                            r matches Err(Error::Io(io)) && io.kind == IoErrorKind::UnexpectedEof
                        } else {
                            r matches Ok(v) && ok(
                                v,
                                bytes.subrange(e.data_offset, e.data_offset + c * bitpix_width(b)),
                                c,
                            )
                        },
                    }
                },
            },
        }
    }
}

/// The number of pixels that the header of the HDU `e` gives.
pub open spec fn image_count(bytes: Seq<u8>, e: HduModel) -> int {
    match header_cards(bytes, e) {
        Ok(cards) => match pixel_count(cards) {
            Some(c) => c,
            None => 0,
        },
        Err(_) => 0,
    }
}

/// The compressed bytes of tile `t`: the variable-length array of column
/// `c` in row `t` of the table whose data starts at `data_offset`; `None`
/// when its descriptor or its bytes lie past the end of `bytes`, the count
/// or offset is negative, it takes 2^60 bytes or more, or the column is not
/// a variable-length array.
pub open spec fn tile_bytes(bytes: Seq<u8>, l: LayoutModel, c: ColumnModel, data_offset: int, t: int) -> Option<
    Seq<u8>,
> {
    let w = descriptor_width(c.form);
    let p = field_pos(l, c, data_offset, t);
    match vla_element(c.form) {
        None => None,
        Some(e) => if t >= l.n_rows || p + 2 * w > bytes.len() {
            None
        } else {
            let (count, offset) = descriptor_at(bytes, l, c, data_offset, t);
            let start = data_offset + l.heap_offset + offset;
            let size = count * element_bytes(e);
            if count < 0 || offset < 0 || start + size > bytes.len() || size
                >= 0x1000_0000_0000_0000 {
                None
            } else {
                Some(bytes.subrange(start, start + size))
            }
        },
    }
}

/// The image once the first `t` tiles have been Rice-decoded and put in
/// place, starting from an image of zeros; `None` when one of them cannot be
/// read or decoded.
pub open spec fn image_after_tiles(
    bytes: Seq<u8>,
    l: LayoutModel,
    c: ColumnModel,
    data_offset: int,
    img: Seq<u64>,
    tile: Seq<u64>,
    block_size: nat,
    byte_pix: nat,
    t: nat,
) -> Option<Seq<i32>>
    decreases t,
{
    if t == 0 {
        Some(Seq::new(prefix_product(img, img.len()), |i: int| 0i32))
    } else {
        let k = (t - 1) as nat;
        match image_after_tiles(bytes, l, c, data_offset, img, tile, block_size, byte_pix, k) {
            None => None,
            Some(out) => match tile_bytes(bytes, l, c, data_offset, k as int) {
                None => None,
                Some(tb) => match rice_decode(tb, tile_pixels(img, tile, k), block_size, byte_pix) {
                    None => None,
                    Some(px) => Some(placed(img, tile, k, px, out, tile_pixels(img, tile, k))),
                },
            },
        }
    }
}

/// Once a tile fails, the image fails.
proof fn lemma_image_after_tiles_none(
    bytes: Seq<u8>,
    l: LayoutModel,
    c: ColumnModel,
    data_offset: int,
    img: Seq<u64>,
    tile: Seq<u64>,
    block_size: nat,
    byte_pix: nat,
    k: nat,
    t: nat,
)
    requires
        k <= t,
        image_after_tiles(bytes, l, c, data_offset, img, tile, block_size, byte_pix, k) is None,
    ensures
        image_after_tiles(bytes, l, c, data_offset, img, tile, block_size, byte_pix, t) is None,
    decreases t - k,
{
    if k < t {
        lemma_image_after_tiles_none(
            bytes,
            l,
            c,
            data_offset,
            img,
            tile,
            block_size,
            byte_pix,
            k,
            (t - 1) as nat,
        );
    }
}

/// Whether tile `t` cannot be read because the data ends first: within its
/// descriptor, or, the descriptor being valid, within its bytes in the heap.
pub open spec fn tile_short(bytes: Seq<u8>, l: LayoutModel, c: ColumnModel, data_offset: int, t: int) -> bool {
    let w = descriptor_width(c.form);
    let p = field_pos(l, c, data_offset, t);
    match vla_element(c.form) {
        None => false,
        Some(e) => t < l.n_rows && (p + 2 * w > bytes.len() || {
            let (count, offset) = descriptor_at(bytes, l, c, data_offset, t);
            count >= 0 && offset >= 0 && data_offset + l.heap_offset + offset + count
                * element_bytes(e) > bytes.len()
        }),
    }
}

/// How the first `t` tiles fail: `None` while all of them are read and
/// decoded, else whether the first one that fails does so because the data
/// ends first.
pub open spec fn tiles_failure(
    bytes: Seq<u8>,
    l: LayoutModel,
    c: ColumnModel,
    data_offset: int,
    img: Seq<u64>,
    tile: Seq<u64>,
    block_size: nat,
    byte_pix: nat,
    t: nat,
) -> Option<bool>
    decreases t,
{
    if t == 0 {
        None
    } else {
        let k = (t - 1) as nat;
        match tiles_failure(bytes, l, c, data_offset, img, tile, block_size, byte_pix, k) {
            Some(short) => Some(short),
            None => if image_after_tiles(
                bytes,
                l,
                c,
                data_offset,
                img,
                tile,
                block_size,
                byte_pix,
                t,
            ) is None {
                Some(tile_short(bytes, l, c, data_offset, k as int))
            } else {
                None
            },
        }
    }
}

/// Once a tile fails, the failure of the first `t` tiles is that one.
proof fn lemma_tiles_failure_stays(
    bytes: Seq<u8>,
    l: LayoutModel,
    c: ColumnModel,
    data_offset: int,
    img: Seq<u64>,
    tile: Seq<u64>,
    block_size: nat,
    byte_pix: nat,
    k: nat,
    t: nat,
)
    requires
        k <= t,
        tiles_failure(bytes, l, c, data_offset, img, tile, block_size, byte_pix, k) is Some,
    ensures
        tiles_failure(bytes, l, c, data_offset, img, tile, block_size, byte_pix, t)
            == tiles_failure(bytes, l, c, data_offset, img, tile, block_size, byte_pix, k),
    decreases t - k,
{
    if k < t {
        lemma_tiles_failure_stays(
            bytes,
            l,
            c,
            data_offset,
            img,
            tile,
            block_size,
            byte_pix,
            k,
            (t - 1) as nat,
        );
    }
}

/// The number of pixels of an image of shape `shape`, when it fits in a
/// `usize`.
fn image_pixels(shape: &Vec<u64>) -> (r: Option<usize>)
    ensures
        prefix_product(shape@, shape@.len()) <= usize::MAX ==> r == Some(
            prefix_product(shape@, shape@.len()) as usize,
        ),
        prefix_product(shape@, shape@.len()) > usize::MAX ==> r is None,
{
    let mut d: usize = 0;
    let mut prod: u64 = 1;
    let mut big = false;
    let mut zero = false;
    while d < shape.len()
        invariant
            d <= shape@.len(),
            (zero ==> prefix_product(shape@, d as nat) == 0),
            (!zero && !big ==> prefix_product(shape@, d as nat) == prod),
            (!zero && big ==> prefix_product(shape@, d as nat) > u64::MAX),
        decreases shape@.len() - d,
    {
        let v = shape[d];
        let ghost p = prefix_product(shape@, d as nat);
        let ghost was_zero = zero;
        let ghost was_big = big;
        if v == 0 {
            zero = true;
        } else if !big {
            match prod.checked_mul(v) {
                Some(x) => {
                    prod = x;
                },
                None => {
                    big = true;
                },
            }
        }
        proof {
            assert(prefix_product(shape@, (d + 1) as nat) == p * v);
            if v == 0 {
                assert(p * v == 0) by (nonlinear_arith)
                    requires
                        v == 0,
                ;
            } else if was_zero {
                assert(p * v == 0) by (nonlinear_arith)
                    requires
                        p == 0,
                ;
            } else if was_big {
                assert(p * v > u64::MAX) by (nonlinear_arith)
                    requires
                        p > u64::MAX,
                        v >= 1,
                ;
            }
        }
        d = d + 1;
    }
    if zero {
        Some(0)
    } else if big || prod > usize::MAX as u64 {
        None
    } else {
        Some(prod as usize)
    }
}

/// An empty axis leaves an image with no pixels.
proof fn lemma_zero_axis(img: Seq<u64>, d: int, k: nat)
    requires
        0 <= d < k <= img.len(),
        img[d] == 0,
    ensures
        prefix_product(img, k) == 0,
    decreases k,
{
    if k > d + 1 {
        lemma_zero_axis(img, d, (k - 1) as nat);
    }
    let p = prefix_product(img, (k - 1) as nat);
    let v = img[k - 1] as nat;
    assert(p * v == 0) by (nonlinear_arith)
        requires
            p == 0 || v == 0,
    ;
}

/// The name of an HDU kind, as its variant is spelled.
pub open spec fn kind_text(k: HduKind) -> Seq<char> {
    match k {
        HduKind::Primary => "Primary"@,
        HduKind::Image => "Image"@,
        HduKind::BinaryTable => "BinaryTable"@,
        HduKind::AsciiTable => "AsciiTable"@,
        HduKind::CompressedImage => "CompressedImage"@,
    }
}

/// The name of a BITPIX variant, as it is spelled.
pub open spec fn bitpix_text(b: Bitpix) -> Seq<char> {
    match b {
        Bitpix::UnsignedByte => "UnsignedByte"@,
        Bitpix::SignedShort => "SignedShort"@,
        Bitpix::SignedInt => "SignedInt"@,
        Bitpix::SignedLong => "SignedLong"@,
        Bitpix::Float => "Float"@,
        Bitpix::Double => "Double"@,
    }
}

/// The name of an HDU kind.
fn kind_name(k: HduKind) -> (r: &'static str)
    ensures
        r@ == kind_text(k),
{
    match k {
        HduKind::Primary => "Primary",
        HduKind::Image => "Image",
        HduKind::BinaryTable => "BinaryTable",
        HduKind::AsciiTable => "AsciiTable",
        HduKind::CompressedImage => "CompressedImage",
    }
}

/// The name of a BITPIX variant.
fn bitpix_name(b: Bitpix) -> (r: &'static str)
    ensures
        r@ == bitpix_text(b),
{
    match b {
        Bitpix::UnsignedByte => "UnsignedByte",
        Bitpix::SignedShort => "SignedShort",
        Bitpix::SignedInt => "SignedInt",
        Bitpix::SignedLong => "SignedLong",
        Bitpix::Float => "Float",
        Bitpix::Double => "Double",
    }
}

/// Whether `name` is `PRIMARY` in any mix of ASCII case.
fn primary_name(name: &str) -> (r: bool)
    ensures
        r == is_primary_name(name@),
{
    let p = "primary";
    let n = name.unicode_len();
    if n != p.unicode_len() {
        return false;
    }
    let mut k: usize = 0;
    while k < n
        invariant
            k <= n == name@.len() == p@.len(),
            p@ == "primary"@,
            forall|j: int| 0 <= j < k ==> lower_char(#[trigger] name@[j]) == p@[j],
        decreases n - k,
    {
        let c = name.get_char(k);
        let l = if 'A' <= c && c <= 'Z' {
            ((c as u8) + 0x20) as char
        } else {
            c
        };
        if l != p.get_char(k) {
            return false;
        }
        k = k + 1;
    }
    true
}

/// A FITS file held in memory, with the index of its HDUs.
pub struct Fits {
    data: Vec<u8>,
    index: Vec<HduEntry>,
}

impl Fits {
    /// The bytes of the file.
    pub closed spec fn bytes(&self) -> Seq<u8> {
        self.data@
    }

    /// The index, one entry per HDU, in file order.
    pub closed spec fn entries(&self) -> Seq<HduModel> {
        self.index@.map_values(|e: HduEntry| e@)
    }

    /// Every entry is numbered by its position and starts within the file.
    pub closed spec fn well_formed(&self) -> bool {
        forall|i: int|
            0 <= i < self.entries().len() ==> (#[trigger] self.entries()[i]).index == i
                && self.entries()[i].header_offset <= self.bytes().len()
    }

    /// Reads the header at `offset` and adds the entry of its HDU; gives
    /// where the next HDU would start.
    fn scan_one(&mut self, offset: u64) -> (r: Result<u64, Error>)
        requires
            offset <= old(self).bytes().len(),
            old(self).well_formed(),
        ensures
            final(self).well_formed(),
            final(self).bytes() == old(self).bytes(),
            match hdu_at(old(self).bytes(), offset as int, old(self).entries().len() as int) {
                Some(e) => r == Ok::<u64, Error>((e.data_offset + e.data_len) as u64)
                    && final(self).entries() == old(self).entries().push(e),
                None => hdu_fault_matches(
                    r,
                    hdu_fault(old(self).bytes(), offset as int, old(self).entries().len() as int),
                ),
            },
    {
        let ghost data = self.data@;
        let len = self.data.len();
        let rest = &self.data.as_slice()[offset as usize..len];
        let mut reader = BlockReader::new(rest);
        let (header, blocks) = match Header::read_from_block_reader(&mut reader) {
            Ok(x) => x,
            Err(e) => return Err(e),
        };
        proof {
            assert(rest@ =~= data.subrange(offset as int, data.len() as int));
            lemma_read_cards_blocks(rest@, 0, Seq::empty());
        }
        let data_offset = offset + blocks * 2880;
        let data_len = match header.data_len() {
            Ok(n) => n,
            Err(e) => return Err(e),
        };
        let kind = if self.index.len() == 0 {
            HduKind::Primary
        } else {
            match hdu_kind_from_extension_header(&header) {
                Ok(k) => k,
                Err(e) => return Err(e),
            }
        };
        let name = match header.get_value("EXTNAME") {
            Some(v) => match v.as_str() {
                Some(s) => Some(s.to_owned()),
                None => None,
            },
            None => None,
        };
        let version = match header.get_value("EXTVER") {
            Some(v) => v.as_integer(),
            None => None,
        };
        let next = match data_offset.checked_add(data_len) {
            Some(n) => n,
            None => return Err(
                Error::InvalidHeader(String::from_str("data size does not fit in 64 bits")),
            ),
        };
        proof {
            let rc = read_cards(data.subrange(offset as int, data.len() as int), 0, Seq::empty());
            assert(rc == Ok::<(Seq<CardModel>, int), ReadFailure>((header@, blocks as int)));
            assert(data_size(header@) is Some);
            crate::header::keywords::lemma_data_size_nonneg(header@);
            assert(entry_for(header@, self.entries().len() as int, offset as int, blocks as int) is Some);
            assert(hdu_at(data, offset as int, self.entries().len() as int) is Some);
        }
        let entry = HduEntry {
            index: self.index.len(),
            header_offset: offset,
            data_offset,
            data_len,
            kind,
            name,
            version,
        };
        let ghost before = self.entries();
        self.index.push(entry);
        assert(self.entries() =~= before.push(entry@));
        Ok(next)
    }

    /// Indexes the HDUs of the bytes of a FITS file (see `scan_hdus`); when
    /// an HDU has no entry, the error that `scan_fault` names: its header
    /// cannot be read or does not give its data size or kind.
    pub fn from_reader(data: Vec<u8>) -> (r: Result<Fits, Error>)
        ensures
            match scan_hdus(data@, 0, Seq::empty()) {
                Some(es) => r matches Ok(f) && f.entries() == es && f.bytes() == data@
                    && f.well_formed() && hdu_chain(f.entries()),
                None => hdu_fault_matches(r, scan_fault(data@, 0, Seq::empty())),
            },
    {
        let ghost bytes = data@;
        let mut fits = Fits { data, index: Vec::new() };
        let len = fits.data.len();
        let mut offset: u64 = 0;
        proof {
            assert(fits.entries() =~= Seq::<HduModel>::empty());
        }
        loop
            invariant
                fits.bytes() == bytes,
                fits.well_formed(),
                bytes == data@,
                len == bytes.len(),
                offset <= len,
                scan_hdus(bytes, 0, Seq::empty()) == scan_hdus(bytes, offset as int, fits.entries()),
                scan_fault(bytes, 0, Seq::empty()) == scan_fault(bytes, offset as int, fits.entries()),
            decreases len + 1 - offset,
        {
            let ghost before = fits.entries();
            let next = match fits.scan_one(offset) {
                Ok(n) => n,
                Err(e) => {
                    proof {
                        assert(hdu_at(bytes, offset as int, before.len() as int) is None);
                        assert(scan_hdus(bytes, offset as int, before) is None);
                    }
                    return Err(e);
                },
            };
            proof {
                lemma_read_cards_blocks(bytes.subrange(offset as int, bytes.len() as int), 0, Seq::empty());
                let e = hdu_at(bytes, offset as int, before.len() as int)->0;
                assert(next == e.data_offset + e.data_len);
                assert(fits.entries() == before.push(e));
            }
            if next > len as u64 || (len as u64) - next < 2880 {
                proof {
                    hdu_index_is_a_chain(bytes);
                }
                return Ok(fits);
            }
            offset = next;
        }
    }

    /// The entry of the HDU named `name`: for `PRIMARY` in any case, the
    /// first entry if it is the primary HDU; otherwise the first entry with
    /// EXTNAME `name` and EXTVER `version`, a missing version counting as 1.
    pub fn hdu_by_name(&self, name: &str, version: Option<i64>) -> (r: Option<&HduEntry>)
        ensures
            if is_primary_name(name@) {
                if self.entries().len() > 0 && self.entries()[0].kind == HduKind::Primary {
                    r matches Some(e) && e@ == self.entries()[0]
                } else {
                    r is None
                }
            } else {
                match first_named(
                    self.entries(),
                    name@,
                    match version {
                        Some(v) => v,
                        None => 1,
                    },
                    0,
                ) {
                    Some(i) => r matches Some(e) && e@ == self.entries()[i],
                    None => r is None,
                }
            },
    {
        if primary_name(name) {
            if self.index.len() > 0 && self.index[0].kind == HduKind::Primary {
                return Some(&self.index[0]);
            }
            return None;
        }
        let target: i64 = match version {
            Some(v) => v,
            None => 1,
        };
        let mut i: usize = 0;
        while i < self.index.len()
            invariant
                i <= self.entries().len(),
                !is_primary_name(name@),
                target == match version {
                    Some(v) => v,
                    None => 1,
                },
                first_named(self.entries(), name@, target, 0) == first_named(
                    self.entries(),
                    name@,
                    target,
                    i as int,
                ),
            decreases self.entries().len() - i,
        {
            let e = &self.index[i];
            let same_name = match &e.name {
                Some(n) => crate::text::str_eq(n.as_str(), name),
                None => false,
            };
            let v: i64 = match e.version {
                Some(v) => v,
                None => 1,
            };
            if same_name && v == target {
                return Some(e);
            }
            i = i + 1;
        }
        None
    }

    /// The header of HDU `n`; an `HduNotFound` error when there is no such
    /// HDU, the errors of `Header::read_from_block_reader` otherwise.
    pub fn read_header(&self, n: usize) -> (r: Result<Header, Error>)
        requires
            self.well_formed(),
        ensures
            n >= self.entries().len() ==> (r matches Err(Error::HduNotFound(m)) && m == n),
            n < self.entries().len() ==> match header_cards(self.bytes(), self.entries()[n as int]) {
                Ok(cards) => r matches Ok(h) && h.well_formed() && h@ == cards,
                Err(f) => read_failure_matches(r, f),
            },
    {
        if n >= self.index.len() {
            return Err(Error::HduNotFound(n));
        }
        let offset = self.index[n].header_offset;
        let len = self.data.len();
        let rest = &self.data.as_slice()[offset as usize..len];
        assert(rest@ =~= self.bytes().subrange(offset as int, self.bytes().len() as int));
        let mut reader = BlockReader::new(rest);
        match Header::read_from_block_reader(&mut reader) {
            Ok((h, _)) => Ok(h),
            Err(e) => Err(e),
        }
    }

    /// The index of the first HDU that holds an image of two or more
    /// dimensions, both of the first two non-empty (see `find_image_from`);
    /// the errors of `read_header` for a candidate whose header cannot be read.
    pub fn find_image(&self) -> (r: Result<Option<usize>, Error>)
        requires
            self.well_formed(),
        ensures
            match find_image_from(self.bytes(), self.entries(), 0) {
                Ok(Some(i)) => r == Ok::<Option<usize>, Error>(Some(i as usize)),
                Ok(None) => r == Ok::<Option<usize>, Error>(None),
                Err(f) => read_failure_matches(r, f),
            },
    {
        let mut i: usize = 0;
        while i < self.index.len()
            invariant
                self.well_formed(),
                i <= self.entries().len(),
                find_image_from(self.bytes(), self.entries(), 0) == find_image_from(
                    self.bytes(),
                    self.entries(),
                    i as int,
                ),
            decreases self.entries().len() - i,
        {
            let kind = self.index[i].kind;
            if kind == HduKind::Primary || kind == HduKind::Image || kind == HduKind::CompressedImage {
                let header = match self.read_header(i) {
                    Ok(h) => h,
                    Err(e) => return Err(e),
                };
                let dims: Option<(usize, u64, u64)> = if kind == HduKind::CompressedImage {
                    match (header.znaxis(), header.znaxisn(1), header.znaxisn(2)) {
                        (Ok(n), Ok(w), Ok(h)) => Some((n, w, h)),
                        _ => None,
                    }
                } else {
                    match (header.naxis(), header.naxisn(1), header.naxisn(2)) {
                        (Ok(n), Ok(w), Ok(h)) => Some((n, w, h)),
                        _ => None,
                    }
                };
                match dims {
                    Some((n, w, h)) => {
                        if n >= 2 && w > 0 && h > 0 {
                            return Ok(Some(i));
                        }
                    },
                    None => {},
                }
            }
            i = i + 1;
        }
        Ok(None)
    }

    /// The big-endian bytes of the pixels of the image of HDU `n`, checked to
    /// be of type `want` (see `image_read`).
    #[verifier::loop_isolation(false)]
    pub fn read_image_bytes(&self, n: usize, want: Bitpix) -> (r: Result<&[u8], Error>)
        requires
            self.well_formed(),
        ensures
            n >= self.entries().len() ==> (r matches Err(Error::HduNotFound(m)) && m == n),
            n < self.entries().len() ==> image_read(
                r,
                self.bytes(),
                self.entries()[n as int],
                want,
                |v: &[u8], raw: Seq<u8>, c: int| v@ == raw,
            ),
    {
        if n >= self.index.len() {
            return Err(Error::HduNotFound(n));
        }
        let kind = self.index[n].kind;
        if kind == HduKind::CompressedImage {
            return Err(
                Error::UnsupportedFeature(
                    String::from_str("reading tile-compressed images is not yet implemented"),
                ),
            );
        }
        if kind != HduKind::Primary && kind != HduKind::Image {
            let d = crate::card::encode::nat_digits(n as u64);
            proof {
                crate::header::keywords::lemma_nat_text_digits(n as nat);
            }
            let digits = crate::card::scan::ascii_string(d.as_slice());
            return Err(
                Error::InvalidHDU(
                    String::from_str("HDU ").concat(digits.as_str()).concat(" is ").concat(
                        kind_name(kind),
                    ).concat(", not an image"),
                ),
            );
        }
        let data_offset = self.index[n].data_offset;
        let header = match self.read_header(n) {
            Ok(h) => h,
            Err(e) => return Err(e),
        };
        let ghost cards = header@;
        let actual = match header.bitpix() {
            Ok(b) => b,
            Err(e) => return Err(e),
        };
        let wanted = want;
        proof {
            crate::bitpix::bitpix_value_law(actual, actual);
        }
        if actual != wanted {
            return Err(
                Error::TypeMismatch(
                    String::from_str("header has ").concat(bitpix_name(actual)).concat(
                        ", caller requested ",
                    ).concat(bitpix_name(wanted)),
                ),
            );
        }
        let naxis = match header.naxis() {
            Ok(x) => x,
            Err(e) => return Err(e),
        };
        if naxis == 0 {
            let v = vstd::slice::slice_subrange(self.data.as_slice(), 0, 0);
            assert(v@ =~= Seq::<u8>::empty());
            return Ok(v);
        }
        let mut k: usize = 1;
        let mut prod: u64 = 1;
        let mut big = false;
        let mut zero = false;
        while k <= naxis
            invariant
                header.well_formed(),
                cards == header@,
                1 <= k <= naxis + 1,
                naxis <= 999,
                prod >= 1,
                lookup_value(cards, "NAXIS"@) == Some(ValueModel::Integer(naxis as i64)),
                axes_product(cards, (k - 1) as nat) matches Some(p) && (zero ==> p == 0) && (!zero
                    && !big ==> p == prod) && (!zero && big ==> p > u64::MAX) && p >= 0,
                axes_fault(cards, (k - 1) as nat) is None,
            decreases naxis + 1 - k,
        {
            let v = match header.naxisn(k) {
                Ok(v) => v,
                Err(e) => {
                    proof {
                        crate::header::keywords::lemma_axes_none(cards, k as nat, naxis as nat);
                        assert(axes_fault(cards, k as nat) is Some);
                        crate::header::keywords::lemma_axes_fault_stays(cards, k as nat, naxis as nat);
                    }
                    return Err(e);
                },
            };
            let ghost was_big = big;
            let ghost was_zero = zero;
            let ghost old_prod = prod;
            let ghost p = axes_product(cards, (k - 1) as nat)->0;
            if v == 0 {
                zero = true;
            } else if !big {
                match prod.checked_mul(v) {
                    Some(x) => {
                        assert(x >= 1) by (nonlinear_arith)
                            requires
                                x == prod * v,
                                prod >= 1,
                                v >= 1,
                        ;
                        prod = x;
                    },
                    None => {
                        big = true;
                    },
                }
            }
            proof {
                assert(axes_product(cards, k as nat) == Some(p * v));
                if v == 0 {
                    assert(p * v == 0) by (nonlinear_arith)
                        requires
                            v == 0,
                    ;
                } else if was_zero {
                    assert(p * v == 0) by (nonlinear_arith)
                        requires
                            p == 0,
                    ;
                } else if was_big {
                    assert(p * v > u64::MAX) by (nonlinear_arith)
                        requires
                            p > u64::MAX,
                            v >= 1,
                    ;
                } else {
                    assert(p * v >= 0) by (nonlinear_arith)
                        requires
                            p >= 0,
                            v >= 0,
                    ;
                }
            }
            k = k + 1;
        }
        let ghost count = axes_product(cards, naxis as nat)->0;
        let w = wanted.byte_width();
        let len = self.data.len();
        if zero {
            let v = vstd::slice::slice_subrange(self.data.as_slice(), 0, 0);
            assert(v@ =~= Seq::<u8>::empty());
            return Ok(v);
        }
        let eof = Error::Io(IoError { kind: IoErrorKind::UnexpectedEof });
        if big {
            proof {
                assert(count * w >= count) by (nonlinear_arith)
                    requires
                        count >= 0,
                        w >= 1,
                ;
            }
            return Err(eof);
        }
        let need = match prod.checked_mul(w as u64) {
            Some(x) => x,
            None => return Err(eof),
        };
        let end = match data_offset.checked_add(need) {
            Some(x) => x,
            None => return Err(eof),
        };
        if end > len as u64 {
            return Err(eof);
        }
        Ok(vstd::slice::slice_subrange(self.data.as_slice(), data_offset as usize, end as usize))
    }

    /// The pixels of the image of HDU `n`, read as `T`: an `HduNotFound`
    /// error when there is no such HDU, `UnsupportedFeature` for a
    /// tile-compressed image, `InvalidHDU` for an HDU that holds no image,
    /// the errors of `read_header`, `bitpix` and `naxis` / `naxisn`, a
    /// `TypeMismatch` error when BITPIX is not that of `T`, and an
    /// `UnexpectedEof` I/O error when the file ends before the last pixel.
    pub fn read_image_as<T: Pixel>(&self, n: usize) -> (r: Result<Vec<T>, Error>)
        requires
            self.well_formed(),
        ensures
            n >= self.entries().len() ==> (r matches Err(Error::HduNotFound(m)) && m == n),
            n < self.entries().len() ==> image_read(
                r,
                self.bytes(),
                self.entries()[n as int],
                T::pixel_bitpix(),
                |v: Vec<T>, raw: Seq<u8>, c: int| v@ == pixels_of::<T>(raw, c),
            ),
    {
        let raw = match self.read_image_bytes(n, T::bitpix()) {
            Ok(b) => b,
            Err(e) => return Err(e),
        };
        let w = T::bitpix().byte_width();
        let ghost c = image_count(self.bytes(), self.entries()[n as int]);
        proof {
            let e = self.entries()[n as int];
            match header_cards(self.bytes(), e) {
                Ok(cards) => {
                    match lookup_value(cards, "NAXIS"@) {
                        Some(ValueModel::Integer(k)) => {
                            if 0 < k <= 999 {
                                crate::header::keywords::lemma_axes_product_nonneg(cards, k as nat);
                            }
                        },
                        _ => {},
                    }
                },
                Err(_) => {},
            }
            assert(c >= 0);
            assert(raw@.len() == c * w);
            vstd::arithmetic::div_mod::lemma_div_by_multiple(c, w as int);
        }
        let rlen = raw.len();
        let count = rlen / w;
        let mut out: Vec<T> = Vec::new();
        let mut i: usize = 0;
        let mut pos: usize = 0;
        while i < count
            invariant
                w == bitpix_width(T::pixel_bitpix()),
                1 <= w <= 8,
                count * w == raw@.len(),
                rlen == raw@.len(),
                i <= count,
                pos == i * w,
                out@ =~= pixels_of::<T>(raw@, i as int),
            decreases count - i,
        {
            proof {
                assert(i * w + w <= count * w) by (nonlinear_arith)
                    requires
                        i < count,
                        w >= 1,
                ;
            }
            let px = T::from_be_bytes(vstd::slice::slice_subrange(raw, pos, pos + w));
            out.push(px);
            proof {
                assert((i + 1) * w == i * w + w) by (nonlinear_arith);
            }
            pos = pos + w;
            i = i + 1;
        }
        Ok(out)
    }

    /// The stored pixels of the tile-compressed image of HDU `n`, as 32-bit
    /// integers in image order (10.1): each tile's bytes are read from the
    /// COMPRESSED_DATA column, Rice-decoded and put in place. An `HduNotFound`
    /// error when there is no such HDU; `InvalidHDU` when it holds no
    /// tile-compressed image, has no axes, has no COMPRESSED_DATA column or
    /// its pixels do not fit in memory; `UnsupportedFeature` for an algorithm
    /// other than Rice or quantized floats; the errors of `read_header`,
    /// `BinTableLayout::from_header` and `CompressionHeader::from_header`; for
    /// the first tile that cannot be read or decoded, an `UnexpectedEof` I/O
    /// error when the data ends within its descriptor or its bytes, else
    /// `InvalidHDU`.
    #[verifier::loop_isolation(false)]
    pub fn read_compressed_pixels(&self, n: usize) -> (r: Result<Vec<i32>, Error>)
        requires
            self.well_formed(),
        ensures
            n >= self.entries().len() ==> (r matches Err(Error::HduNotFound(m)) && m == n),
            n < self.entries().len() && self.entries()[n as int].kind != HduKind::CompressedImage
                ==> (r matches Err(Error::InvalidHDU(m)) && m@
                == "HDU is not a tile-compressed image"@),
            n < self.entries().len() && self.entries()[n as int].kind == HduKind::CompressedImage
                ==> {
                let e = self.entries()[n as int];
                match header_cards(self.bytes(), e) {
                    Err(f) => read_failure_matches(r, f),
                    Ok(cards) => match layout_of(cards) {
                        None => fault_matches(r, layout_fault(cards)),
                        Some(l) => match (
                            zbitpix_of(cards),
                            algorithm_of(cards),
                            quantize_of(cards),
                            tiling_of(cards),
                        ) {
                            (Some(_), Some(algo), Some(q), Some((img, tile))) => if algo
                                != CmpType::Rice {
                                r matches Err(Error::UnsupportedFeature(m)) && m@
                                    == "tile compression type "@ + algorithm_text(algo)
                                    + " is not supported; only Rice is supported"@
                            } else if q is Some {
                                r matches Err(Error::UnsupportedFeature(m)) && m@
                                    == "quantized float tile compression (ZQUANTIZ) is not yet supported"@
                            } else {
                                match first_column_named(l.columns, "COMPRESSED_DATA"@, 0) {
                                    None => r matches Err(Error::InvalidHDU(m)) && m@
                                        == "no COMPRESSED_DATA column in tile-compressed image"@,
                                    Some(ci) => if img.len() == 0 {
                                        r matches Err(Error::InvalidHDU(m)) && m@
                                            == "tile-compressed image with no axes"@
                                    } else if prefix_product(img, img.len()) == 0 {
                                        r matches Ok(v) && v@.len() == 0
                                    } else if prefix_product(img, img.len()) > usize::MAX {
                                        r matches Err(Error::InvalidHDU(m)) && m@
                                            == "image size does not fit in memory"@
                                    } else {
                                        match image_after_tiles(
                                            self.bytes(),
                                            l,
                                            l.columns[ci],
                                            e.data_offset,
                                            img,
                                            tile,
                                            int_param(cards, "ZVAL1"@, 32) as nat,
                                            int_param(cards, "ZVAL2"@, 4) as nat,
                                            tiles_product(img, tile, img.len()),
                                        ) {
                                            Some(out) => r matches Ok(v) && v@ == out,
                                            None => if tiles_failure(
                                                self.bytes(),
                                                l,
                                                l.columns[ci],
                                                e.data_offset,
                                                img,
                                                tile,
                                                int_param(cards, "ZVAL1"@, 32) as nat,
                                                int_param(cards, "ZVAL2"@, 4) as nat,
                                                tiles_product(img, tile, img.len()),
                                            ) == Some(true) {
                                                r matches Err(Error::Io(io)) && io.kind
                                                    == IoErrorKind::UnexpectedEof
                                            } else {
                                                r matches Err(Error::InvalidHDU(_))
                                            },
                                        }
                                    },
                                }
                            },
                            _ => fault_matches(r, compression_fault(cards)),
                        },
                    },
                }
            },
    {
        if n >= self.index.len() {
            return Err(Error::HduNotFound(n));
        }
        if self.index[n].kind != HduKind::CompressedImage {
            return Err(Error::InvalidHDU(String::from_str("HDU is not a tile-compressed image")));
        }
        let data_offset = self.index[n].data_offset;
        let header = match self.read_header(n) {
            Ok(h) => h,
            Err(e) => return Err(e),
        };
        let ghost cards = header@;
        let layout = match BinTableLayout::from_header(&header) {
            Ok(l) => l,
            Err(e) => return Err(e),
        };
        let comp = match CompressionHeader::from_header(&header) {
            Ok(c) => c,
            Err(e) => return Err(e),
        };
        if !comp.is_rice() {
            return Err(
                Error::UnsupportedFeature(
                    String::from_str("tile compression type ").concat(comp.algorithm_name()).concat(
                        " is not supported; only Rice is supported",
                    ),
                ),
            );
        }
        if comp.quantize.is_some() {
            return Err(
                Error::UnsupportedFeature(
                    String::from_str(
                        "quantized float tile compression (ZQUANTIZ) is not yet supported",
                    ),
                ),
            );
        }
        let (block_size, byte_pix) = match comp.algo_params {
            AlgoParams::Rice { block_size, byte_pix } => (block_size, byte_pix),
            AlgoParams::Other => {
                return Err(Error::InvalidHDU(String::from_str("missing Rice parameters")));
            },
        };
        let col = match layout.column_by_name("COMPRESSED_DATA") {
            Some(c) => c,
            None => {
                return Err(
                    Error::InvalidHDU(
                        String::from_str("no COMPRESSED_DATA column in tile-compressed image"),
                    ),
                );
            },
        };
        let geom = &comp.tiles;
        let ghost img = geom.image_shape@;
        let ghost tile = geom.tile_shape@;
        if geom.image_shape.len() == 0 {
            return Err(Error::InvalidHDU(String::from_str("tile-compressed image with no axes")));
        }
        let total = match image_pixels(&geom.image_shape) {
            Some(t) => t,
            None => {
                return Err(
                    Error::InvalidHDU(String::from_str("image size does not fit in memory")),
                );
            },
        };
        if total == 0 {
            return Ok(Vec::new());
        }
        proof {
            let zn = crate::fits::compression::znaxis_value(cards)->0;
            crate::fits::compression::lemma_shape_len(cards, zn as nat);
            assert forall|d: int| 0 <= d < img.len() implies img[d] > 0 by {
                if img[d] == 0 {
                    lemma_zero_axis(img, d, img.len());
                }
            }
            crate::fits::compression::lemma_tile_shape_positive(cards, zn as nat, img);
            assert(valid_tiling(img, tile));
            assert forall|k: nat| k <= img.len() implies #[trigger] tiles_product(img, tile, k)
                <= u64::MAX by {
                crate::fits::tiles::lemma_tiles_at_most_pixels(img, tile, k);
                crate::fits::tiles::lemma_prefix_product_monotone(img, k, img.len());
            }
            crate::fits::tiles::lemma_prefix_product_monotone(img, (img.len() - 1) as nat, img.len());
        }
        let mut output: Vec<i32> = Vec::new();
        let mut i: usize = 0;
        while i < total
            invariant
                i <= total,
                output@ =~= Seq::new(i as nat, |j: int| 0i32),
            decreases total - i,
        {
            output.push(0);
            i = i + 1;
        }
        let ntiles = geom.total_tiles();
        let ghost bs = block_size as nat;
        let ghost bp = byte_pix as nat;
        let ghost l = layout@;
        let ghost c = col@;
        let mut t: u64 = 0;
        while t < ntiles
            invariant
                valid_tiling(img, tile),
                img == geom.image_shape@,
                tile == geom.tile_shape@,
                geom.well_formed(),
                geom.non_empty(),
                img.len() >= 1,
                prefix_product(img, img.len()) == total,
                prefix_product(img, (img.len() - 1) as nat) <= usize::MAX,
                t <= ntiles,
                image_after_tiles(self.bytes(), l, c, data_offset as int, img, tile, bs, bp, t as nat)
                    == Some(output@),
                tiles_failure(self.bytes(), l, c, data_offset as int, img, tile, bs, bp, t as nat) is None,
                output@.len() == total,
            decreases ntiles - t,
        {
            let ghost before = output@;
            proof {
                crate::fits::tiles::lemma_tile_pixels_within(img, tile, t as nat);
            }
            let np = geom.tile_n_pixels(t);
            let desc = match layout.read_vla_descriptor(self.data.as_slice(), data_offset, t, col) {
                Ok(d) => d,
                Err(e) => {
                    proof {
                        lemma_image_after_tiles_none(self.bytes(), l, c, data_offset as int, img, tile, bs, bp, (t + 1) as nat, ntiles as nat);
                        lemma_tiles_failure_stays(self.bytes(), l, c, data_offset as int, img, tile, bs, bp, (t + 1) as nat, ntiles as nat);
                    }
                    return Err(e);
                },
            };
            let bytes = match layout.read_heap_bytes(self.data.as_slice(), data_offset, desc, col) {
                Ok(b) => b,
                Err(e) => {
                    proof {
                        lemma_image_after_tiles_none(self.bytes(), l, c, data_offset as int, img, tile, bs, bp, (t + 1) as nat, ntiles as nat);
                        lemma_tiles_failure_stays(self.bytes(), l, c, data_offset as int, img, tile, bs, bp, (t + 1) as nat, ntiles as nat);
                    }
                    return Err(e);
                },
            };
            if bytes.len() as u64 >= 0x1000_0000_0000_0000u64 {
                proof {
                    lemma_image_after_tiles_none(self.bytes(), l, c, data_offset as int, img, tile, bs, bp, (t + 1) as nat, ntiles as nat);
                        lemma_tiles_failure_stays(self.bytes(), l, c, data_offset as int, img, tile, bs, bp, (t + 1) as nat, ntiles as nat);
                }
                return Err(Error::InvalidHDU(String::from_str("compressed tile too large")));
            }
            assert(tile_bytes(self.bytes(), l, c, data_offset as int, t as int) == Some(bytes@));
            let pixels = match rice_decompress(bytes.as_slice(), np, block_size, byte_pix) {
                Ok(p) => p,
                Err(e) => {
                    proof {
                        lemma_image_after_tiles_none(self.bytes(), l, c, data_offset as int, img, tile, bs, bp, (t + 1) as nat, ntiles as nat);
                        lemma_tiles_failure_stays(self.bytes(), l, c, data_offset as int, img, tile, bs, bp, (t + 1) as nat, ntiles as nat);
                    }
                    return Err(e);
                },
            };
            proof {
                super::rice::lemma_rice_decode_len(bytes@, np as nat, bs, bp);
                assert forall|k: nat| k < tile_pixels(img, tile, t as nat) implies #[trigger]
                    super::tiles::pixel_offset(img, tile, t as nat, k) < output@.len() by {
                    super::tiles::tile_pixels_land_in_image(img, tile, t as nat, k);
                }
            }
            geom.place_tile(pixels.as_slice(), t, output.as_mut_slice());
            proof {
                super::tiles::lemma_placed_len(img, tile, t as nat, pixels@, before, np as nat);
            }
            t = t + 1;
        }
        Ok(output)
    }

    /// The number of HDUs.
    pub fn len(&self) -> (r: usize)
        ensures
            r == self.entries().len(),
    {
        self.index.len()
    }

    /// Whether there are no HDUs.
    pub fn is_empty(&self) -> (r: bool)
        ensures
            r == (self.entries().len() == 0),
    {
        self.index.len() == 0
    }

    /// The entry of HDU `n`.
    pub fn hdu(&self, n: usize) -> (r: Option<&HduEntry>)
        ensures
            n < self.entries().len() ==> (r matches Some(e) && e@ == self.entries()[n as int]),
            n >= self.entries().len() ==> r is None,
    {
        if n < self.index.len() {
            Some(&self.index[n])
        } else {
            None
        }
    }

    /// The entries of all HDUs, in file order.
    pub fn iter_hdus(&self) -> (r: &[HduEntry])
        ensures
            r@.map_values(|e: HduEntry| e@) == self.entries(),
    {
        self.index.as_slice()
    }
}

} // verus!
