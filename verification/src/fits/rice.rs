//! Rice decompression of tile-compressed image data (10.4.1).
use vstd::arithmetic::power2::{lemma2_to64, lemma_pow2_pos, lemma_pow2_unfold, pow2};
use vstd::prelude::*;

use crate::error::{decimal, decimal_text, Error};

verus! {

/// Bit `p` of `input`, counting from the most significant bit of the first byte.
pub open spec fn bit(input: Seq<u8>, p: int) -> nat {
    ((input[p / 8] >> ((7 - p % 8) as u8)) & 1u8) as nat
}

/// The unsigned value of the `n` bits of `input` starting at bit `p`, most
/// significant bit first.
pub open spec fn window(input: Seq<u8>, p: int, n: nat) -> nat
    decreases n,
{
    if n == 0 {
        0
    } else {
        window(input, p, (n - 1) as nat) * 2 + bit(input, p + n - 1)
    }
}

/// The position of the first one-bit of `input` at or after bit `p`, if any.
pub open spec fn first_one(input: Seq<u8>, p: int) -> Option<int>
    decreases 8 * input.len() - p,
{
    if p < 0 || p >= 8 * input.len() {
        None
    } else if bit(input, p) == 1 {
        Some(p)
    } else {
        first_one(input, p + 1)
    }
}

/// Width of the block code selector for a pixel width of `bp` bytes.
pub open spec fn fs_bits(bp: nat) -> nat {
    if bp == 1 {
        3
    } else if bp == 2 {
        4
    } else {
        5
    }
}

/// The selector value that marks a block of raw (high-entropy) differences.
pub open spec fn fs_max(bp: nat) -> nat {
    if bp == 1 {
        6
    } else if bp == 2 {
        14
    } else {
        25
    }
}

/// Number of values a pixel of `bp` bytes can take.
pub open spec fn pixel_modulus(bp: nat) -> nat {
    pow2(8 * bp)
}

/// Inverse of the sign folding of differences: even codes are non-negative
/// differences, odd codes negative ones.
pub open spec fn unfold_sign(d: u32) -> u32 {
    if d % 2 == 0 {
        d / 2
    } else {
        (0xFFFF_FFFFu32 - d / 2) as u32
    }
}

/// The pixel that follows `last` when the coded difference is `diff`.
pub open spec fn next_pixel(diff: u32, last: u32, bp: nat) -> u32 {
    ((unfold_sign(diff) + last) % (pixel_modulus(bp) as int)) as u32
}

/// A decoded pixel value as a signed 32-bit integer: bytes are unsigned,
/// 16-bit values are sign-extended, 32-bit values keep their bit pattern.
pub open spec fn pixel_value(v: u32, bp: nat) -> i32 {
    if bp == 1 {
        (v % 256) as i32
    } else if bp == 2 {
        if v % 65536 >= 32768 {
            (v % 65536 - 65536) as i32
        } else {
            (v % 65536) as i32
        }
    } else {
        if v >= 0x8000_0000 {
            (v - 0x1_0000_0000) as i32
        } else {
            v as i32
        }
    }
}

/// Number of bits left over in the last byte touched by a code ending at bit `q`.
pub open spec fn spare_bits(q: int) -> nat {
    ((8 - q % 8) % 8) as nat
}

/// The difference coded by a Golomb-Rice code with `nzero` leading zeros and
/// `fs` trailing bits starting at bit `p`. The decoder keeps its bits in a
/// 32-bit buffer, so of a code whose trailing bits and spare bits exceed 32
/// only the low `32 - spare` bits of the trailing value survive.
pub open spec fn rice_difference(input: Seq<u8>, nzero: nat, p: int, fs: nat) -> u32 {
    let t = window(input, p, fs) % pow2((32 - spare_bits(p + fs)) as nat);
    ((((nzero % 0x1_0000_0000) * pow2(fs)) % 0x1_0000_0000 + t) % 0x1_0000_0000) as u32
}

/// Decodes one pixel at bit `p` of a block whose selector is `fsv`: returns
/// the next bit position and the new pixel, or `None` when the data ends first.
pub open spec fn decode_pixel(input: Seq<u8>, p: int, last: u32, fsv: nat, bp: nat) -> Option<(int, u32)> {
    let end = 8 * input.len();
    if fsv == 0 {
        Some((p, last))
    } else if fsv - 1 == fs_max(bp) {
        let bbits = 8 * bp;
        if p + bbits > end {
            None
        } else {
            Some((p + bbits, next_pixel(window(input, p, bbits) as u32, last, bp)))
        }
    } else {
        let fs = (fsv - 1) as nat;
        match first_one(input, p) {
            None => None,
            Some(q) => if q + 1 + fs > end {
                None
            } else {
                let diff = rice_difference(input, (q - p) as nat, q + 1, fs);
                Some((q + 1 + fs, next_pixel(diff, last, bp)))
            },
        }
    }
}

/// Decodes `remaining` pixels from bit `pos`, `left` of which still belong to
/// the current block with selector `fsv`; a new block starts with a selector
/// of `fs_bits` bits and holds `bs` pixels (fewer at the end).
pub open spec fn decode_rest(
    input: Seq<u8>,
    pos: int,
    last: u32,
    remaining: nat,
    left: nat,
    fsv: nat,
    bs: nat,
    bp: nat,
) -> Option<Seq<i32>>
    decreases remaining * 2 + (if left == 0 { 1nat } else { 0nat }),
{
    if remaining == 0 {
        Some(Seq::empty())
    } else if left == 0 {
        let count = if bs < remaining { bs } else { remaining };
        if count == 0 || pos + fs_bits(bp) > 8 * input.len() {
            None
        } else {
            decode_rest(
                input,
                pos + fs_bits(bp),
                last,
                remaining,
                count,
                window(input, pos, fs_bits(bp)),
                bs,
                bp,
            )
        }
    } else {
        match decode_pixel(input, pos, last, fsv, bp) {
            None => None,
            Some((p2, pixel)) => match decode_rest(
                input,
                p2,
                pixel,
                (remaining - 1) as nat,
                (left - 1) as nat,
                fsv,
                bs,
                bp,
            ) {
                None => None,
                Some(rest) => Some(seq![pixel_value(pixel, bp)] + rest),
            },
        }
    }
}

/// The pixels that a Rice-coded tile decodes to, or `None` where decoding fails:
/// a pixel width other than 1, 2 or 4 bytes, input shorter than the first
/// pixel and one more byte, or data that ends before all pixels are decoded.
pub open spec fn rice_decode(input: Seq<u8>, n_pixels: nat, block_size: nat, byte_pix: nat) -> Option<
    Seq<i32>,
> {
    if !(byte_pix == 1 || byte_pix == 2 || byte_pix == 4) {
        None
    } else if n_pixels == 0 {
        Some(Seq::empty())
    } else if input.len() < byte_pix + 1 {
        None
    } else {
        decode_rest(
            input,
            (8 * byte_pix) as int,
            window(input, 0, 8 * byte_pix) as u32,
            n_pixels,
            0,
            0,
            block_size,
            byte_pix,
        )
    }
}

/// The message of a tile that cannot be decoded: a pixel width other than
/// 1, 2 or 4 bytes, input too short for the first pixel, or data that ends
/// before all pixels are decoded.
pub open spec fn rice_error(input: Seq<u8>, byte_pix: nat) -> Seq<char> {
    if !(byte_pix == 1 || byte_pix == 2 || byte_pix == 4) {
        "rice: byte_pix must be 1, 2, or 4, got "@ + decimal(byte_pix)
    } else if input.len() < byte_pix + 1 {
        "rice: input too short ("@ + decimal(input.len()) + " bytes) for "@ + decimal(byte_pix)
            + "-byte pixels"@
    } else {
        "rice: unexpected end of compressed data"@
    }
}

/// Decoding gives as many pixels as were asked for.
proof fn lemma_decode_rest_len(
    input: Seq<u8>,
    pos: int,
    last: u32,
    remaining: nat,
    left: nat,
    fsv: nat,
    bs: nat,
    bp: nat,
)
    ensures
        decode_rest(input, pos, last, remaining, left, fsv, bs, bp) matches Some(s) ==> s.len()
            == remaining,
    decreases remaining * 2 + (if left == 0 { 1nat } else { 0nat }),
{
    if remaining == 0 {
    } else if left == 0 {
        let count = if bs < remaining {
            bs
        } else {
            remaining
        };
        if !(count == 0 || pos + fs_bits(bp) > 8 * input.len()) {
            lemma_decode_rest_len(
                input,
                pos + fs_bits(bp),
                last,
                remaining,
                count,
                window(input, pos, fs_bits(bp)),
                bs,
                bp,
            );
        }
    } else {
        match decode_pixel(input, pos, last, fsv, bp) {
            None => {},
            Some((p2, pixel)) => {
                lemma_decode_rest_len(
                    input,
                    p2,
                    pixel,
                    (remaining - 1) as nat,
                    (left - 1) as nat,
                    fsv,
                    bs,
                    bp,
                );
            },
        }
    }
}

/// A decoded tile has as many pixels as were asked for.
pub proof fn lemma_rice_decode_len(input: Seq<u8>, n_pixels: nat, block_size: nat, byte_pix: nat)
    ensures
        rice_decode(input, n_pixels, block_size, byte_pix) matches Some(s) ==> s.len() == n_pixels,
{
    if (byte_pix == 1 || byte_pix == 2 || byte_pix == 4) && n_pixels > 0 && input.len() >= byte_pix
        + 1 {
        lemma_decode_rest_len(
            input,
            (8 * byte_pix) as int,
            window(input, 0, 8 * byte_pix) as u32,
            n_pixels,
            0,
            0,
            block_size,
            byte_pix,
        );
    }
}

/// Decoding fewer pixels from the same place gives the first of them: `r`
/// pixels where `remaining` were asked for, the block under way cut to
/// `r` as well.
proof fn lemma_decode_rest_prefix(
    input: Seq<u8>,
    pos: int,
    last: u32,
    remaining: nat,
    left: nat,
    r: nat,
    l: nat,
    fsv: nat,
    bs: nat,
    bp: nat,
)
    requires
        r <= remaining,
        left == 0 ==> l == 0,
        left > 0 ==> l == if left < r { left } else { r },
        decode_rest(input, pos, last, remaining, left, fsv, bs, bp) is Some,
    ensures
        decode_rest(input, pos, last, r, l, fsv, bs, bp) == Some(
            decode_rest(input, pos, last, remaining, left, fsv, bs, bp)->0.take(r as int),
        ),
    decreases remaining * 2 + (if left == 0 { 1nat } else { 0nat }),
{
    let v = decode_rest(input, pos, last, remaining, left, fsv, bs, bp)->0;
    lemma_decode_rest_len(input, pos, last, remaining, left, fsv, bs, bp);
    if r == 0 {
        assert(v.take(0) =~= Seq::<i32>::empty());
    } else if left == 0 {
        let count = if bs < remaining {
            bs
        } else {
            remaining
        };
        lemma_decode_rest_prefix(
            input,
            pos + fs_bits(bp),
            last,
            remaining,
            count,
            r,
            if bs < r {
                bs
            } else {
                r
            },
            window(input, pos, fs_bits(bp)),
            bs,
            bp,
        );
    } else {
        let (p2, pixel) = decode_pixel(input, pos, last, fsv, bp)->0;
        lemma_decode_rest_prefix(
            input,
            p2,
            pixel,
            (remaining - 1) as nat,
            (left - 1) as nat,
            (r - 1) as nat,
            (l - 1) as nat,
            fsv,
            bs,
            bp,
        );
        let rest = decode_rest(input, p2, pixel, (remaining - 1) as nat, (left - 1) as nat, fsv, bs, bp)->0;
        assert(v == seq![pixel_value(pixel, bp)] + rest);
        assert(v.take(r as int) =~= seq![pixel_value(pixel, bp)] + rest.take(r - 1));
    }
}

/// Decoding fewer pixels of a tile gives the first pixels of the longer
/// result: where `n_pixels` pixels decode to `v`, the first `m` of them
/// decode to `v[..m]`.
pub proof fn decoding_fewer_pixels_gives_a_prefix(
    input: Seq<u8>,
    n_pixels: nat,
    m: nat,
    block_size: nat,
    byte_pix: nat,
)
    requires
        m <= n_pixels,
        rice_decode(input, n_pixels, block_size, byte_pix) is Some,
    ensures
        rice_decode(input, m, block_size, byte_pix) == Some(
            rice_decode(input, n_pixels, block_size, byte_pix)->0.subrange(0, m as int),
        ),
{
    let v = rice_decode(input, n_pixels, block_size, byte_pix)->0;
    if m == 0 {
        assert(v.subrange(0, 0) =~= Seq::<i32>::empty());
    } else {
        lemma_decode_rest_prefix(
            input,
            (8 * byte_pix) as int,
            window(input, 0, 8 * byte_pix) as u32,
            n_pixels,
            0,
            m,
            0,
            0,
            block_size,
            byte_pix,
        );
        assert(v.take(m as int) =~= v.subrange(0, m as int));
    }
}

/// The first one-bit at or after `p` is at `p + q` when the `q` bits from
/// `p` are zero and the next is one.
proof fn lemma_first_one_after_zeros(input: Seq<u8>, p: int, q: nat)
    requires
        0 <= p,
        p + q < 8 * input.len(),
        forall|j: int| p <= j < p + q ==> #[trigger] bit(input, j) == 0,
        bit(input, p + q) == 1,
    ensures
        first_one(input, p) == Some(p + q),
    decreases q,
{
    if q > 0 {
        assert(bit(input, p) == 0);
        lemma_first_one_after_zeros(input, p + 1, (q - 1) as nat);
    }
}

/// Rice decoding inverts Rice coding: at bit `p`, a Golomb-Rice code with
/// split `fs` for the difference `d` — `d >> fs` zero bits, a one bit, then
/// the low `fs` bits of `d` — decodes to the difference `d`, for every split
/// of a coded block (below `fs_max`), and the next code starts right after it.
pub proof fn rice_code_decodes_to_its_difference(
    input: Seq<u8>,
    p: int,
    d: u32,
    fs: nat,
    last: u32,
    bp: nat,
)
    requires
        bp == 1 || bp == 2 || bp == 4,
        fs < fs_max(bp),
        0 <= p,
        p + (d as nat) / pow2(fs) + 1 + fs <= 8 * input.len(),
        forall|j: int| p <= j < p + (d as nat) / pow2(fs) ==> #[trigger] bit(input, j) == 0,
        bit(input, p + (d as nat) / pow2(fs)) == 1,
        window(input, p + (d as nat) / pow2(fs) + 1, fs) == (d as nat) % pow2(fs),
    ensures
        rice_difference(input, (d as nat) / pow2(fs), p + (d as nat) / pow2(fs) + 1, fs) == d,
        decode_pixel(input, p, last, fs + 1, bp) == Some(
            (p + (d as nat) / pow2(fs) + 1 + fs, next_pixel(d, last, bp)),
        ),
{
    lemma_pow2_pos(fs);
    let pw = pow2(fs);
    let q = (d as nat) / pw;
    let r = (d as nat) % pw;
    vstd::arithmetic::div_mod::lemma_fundamental_div_mod(d as int, pw as int);
    assert(0 <= r < pw) by {
        vstd::arithmetic::div_mod::lemma_mod_bound(d as int, pw as int);
    }
    assert(q >= 0) by {
        vstd::arithmetic::div_mod::lemma_div_pos_is_pos(d as int, pw as int);
    }
    lemma_first_one_after_zeros(input, p, q as nat);
    let c = p + q + 1;
    let sp = spare_bits(c + fs);
    assert(sp < 8);
    assert(fs <= 24);
    vstd::arithmetic::power2::lemma_pow2_strictly_increases(fs, (32 - sp) as nat);
    let m = pow2((32 - sp) as nat);
    vstd::arithmetic::div_mod::lemma_small_mod(r as nat, m);
    assert(q * pw <= d) by (nonlinear_arith)
        requires
            d == pw * q + r,
            r >= 0,
            q >= 0,
    ;
    assert(q <= q * pw) by (nonlinear_arith)
        requires
            pw >= 1,
            q >= 0,
    ;
    vstd::arithmetic::div_mod::lemma_small_mod(q as nat, 0x1_0000_0000);
    vstd::arithmetic::div_mod::lemma_small_mod((q * pw) as nat, 0x1_0000_0000);
    vstd::arithmetic::div_mod::lemma_small_mod(d as nat, 0x1_0000_0000);
    assert(pw * q == q * pw) by (nonlinear_arith);
    assert(rice_difference(input, q as nat, c, fs) == d);
}

/// The sign folding of a difference `x`: non-negative differences to even
/// codes, negative ones to odd codes.
pub open spec fn fold_sign(x: int) -> int {
    if x >= 0 {
        2 * x
    } else {
        -2 * x - 1
    }
}

/// Decoding a folded difference adds the difference to the last pixel,
/// modulo the number of values a pixel can take.
pub proof fn folded_difference_moves_the_pixel(x: int, last: u32, bp: nat)
    requires
        bp == 1 || bp == 2 || bp == 4,
        -0x8000_0000 <= x < 0x8000_0000,
    ensures
        unfold_sign(fold_sign(x) as u32) as int == if x >= 0 {
            x
        } else {
            x + 0x1_0000_0000
        },
        next_pixel(fold_sign(x) as u32, last, bp) as int == (last + x) % (pixel_modulus(bp) as int),
{
    let d = fold_sign(x) as u32;
    assert(d as int == fold_sign(x));
    lemma2_to64();
    let m = pixel_modulus(bp) as int;
    assert(m == 256 || m == 65536 || m == 0x1_0000_0000);
    if x < 0 {
        let k: int = 0x1_0000_0000int / m;
        assert(0x1_0000_0000int == m * k);
        vstd::arithmetic::div_mod::lemma_mod_multiples_vanish(k, last + x, m);
        assert(m * k + (last + x) == unfold_sign(d) + last);
    }
    vstd::arithmetic::div_mod::lemma_mod_bound(unfold_sign(d) + last, m);
}

/// A decoded pixel is the value of its low `8 × bp` bits in the range of the
/// pixel type: unsigned for bytes, signed for 16 and 32 bits.
pub proof fn pixel_value_is_the_low_bits(v: u32, bp: nat)
    requires
        bp == 1 || bp == 2 || bp == 4,
    ensures
        (pixel_value(v, bp) - v) % (pixel_modulus(bp) as int) == 0,
        bp == 1 ==> 0 <= pixel_value(v, bp) < 256,
        bp == 2 ==> -32768 <= pixel_value(v, bp) < 32768,
{
    lemma2_to64();
    let m = pixel_modulus(bp) as int;
    let w = pixel_value(v, bp) as int;
    if bp == 1 {
        assert(m == 256);
        vstd::arithmetic::div_mod::lemma_fundamental_div_mod(v as int, 256);
        vstd::arithmetic::div_mod::lemma_mod_multiples_basic(-(v as int / 256), 256);
        assert(w - v == 256 * (-(v as int / 256)));
    } else if bp == 2 {
        assert(m == 65536);
        vstd::arithmetic::div_mod::lemma_fundamental_div_mod(v as int, 65536);
        let q = v as int / 65536;
        if v % 65536 >= 32768 {
            assert(w - v == 65536 * (-q - 1));
            vstd::arithmetic::div_mod::lemma_mod_multiples_basic(-q - 1, 65536);
        } else {
            assert(w - v == 65536 * (-q));
            vstd::arithmetic::div_mod::lemma_mod_multiples_basic(-q, 65536);
        }
    } else {
        assert(m == 0x1_0000_0000);
        if v >= 0x8000_0000 {
            assert(w - v == 0x1_0000_0000 * (-1));
            vstd::arithmetic::div_mod::lemma_mod_multiples_basic(-1, 0x1_0000_0000);
        } else {
            assert(w - v == 0);
        }
    }
}

/// An 8-bit tile decodes to bytes: for `byte_pix = 1`, every pixel that
/// decoding gives lies in `0..=255`.
pub proof fn byte_pixels_are_unsigned(input: Seq<u8>, n_pixels: nat, block_size: nat)
    requires
        rice_decode(input, n_pixels, block_size, 1) is Some,
    ensures
        forall|i: int|
            0 <= i < rice_decode(input, n_pixels, block_size, 1)->0.len() ==> 0 <= #[trigger] rice_decode(
                input,
                n_pixels,
                block_size,
                1,
            )->0[i] <= 255,
{
    if n_pixels > 0 {
        lemma_decode_rest_bytes(
            input,
            8,
            window(input, 0, 8) as u32,
            n_pixels,
            0,
            0,
            block_size,
        );
    }
}

proof fn lemma_decode_rest_bytes(
    input: Seq<u8>,
    pos: int,
    last: u32,
    remaining: nat,
    left: nat,
    fsv: nat,
    bs: nat,
)
    ensures
        decode_rest(input, pos, last, remaining, left, fsv, bs, 1) matches Some(s) ==> forall|i: int|
            0 <= i < s.len() ==> 0 <= #[trigger] s[i] <= 255,
    decreases remaining * 2 + (if left == 0 { 1nat } else { 0nat }),
{
    if remaining == 0 {
    } else if left == 0 {
        let count = if bs < remaining {
            bs
        } else {
            remaining
        };
        if !(count == 0 || pos + fs_bits(1) > 8 * input.len()) {
            lemma_decode_rest_bytes(
                input,
                pos + fs_bits(1),
                last,
                remaining,
                count,
                window(input, pos, fs_bits(1)),
                bs,
            );
        }
    } else {
        match decode_pixel(input, pos, last, fsv, 1) {
            None => {},
            Some((p2, pixel)) => {
                lemma_decode_rest_bytes(
                    input,
                    p2,
                    pixel,
                    (remaining - 1) as nat,
                    (left - 1) as nat,
                    fsv,
                    bs,
                );
                match decode_rest(input, p2, pixel, (remaining - 1) as nat, (left - 1) as nat, fsv, bs, 1) {
                    Some(rest) => {
                        let v = seq![pixel_value(pixel, 1)] + rest;
                        assert(0 <= pixel_value(pixel, 1) <= 255);
                        assert forall|i: int| 0 <= i < v.len() implies 0 <= #[trigger] v[i] <= 255 by {
                            if i > 0 {
                                assert(v[i] == rest[i - 1]);
                            }
                        }
                    },
                    None => {},
                }
            },
        }
    }
}

/// The first 8 bits of a tile are its first byte.
proof fn lemma_first_byte(input: Seq<u8>)
    requires
        input.len() >= 1,
    ensures
        window(input, 0, 8) == input[0],
{
    let b = input[0];
    reveal_with_fuel(window, 9);
    assert forall|k: int| 0 <= k < 8 implies #[trigger] bit(input, k) == ((b >> ((7 - k) as u8))
        & 1u8) as nat by {
        assert(k / 8 == 0);
        assert(k % 8 == k);
    }
    assert(bit(input, 0) == ((b >> 7u8) & 1u8) as nat);
    assert(bit(input, 1) == ((b >> 6u8) & 1u8) as nat);
    assert(bit(input, 2) == ((b >> 5u8) & 1u8) as nat);
    assert(bit(input, 3) == ((b >> 4u8) & 1u8) as nat);
    assert(bit(input, 4) == ((b >> 3u8) & 1u8) as nat);
    assert(bit(input, 5) == ((b >> 2u8) & 1u8) as nat);
    assert(bit(input, 6) == ((b >> 1u8) & 1u8) as nat);
    assert(bit(input, 7) == ((b >> 0u8) & 1u8) as nat);
    assert(((b >> 7u8) & 1u8) as int * 128 + ((b >> 6u8) & 1u8) as int * 64 + ((b >> 5u8) & 1u8) as int
        * 32 + ((b >> 4u8) & 1u8) as int * 16 + ((b >> 3u8) & 1u8) as int * 8 + ((b >> 2u8) & 1u8) as int
        * 4 + ((b >> 1u8) & 1u8) as int * 2 + ((b >> 0u8) & 1u8) as int == b as int) by (bit_vector);
}

/// An 8-bit tile whose first block is of low entropy (selector 0) starts
/// with the pixel that its first byte holds, read as unsigned.
pub proof fn low_entropy_byte_tile_starts_with_its_first_byte(
    input: Seq<u8>,
    n_pixels: nat,
    block_size: nat,
)
    requires
        n_pixels >= 1,
        input.len() >= 2,
        window(input, 8, 3) == 0,
        rice_decode(input, n_pixels, block_size, 1) is Some,
    ensures
        rice_decode(input, n_pixels, block_size, 1)->0[0] == input[0] as int,
{
    lemma_first_byte(input);
    let last = window(input, 0, 8) as u32;
    let count = if block_size < n_pixels {
        block_size
    } else {
        n_pixels
    };
    assert(decode_rest(input, 8, last, n_pixels, 0, 0, block_size, 1) == decode_rest(
        input,
        11,
        last,
        n_pixels,
        count,
        0,
        block_size,
        1,
    ));
    let rest = decode_rest(input, 11, last, (n_pixels - 1) as nat, (count - 1) as nat, 0, block_size, 1);
    assert(decode_pixel(input, 11, last, 0, 1) == Some((11int, last)));
    assert(rice_decode(input, n_pixels, block_size, 1)->0 == seq![pixel_value(last, 1)] + rest->0);
}

proof fn lemma_window_bound(input: Seq<u8>, p: int, n: nat)
    ensures
        window(input, p, n) < pow2(n),
    decreases n,
{
    if n > 0 {
        lemma_window_bound(input, p, (n - 1) as nat);
        lemma_pow2_unfold(n);
        let b = input[(p + n - 1) / 8] >> ((7 - (p + n - 1) % 8) as u8);
        assert(b & 1u8 <= 1u8) by (bit_vector);
    } else {
        lemma2_to64();
    }
}

/// Reads bit `p` of `input`.
fn read_bit(input: &[u8], p: u64) -> (b: u64)
    requires
        p < 8 * input@.len(),
    ensures
        b == bit(input@, p as int),
        b <= 1,
{
    let byte = input[(p / 8) as usize];
    let shift = (7 - p % 8) as u8;
    let r = (byte >> shift) & 1u8;
    assert(r <= 1u8) by (bit_vector)
        requires
            r == (byte >> shift) & 1u8,
    ;
    r as u64
}

/// Reads the `n` bits of `input` starting at bit `p`.
fn read_bits(input: &[u8], p: u64, n: u64) -> (v: u64)
    requires
        input@.len() < 0x1000_0000_0000_0000,
        n <= 32,
        p + n <= 8 * input@.len(),
    ensures
        v == window(input@, p as int, n as nat),
{
    let mut acc: u64 = 0;
    let mut i: u64 = 0;
    proof {
        lemma2_to64();
    }
    while i < n
        invariant
            i <= n <= 32,
            input@.len() < 0x1000_0000_0000_0000,
            p + n <= 8 * input@.len(),
            acc == window(input@, p as int, i as nat),
            acc < pow2(i as nat),
        decreases n - i,
    {
        let b = read_bit(input, p + i);
        proof {
            lemma_pow2_unfold((i + 1) as nat);
            lemma_window_bound(input@, p as int, (i + 1) as nat);
            lemma_pow2_pos(i as nat);
            vstd::arithmetic::power2::lemma_pow2_strictly_increases(i as nat, 32);
            lemma2_to64();
        }
        acc = acc * 2 + b;
        i = i + 1;
    }
    acc
}

/// Finds the first one-bit at or after bit `p`.
fn find_one(input: &[u8], p: u64) -> (r: Option<u64>)
    requires
        input@.len() < 0x1000_0000_0000_0000,
        p <= 8 * input@.len(),
    ensures
        first_one(input@, p as int) is None <==> r is None,
        r matches Some(q) ==> first_one(input@, p as int) == Some(q as int),
        r matches Some(q) ==> p <= q < 8 * input@.len(),
{
    let end = 8 * input.len() as u64;
    let mut q = p;
    while q < end
        invariant
            p <= q <= end,
            end == 8 * input@.len(),
            first_one(input@, p as int) == first_one(input@, q as int),
        decreases end - q,
    {
        if read_bit(input, q) == 1 {
            return Some(q);
        }
        q = q + 1;
    }
    None
}

/// `2^e` as a 64-bit integer.
fn pow2_u64(e: u64) -> (r: u64)
    requires
        e <= 62,
    ensures
        r == pow2(e as nat),
{
    let mut r: u64 = 1;
    let mut i: u64 = 0;
    proof {
        lemma2_to64();
    }
    while i < e
        invariant
            i <= e <= 62,
            r == pow2(i as nat),
        decreases e - i,
    {
        proof {
            lemma_pow2_unfold((i + 1) as nat);
            vstd::arithmetic::power2::lemma_pow2_strictly_increases((i + 1) as nat, 63);
            vstd::arithmetic::power2::lemma2_to64_rest();
        }
        r = r * 2;
        i = i + 1;
    }
    r
}

/// Inverse sign folding of a coded difference.
fn undo_mapping(diff: u32) -> (r: u32)
    ensures
        r == unfold_sign(diff),
{
    if diff % 2 == 0 {
        diff / 2
    } else {
        0xFFFF_FFFFu32 - diff / 2
    }
}

/// The decoded pixel as a signed 32-bit integer.
fn pixel_to_i32(val: u32, byte_pix: u32) -> (r: i32)
    ensures
        r == pixel_value(val, byte_pix as nat),
{
    if byte_pix == 1 {
        (val % 256) as i32
    } else if byte_pix == 2 {
        let w = val % 65536;
        if w >= 32768 {
            (w as i32) - 65536
        } else {
            w as i32
        }
    } else {
        if val >= 0x8000_0000 {
            ((val - 0x8000_0000) as i32) - 0x4000_0000 - 0x4000_0000
        } else {
            val as i32
        }
    }
}

/// The pixel following `last` for the coded difference `diff`.
fn add_difference(diff: u32, last: u32, byte_pix: u32) -> (r: u32)
    requires
        byte_pix == 1 || byte_pix == 2 || byte_pix == 4,
    ensures
        r == next_pixel(diff, last, byte_pix as nat),
{
    proof {
        lemma2_to64();
        vstd::arithmetic::power2::lemma2_to64_rest();
    }
    let modulus: u64 = if byte_pix == 1 {
        0x100
    } else if byte_pix == 2 {
        0x1_0000
    } else {
        0x1_0000_0000
    };
    let u = undo_mapping(diff);
    ((u as u64 + last as u64) % modulus) as u32
}

/// Decodes one pixel of a block with selector `fsv`.
fn decode_one(input: &[u8], p: u64, last: u32, fsv: u64, byte_pix: u32) -> (r: Option<(u64, u32)>)
    requires
        input@.len() < 0x1000_0000_0000_0000,
        p <= 8 * input@.len(),
        byte_pix == 1 || byte_pix == 2 || byte_pix == 4,
        fsv < 32,
    ensures
        decode_pixel(input@, p as int, last, fsv as nat, byte_pix as nat) is None <==> r is None,
        r matches Some((p2, x)) ==> decode_pixel(input@, p as int, last, fsv as nat, byte_pix as nat)
            == Some((p2 as int, x)),
        r matches Some((p2, x)) ==> p <= p2 <= 8 * input@.len(),
{
    let end = 8 * input.len() as u64;
    let fsmax: u64 = if byte_pix == 1 {
        6
    } else if byte_pix == 2 {
        14
    } else {
        25
    };
    assert(fsmax == fs_max(byte_pix as nat));
    if fsv == 0 {
        assert(decode_pixel(input@, p as int, last, fsv as nat, byte_pix as nat) == Some((p as int, last)));
        Some((p, last))
    } else if fsv - 1 == fsmax {
        let bbits = 8 * byte_pix as u64;
        if p + bbits > end {
            None
        } else {
            let diff = read_bits(input, p, bbits);
            proof {
                lemma_window_bound(input@, p as int, bbits as nat);
                lemma2_to64();
                vstd::arithmetic::power2::lemma2_to64_rest();
            }
            assert(bbits == 8 * byte_pix);
            assert(decode_pixel(input@, p as int, last, fsv as nat, byte_pix as nat) == Some(((p + bbits) as int, next_pixel(diff as u32, last, byte_pix as nat))));
            Some((p + bbits, add_difference(diff as u32, last, byte_pix)))
        }
    } else {
        let fs = fsv - 1;
        match find_one(input, p) {
            None => {
                assert(decode_pixel(input@, p as int, last, fsv as nat, byte_pix as nat) is None);
                None
            },
            Some(q) => {
                if q + 1 + fs > end {
                    None
                } else {
                    let nzero = q - p;
                    let t = read_bits(input, q + 1, fs);
                    let spare = (8 - (q + 1 + fs) % 8) % 8;
                    let keep = pow2_u64(32 - spare);
                    proof {
                        lemma_pow2_pos((32 - spare) as nat);
                    }
                    let t = t % keep;
                    let pw = pow2_u64(fs);
                    proof {
                        lemma2_to64();
                        vstd::arithmetic::power2::lemma2_to64_rest();
                        vstd::arithmetic::power2::lemma_pow2_strictly_increases(fs as nat, 31);
                        assert(pw <= 0x4000_0000);
                        assert((nzero % 0x1_0000_0000) * pw <= 0xFFFF_FFFF * 0x4000_0000)
                            by (nonlinear_arith)
                            requires
                                nzero % 0x1_0000_0000 <= 0xFFFF_FFFF,
                                pw <= 0x4000_0000,
                        ;
                    }
                    let high = ((nzero % 0x1_0000_0000) * pw) % 0x1_0000_0000;
                    let diff = ((high + t) % 0x1_0000_0000) as u32;
                    assert(spare == spare_bits((q + 1 + fs) as int));
                    assert(diff == rice_difference(input@, nzero as nat, (q + 1) as int, fs as nat));
                    Some((q + 1 + fs, add_difference(diff, last, byte_pix)))
                }
            },
        }
    }
}

/// Decompress a Rice-encoded tile from a FITS binary table heap.
///
/// Returns decoded pixel values as `i32`. Callers cast to the final pixel
/// type based on `ZBITPIX`:
/// - `byte_pix=1` (ZBITPIX=8): values are in the unsigned byte range (0–255).
/// - `byte_pix=2` (ZBITPIX=16): values are sign-extended from 16 bits.
/// - `byte_pix=4` (ZBITPIX=32): values are the full `i32` bit pattern.
///
/// `input` is the compressed bytes of the tile, `n_pixels` the number of
/// pixels to decode, `block_size` the Rice block size (`ZVAL1`, default 32)
/// and `byte_pix` the pixel width in bytes (`ZVAL2`, default 4), which must
/// be 1, 2 or 4. Every failure is an `InvalidHDU` error.
pub fn rice_decompress(input: &[u8], n_pixels: usize, block_size: u32, byte_pix: u32) -> (r: Result<
    Vec<i32>,
    Error,
>)
    requires
        input@.len() < 0x1000_0000_0000_0000,
    ensures
        match rice_decode(input@, n_pixels as nat, block_size as nat, byte_pix as nat) {
            Some(pixels) => r matches Ok(v) && v@ == pixels,
            None => r matches Err(Error::InvalidHDU(m)) && m@ == rice_error(
                input@,
                byte_pix as nat,
            ),
        },
{
    if !(byte_pix == 1 || byte_pix == 2 || byte_pix == 4) {
        let b = decimal_text(byte_pix as u64);
        return Err(
            Error::InvalidHDU(
                String::from_str("rice: byte_pix must be 1, 2, or 4, got ").concat(b.as_str()),
            ),
        );
    }
    if n_pixels == 0 {
        return Ok(Vec::new());
    }
    if input.len() < byte_pix as usize + 1 {
        let l = decimal_text(input.len() as u64);
        let b = decimal_text(byte_pix as u64);
        return Err(
            Error::InvalidHDU(
                String::from_str("rice: input too short (").concat(l.as_str()).concat(
                    " bytes) for ",
                ).concat(b.as_str()).concat("-byte pixels"),
            ),
        );
    }
    let fsbits: u64 = if byte_pix == 1 {
        3
    } else if byte_pix == 2 {
        4
    } else {
        5
    };
    let end = 8 * input.len() as u64;
    let first = read_bits(input, 0, 8 * byte_pix as u64);
    proof {
        lemma_window_bound(input@, 0, (8 * byte_pix) as nat);
        lemma2_to64();
        vstd::arithmetic::power2::lemma2_to64_rest();
    }
    let mut lastpix: u32 = first as u32;
    let mut pos: u64 = 8 * byte_pix as u64;
    let mut output: Vec<i32> = Vec::new();
    let mut i: usize = 0;
    let mut left: usize = 0;
    let mut fsv: u64 = 0;
    let ghost total = rice_decode(input@, n_pixels as nat, block_size as nat, byte_pix as nat);
    while i < n_pixels
        invariant
            i <= n_pixels,
            byte_pix == 1 || byte_pix == 2 || byte_pix == 4,
            input@.len() >= byte_pix + 1,
            left <= n_pixels - i,
            fsv < 32,
            pos <= end,
            end == 8 * input@.len(),
            input@.len() < 0x1000_0000_0000_0000,
            byte_pix == 1 || byte_pix == 2 || byte_pix == 4,
            fsbits == fs_bits(byte_pix as nat),
            output@.len() == i,
            total == rice_decode(input@, n_pixels as nat, block_size as nat, byte_pix as nat),
            total == (match decode_rest(
                input@,
                pos as int,
                lastpix,
                (n_pixels - i) as nat,
                left as nat,
                fsv as nat,
                block_size as nat,
                byte_pix as nat,
            ) {
                None => None,
                Some(rest) => Some(output@ + rest),
            }),
        decreases (n_pixels - i) * 2 + (if left == 0 { 1int } else { 0int }),
    {
        if left == 0 {
            let remaining = n_pixels - i;
            let count = if (block_size as usize) < remaining {
                block_size as usize
            } else {
                remaining
            };
            if count == 0 || pos + fsbits > end {
                assert(decode_rest(
                    input@,
                    pos as int,
                    lastpix,
                    (n_pixels - i) as nat,
                    left as nat,
                    fsv as nat,
                    block_size as nat,
                    byte_pix as nat,
                ) is None);
                return Err(
                    Error::InvalidHDU(String::from_str("rice: unexpected end of compressed data")),
                );
            }
            fsv = read_bits(input, pos, fsbits);
            proof {
                lemma_window_bound(input@, pos as int, fsbits as nat);
                lemma2_to64();
            }
            pos = pos + fsbits;
            left = count;
        } else {
            match decode_one(input, pos, lastpix, fsv, byte_pix) {
                None => {
                    return Err(
                        Error::InvalidHDU(
                            String::from_str("rice: unexpected end of compressed data"),
                        ),
                    );
                },
                Some((p2, pixel)) => {
                    let ghost old_out = output@;
                    output.push(pixel_to_i32(pixel, byte_pix));
                    proof {
                        let rest_opt = decode_rest(
                            input@,
                            p2 as int,
                            pixel,
                            (n_pixels - i - 1) as nat,
                            (left - 1) as nat,
                            fsv as nat,
                            block_size as nat,
                            byte_pix as nat,
                        );
                        if let Some(rest) = rest_opt {
                            assert(old_out + (seq![pixel_value(pixel, byte_pix as nat)] + rest)
                                =~= output@ + rest);
                        }
                    }
                    lastpix = pixel;
                    pos = p2;
                    i = i + 1;
                    left = left - 1;
                }
            }
        }
    }
    proof {
        assert(output@ + Seq::<i32>::empty() =~= output@);
    }
    Ok(output)
}

} // verus!
