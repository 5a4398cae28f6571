//! The integer pixel types an image can be read as, and their big-endian
//! form in the data of an HDU.
use vstd::prelude::*;

use crate::bitpix::{bitpix_width, Bitpix};

mod sealed;

use sealed::Sealed;

verus! {

/// 256 to the power `n`.
pub open spec fn pow256(n: nat) -> nat
    decreases n,
{
    if n == 0 {
        1
    } else {
        256 * pow256((n - 1) as nat)
    }
}

/// The unsigned number that the big-endian bytes `s` stand for.
pub open spec fn be_unsigned(s: Seq<u8>) -> nat
    decreases s.len(),
{
    if s.len() == 0 {
        0
    } else {
        be_unsigned(s.drop_last()) * 256 + s.last() as nat
    }
}

/// The two's-complement number that the big-endian bytes `s` stand for.
pub open spec fn be_signed(s: Seq<u8>) -> int {
    if s.len() > 0 && s[0] >= 128 {
        be_unsigned(s) - pow256(s.len())
    } else {
        be_unsigned(s) as int
    }
}

/// The `n` big-endian bytes of `u` modulo 256 to the power `n`.
pub open spec fn be_bytes(u: nat, n: nat) -> Seq<u8>
    decreases n,
{
    if n == 0 {
        Seq::empty()
    } else {
        be_bytes(u / 256, (n - 1) as nat).push((u % 256) as u8)
    }
}

/// The `n` big-endian bytes of the two's-complement form of `v`.
pub open spec fn be_bytes_signed(v: int, n: nat) -> Seq<u8> {
    be_bytes(
        if v < 0 {
            (v + pow256(n)) as nat
        } else {
            v as nat
        },
        n,
    )
}

/// A type that the pixels of an image can be read as.
pub trait Pixel: Sealed + Sized {
    /// The BITPIX of an image of such pixels.
    spec fn pixel_bitpix() -> Bitpix;

    /// The pixel that its big-endian bytes stand for.
    spec fn decoded(bytes: Seq<u8>) -> Self;

    /// The big-endian bytes of a pixel.
    spec fn encoded(p: Self) -> Seq<u8>;

    /// The BITPIX of an image of such pixels.
    fn bitpix() -> (b: Bitpix)
        ensures
            b == Self::pixel_bitpix(),
    ;

    /// The pixel that the big-endian `bytes` stand for.
    fn from_be_bytes(bytes: &[u8]) -> (r: Self)
        requires
            bytes@.len() == bitpix_width(Self::pixel_bitpix()),
        ensures
            r == Self::decoded(bytes@),
    ;

    /// The big-endian bytes of this pixel.
    fn to_be_bytes(self) -> (r: Vec<u8>)
        ensures
            r@ == Self::encoded(self),
    ;

    /// A pixel takes as many bytes as its BITPIX says, and reading its
    /// bytes gives it back.
    proof fn lemma_bytes_round_trip(p: Self)
        ensures
            Self::encoded(p).len() == bitpix_width(Self::pixel_bitpix()),
            Self::decoded(Self::encoded(p)) == p,
    ;
}

/// A number of `n` bytes is below 256 to the power `n`.
proof fn lemma_be_bound(s: Seq<u8>)
    ensures
        be_unsigned(s) < pow256(s.len()),
    decreases s.len(),
{
    if s.len() > 0 {
        lemma_be_bound(s.drop_last());
    }
}

/// The first byte of a number counts 256 to the power of the number of
/// bytes after it.
proof fn lemma_be_first(s: Seq<u8>)
    requires
        s.len() >= 1,
    ensures
        be_unsigned(s) == s[0] * pow256((s.len() - 1) as nat) + be_unsigned(
            s.subrange(1, s.len() as int),
        ),
    decreases s.len(),
{
    let n = s.len();
    let rest = s.subrange(1, n as int);
    if n == 1 {
        assert(s.drop_last() =~= Seq::<u8>::empty());
        assert(rest =~= Seq::<u8>::empty());
        assert(be_unsigned(Seq::<u8>::empty()) == 0);
        assert(be_unsigned(s) == be_unsigned(s.drop_last()) * 256 + s.last());
        assert(pow256(0) == 1);
    } else {
        let t = s.drop_last();
        lemma_be_first(t);
        assert(rest.drop_last() =~= t.subrange(1, t.len() as int));
        let a = s[0] as int;
        let p = pow256((n - 2) as nat) as int;
        let x = be_unsigned(t.subrange(1, t.len() as int)) as int;
        assert(t[0] == s[0]);
        assert(be_unsigned(t) == a * p + x);
        assert(rest.last() == s.last());
        assert(be_unsigned(rest) == x * 256 + s.last());
        assert(pow256((n - 1) as nat) == 256 * p);
        assert(a * p * 256 == a * (256 * p)) by (nonlinear_arith);
        assert(be_unsigned(s) == (a * p + x) * 256 + s.last());
        assert((a * p + x) * 256 == a * (256 * p) + x * 256) by (nonlinear_arith);
    }
}

/// The first byte is 128 or more exactly when the number is at least half
/// of 256 to the power of its length.
proof fn lemma_sign_byte(s: Seq<u8>)
    requires
        s.len() >= 1,
    ensures
        (s[0] >= 128) == (be_unsigned(s) >= 128 * pow256((s.len() - 1) as nat)),
{
    let rest = s.subrange(1, s.len() as int);
    lemma_be_first(s);
    lemma_be_bound(rest);
    let p = pow256((s.len() - 1) as nat) as int;
    let a = s[0] as int;
    let r = be_unsigned(rest) as int;
    assert(p > 0) by {
        lemma_pow256_positive((s.len() - 1) as nat);
    }
    if a >= 128 {
        assert(a * p + r >= 128 * p) by (nonlinear_arith)
            requires
                a >= 128,
                p > 0,
                r >= 0,
        ;
    } else {
        assert(a * p + r < 128 * p) by (nonlinear_arith)
            requires
                0 <= a <= 127,
                0 <= r < p,
        ;
    }
}

/// A number of `n` two's-complement bytes lies in [-2^(8n-1), 2^(8n-1)).
pub proof fn lemma_be_signed_range(s: Seq<u8>)
    requires
        s.len() >= 1,
    ensures
        -128 * pow256((s.len() - 1) as nat) <= be_signed(s) < 128 * pow256((s.len() - 1) as nat),
{
    lemma_be_bound(s);
    lemma_sign_byte(s);
    assert(pow256(s.len()) == 256 * pow256((s.len() - 1) as nat));
}

proof fn lemma_pow256_positive(n: nat)
    ensures
        pow256(n) > 0,
    decreases n,
{
    if n > 0 {
        lemma_pow256_positive((n - 1) as nat);
    }
}

/// Reading the `n` bytes of `u` gives `u` modulo 256 to the power `n`.
proof fn lemma_be_bytes(u: nat, n: nat)
    ensures
        be_bytes(u, n).len() == n,
        be_unsigned(be_bytes(u, n)) == u % pow256(n),
    decreases n,
{
    if n > 0 {
        lemma_be_bytes(u / 256, (n - 1) as nat);
        let b = be_bytes(u, n);
        assert(b.drop_last() =~= be_bytes(u / 256, (n - 1) as nat));
        lemma_pow256_positive((n - 1) as nat);
        vstd::arithmetic::div_mod::lemma_mod_breakdown(u as int, 256, pow256((n - 1) as nat) as int);
    }
}

/// The two's-complement bytes of a number that fits in `n` bytes read back
/// as that number.
proof fn lemma_signed_round_trip(v: int, n: nat)
    requires
        n >= 1,
        -128 * pow256((n - 1) as nat) <= v < 128 * pow256((n - 1) as nat),
    ensures
        be_bytes_signed(v, n).len() == n,
        be_signed(be_bytes_signed(v, n)) == v,
{
    let p = pow256(n);
    assert(p == 256 * pow256((n - 1) as nat));
    let u: nat = if v < 0 {
        (v + p) as nat
    } else {
        v as nat
    };
    lemma_be_bytes(u, n);
    vstd::arithmetic::div_mod::lemma_small_mod(u, p);
    lemma_sign_byte(be_bytes(u, n));
}

/// The big-endian number of up to eight bytes.
fn be_value(bytes: &[u8]) -> (r: u64)
    requires
        bytes@.len() <= 8,
    ensures
        r == be_unsigned(bytes@),
{
    let mut acc: u64 = 0;
    let mut k: usize = 0;
    assert(pow256(8) == 0x1_0000_0000_0000_0000) by {
                reveal_with_fuel(pow256, 9);
            }
    while k < bytes.len()
        invariant
            k <= bytes@.len() <= 8,
            acc == be_unsigned(bytes@.subrange(0, k as int)),
            pow256(8) == 0x1_0000_0000_0000_0000,
        decreases bytes@.len() - k,
    {
        proof {
            let s = bytes@.subrange(0, k as int);
            lemma_be_bound(s);
            lemma_pow256_monotone((k + 1) as nat, 8);
            assert(pow256((k + 1) as nat) == 256 * pow256(k as nat));
            assert(bytes@.subrange(0, k + 1).drop_last() =~= s);
        }
        acc = acc * 256 + bytes[k] as u64;
        k = k + 1;
    }
    assert(bytes@.subrange(0, k as int) =~= bytes@);
    acc
}

proof fn lemma_pow256_monotone(a: nat, b: nat)
    requires
        a <= b,
    ensures
        pow256(a) <= pow256(b),
    decreases b - a,
{
    if a < b {
        lemma_pow256_monotone(a, (b - 1) as nat);
        lemma_pow256_positive((b - 1) as nat);
    }
}

/// The `n` big-endian bytes of `u`.
fn be_bytes_of(u: u64, n: usize) -> (r: Vec<u8>)
    ensures
        r@ == be_bytes(u as nat, n as nat),
    decreases n,
{
    if n == 0 {
        Vec::new()
    } else {
        let mut v = be_bytes_of(u / 256, n - 1);
        v.push((u % 256) as u8);
        v
    }
}

impl Sealed for u8 {

}

impl Pixel for u8 {
    open spec fn pixel_bitpix() -> Bitpix {
        Bitpix::UnsignedByte
    }

    open spec fn decoded(bytes: Seq<u8>) -> u8 {
        bytes[0]
    }

    open spec fn encoded(p: u8) -> Seq<u8> {
        seq![p]
    }

    fn bitpix() -> (b: Bitpix) {
        Bitpix::UnsignedByte
    }

    fn from_be_bytes(bytes: &[u8]) -> (r: u8) {
        bytes[0]
    }

    fn to_be_bytes(self) -> (r: Vec<u8>) {
        let mut v = Vec::new();
        v.push(self);
        assert(v@ =~= seq![self]);
        v
    }

    proof fn lemma_bytes_round_trip(p: u8) {
    }
}

impl Sealed for i16 {

}

impl Pixel for i16 {
    open spec fn pixel_bitpix() -> Bitpix {
        Bitpix::SignedShort
    }

    open spec fn decoded(bytes: Seq<u8>) -> i16 {
        be_signed(bytes) as i16
    }

    open spec fn encoded(p: i16) -> Seq<u8> {
        be_bytes_signed(p as int, 2)
    }

    fn bitpix() -> (b: Bitpix) {
        Bitpix::SignedShort
    }

    fn from_be_bytes(bytes: &[u8]) -> (r: i16) {
        let u = be_value(bytes);
        proof {
            lemma_be_bound(bytes@);
            lemma_sign_byte(bytes@);
            assert(pow256(1) == 256 && pow256(2) == 65536) by {
                reveal_with_fuel(pow256, 9);
            }
        }
        if u >= 32768 {
            (u as i64 - 65536) as i16
        } else {
            u as i16
        }
    }

    fn to_be_bytes(self) -> (r: Vec<u8>) {
        proof {
            assert(pow256(2) == 65536) by {
                reveal_with_fuel(pow256, 9);
            }
        }
        let u: u64 = if self < 0 {
            (self as i64 + 65536) as u64
        } else {
            self as u64
        };
        be_bytes_of(u, 2)
    }

    proof fn lemma_bytes_round_trip(p: i16) {
        assert(pow256(1) == 256) by {
                reveal_with_fuel(pow256, 9);
            }
        lemma_signed_round_trip(p as int, 2);
    }
}

impl Sealed for i32 {

}

impl Pixel for i32 {
    open spec fn pixel_bitpix() -> Bitpix {
        Bitpix::SignedInt
    }

    open spec fn decoded(bytes: Seq<u8>) -> i32 {
        be_signed(bytes) as i32
    }

    open spec fn encoded(p: i32) -> Seq<u8> {
        be_bytes_signed(p as int, 4)
    }

    fn bitpix() -> (b: Bitpix) {
        Bitpix::SignedInt
    }

    fn from_be_bytes(bytes: &[u8]) -> (r: i32) {
        let u = be_value(bytes);
        proof {
            lemma_be_bound(bytes@);
            lemma_sign_byte(bytes@);
            assert(pow256(3) == 0x100_0000 && pow256(4) == 0x1_0000_0000) by {
                reveal_with_fuel(pow256, 9);
            }
        }
        if u >= 0x8000_0000 {
            (u as i64 - 0x1_0000_0000) as i32
        } else {
            u as i32
        }
    }

    fn to_be_bytes(self) -> (r: Vec<u8>) {
        proof {
            assert(pow256(4) == 0x1_0000_0000) by {
                reveal_with_fuel(pow256, 9);
            }
        }
        let u: u64 = if self < 0 {
            (self as i64 + 0x1_0000_0000) as u64
        } else {
            self as u64
        };
        be_bytes_of(u, 4)
    }

    proof fn lemma_bytes_round_trip(p: i32) {
        assert(pow256(3) == 0x100_0000) by {
                reveal_with_fuel(pow256, 9);
            }
        lemma_signed_round_trip(p as int, 4);
    }
}

impl Sealed for i64 {

}

impl Pixel for i64 {
    open spec fn pixel_bitpix() -> Bitpix {
        Bitpix::SignedLong
    }

    open spec fn decoded(bytes: Seq<u8>) -> i64 {
        be_signed(bytes) as i64
    }

    open spec fn encoded(p: i64) -> Seq<u8> {
        be_bytes_signed(p as int, 8)
    }

    fn bitpix() -> (b: Bitpix) {
        Bitpix::SignedLong
    }

    fn from_be_bytes(bytes: &[u8]) -> (r: i64) {
        let u = be_value(bytes);
        proof {
            lemma_be_bound(bytes@);
            lemma_sign_byte(bytes@);
            assert(pow256(7) == 0x100_0000_0000_0000 && pow256(8) == 0x1_0000_0000_0000_0000) by {
                reveal_with_fuel(pow256, 9);
            }
        }
        if u >= 0x8000_0000_0000_0000 {
            (u as i128 - 0x1_0000_0000_0000_0000) as i64
        } else {
            u as i64
        }
    }

    fn to_be_bytes(self) -> (r: Vec<u8>) {
        proof {
            assert(pow256(8) == 0x1_0000_0000_0000_0000) by {
                reveal_with_fuel(pow256, 9);
            }
        }
        let u: u64 = if self < 0 {
            (self as i128 + 0x1_0000_0000_0000_0000) as u64
        } else {
            self as u64
        };
        be_bytes_of(u, 8)
    }

    proof fn lemma_bytes_round_trip(p: i64) {
        assert(pow256(7) == 0x100_0000_0000_0000) by {
                reveal_with_fuel(pow256, 9);
            }
        lemma_signed_round_trip(p as int, 8);
    }
}

/// The physical values of a BITPIX 8 image stored with BZERO = -128
/// (4.4.2.5): each stored byte minus 128.
pub fn signed_from_offset_u8(raw: &[u8]) -> (r: Vec<i8>)
    ensures
        r@.len() == raw@.len(),
        forall|i: int| 0 <= i < raw@.len() ==> r@[i] == raw@[i] - 128,
{
    let mut out: Vec<i8> = Vec::new();
    let mut i: usize = 0;
    while i < raw.len()
        invariant
            i <= raw@.len(),
            out@.len() == i,
            forall|j: int| 0 <= j < i ==> out@[j] == raw@[j] - 128,
        decreases raw@.len() - i,
    {
        out.push((raw[i] as i16 - 128) as i8);
        i = i + 1;
    }
    out
}

/// The physical values of a BITPIX 16 image stored with BZERO = 32768
/// (4.4.2.5): each stored value plus 32768.
pub fn unsigned_from_offset_i16(raw: &[i16]) -> (r: Vec<u16>)
    ensures
        r@.len() == raw@.len(),
        forall|i: int| 0 <= i < raw@.len() ==> r@[i] == raw@[i] + 32768,
{
    let mut out: Vec<u16> = Vec::new();
    let mut i: usize = 0;
    while i < raw.len()
        invariant
            i <= raw@.len(),
            out@.len() == i,
            forall|j: int| 0 <= j < i ==> out@[j] == raw@[j] + 32768,
        decreases raw@.len() - i,
    {
        out.push((raw[i] as i32 + 32768) as u16);
        i = i + 1;
    }
    out
}

/// The physical values of a BITPIX 32 image stored with BZERO = 2^31
/// (4.4.2.5): each stored value plus 2^31.
pub fn unsigned_from_offset_i32(raw: &[i32]) -> (r: Vec<u32>)
    ensures
        r@.len() == raw@.len(),
        forall|i: int| 0 <= i < raw@.len() ==> r@[i] == raw@[i] + 0x8000_0000,
{
    let mut out: Vec<u32> = Vec::new();
    let mut i: usize = 0;
    while i < raw.len()
        invariant
            i <= raw@.len(),
            out@.len() == i,
            forall|j: int| 0 <= j < i ==> out@[j] == raw@[j] + 0x8000_0000,
        decreases raw@.len() - i,
    {
        out.push((raw[i] as i64 + 0x8000_0000) as u32);
        i = i + 1;
    }
    out
}

/// The physical values of a BITPIX 64 image stored with BZERO = 2^63
/// (4.4.2.5): each stored value plus 2^63.
pub fn unsigned_from_offset_i64(raw: &[i64]) -> (r: Vec<u64>)
    ensures
        r@.len() == raw@.len(),
        forall|i: int| 0 <= i < raw@.len() ==> r@[i] == raw@[i] + 0x8000_0000_0000_0000,
{
    let mut out: Vec<u64> = Vec::new();
    let mut i: usize = 0;
    while i < raw.len()
        invariant
            i <= raw@.len(),
            out@.len() == i,
            forall|j: int| 0 <= j < i ==> out@[j] == raw@[j] + 0x8000_0000_0000_0000,
        decreases raw@.len() - i,
    {
        out.push((raw[i] as i128 + 0x8000_0000_0000_0000) as u64);
        i = i + 1;
    }
    out
}

/// The low 8 bits of each of `pixels`, as a byte: the stored values of a
/// BITPIX 8 image that was decoded as 32-bit integers.
pub fn narrow_to_u8(pixels: &[i32]) -> (r: Vec<u8>)
    ensures
        r@.len() == pixels@.len(),
        forall|i: int| 0 <= i < pixels@.len() ==> r@[i] == #[verifier::truncate] (pixels@[i] as u8),
{
    let mut out: Vec<u8> = Vec::new();
    let mut i: usize = 0;
    while i < pixels.len()
        invariant
            i <= pixels@.len(),
            out@.len() == i,
            forall|j: int| 0 <= j < i ==> out@[j] == #[verifier::truncate] (pixels@[j] as u8),
        decreases pixels@.len() - i,
    {
        out.push(#[verifier::truncate] (pixels[i] as u8));
        i = i + 1;
    }
    out
}

/// The low 16 bits of each of `pixels`, as a signed value: the stored
/// values of a BITPIX 16 image that was decoded as 32-bit integers.
pub fn narrow_to_i16(pixels: &[i32]) -> (r: Vec<i16>)
    ensures
        r@.len() == pixels@.len(),
        forall|i: int| 0 <= i < pixels@.len() ==> r@[i] == #[verifier::truncate] (pixels@[i] as i16),
{
    let mut out: Vec<i16> = Vec::new();
    let mut i: usize = 0;
    while i < pixels.len()
        invariant
            i <= pixels@.len(),
            out@.len() == i,
            forall|j: int| 0 <= j < i ==> out@[j] == #[verifier::truncate] (pixels@[j] as i16),
        decreases pixels@.len() - i,
    {
        out.push(#[verifier::truncate] (pixels[i] as i16));
        i = i + 1;
    }
    out
}

} // verus!
