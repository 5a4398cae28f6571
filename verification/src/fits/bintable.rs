//! Binary-table column formats (7.3).
use vstd::prelude::*;

use crate::error::Error;
use crate::text::{trim, trim_bounds};

verus! {

/// The data type of elements stored in the heap for a variable-length array
/// column: the `t` of a TFORM `rPt(emax)` or `rQt(emax)` (7.3.5).
#[derive(Debug, Clone, Copy, PartialEq, Eq)]
pub enum VlaElementType {
    Logical,
    Bit,
    UnsignedByte,
    Int16,
    Int32,
    Int64,
    Float32,
    Float64,
    Complex32,
    Complex64,
    Char,
}

/// The element type that the type code `c` names.
pub open spec fn vla_type(c: char) -> Option<VlaElementType> {
    if c == 'L' {
        Some(VlaElementType::Logical)
    } else if c == 'X' {
        Some(VlaElementType::Bit)
    } else if c == 'B' {
        Some(VlaElementType::UnsignedByte)
    } else if c == 'I' {
        Some(VlaElementType::Int16)
    } else if c == 'J' {
        Some(VlaElementType::Int32)
    } else if c == 'K' {
        Some(VlaElementType::Int64)
    } else if c == 'A' {
        Some(VlaElementType::Char)
    } else if c == 'E' {
        Some(VlaElementType::Float32)
    } else if c == 'D' {
        Some(VlaElementType::Float64)
    } else if c == 'C' {
        Some(VlaElementType::Complex32)
    } else if c == 'M' {
        Some(VlaElementType::Complex64)
    } else {
        None
    }
}

/// Bytes per element (7.3.2, Table 18).
pub open spec fn element_bytes(e: VlaElementType) -> u64 {
    match e {
        VlaElementType::Logical => 1,
        VlaElementType::Bit => 1,
        VlaElementType::UnsignedByte => 1,
        VlaElementType::Int16 => 2,
        VlaElementType::Int32 => 4,
        VlaElementType::Int64 => 8,
        VlaElementType::Float32 => 4,
        VlaElementType::Float64 => 8,
        VlaElementType::Complex32 => 8,
        VlaElementType::Complex64 => 16,
        VlaElementType::Char => 1,
    }
}

/// `char::to_string`: the text that holds the one character `c`.
#[verifier::external_body]
pub(crate) fn char_text(c: char) -> (r: String)
    ensures
        r@ == seq![c],
{
    c.to_string()
}

impl VlaElementType {
    /// Bytes per element in the heap (7.3.2, Table 18).
    pub fn byte_size(&self) -> (r: u64)
        ensures
            r == element_bytes(*self),
    {
        match self {
            Self::Logical => 1,
            Self::Bit => 1,
            Self::UnsignedByte => 1,
            Self::Int16 => 2,
            Self::Int32 => 4,
            Self::Int64 => 8,
            Self::Float32 => 4,
            Self::Float64 => 8,
            Self::Complex32 => 8,
            Self::Complex64 => 16,
            Self::Char => 1,
        }
    }

    /// The element type of the type code `c`; an `InvalidHeader` error,
    /// naming `c` and the TFORM value `tform`, for any other character.
    pub fn from_char(c: char, tform: &str) -> (r: Result<VlaElementType, Error>)
        ensures
            match vla_type(c) {
                Some(e) => r == Ok::<VlaElementType, Error>(e),
                None => r matches Err(Error::InvalidHeader(m)) && m@ == "unknown VLA element type '"@
                    + seq![c] + "' in TFORM '"@ + tform@ + "'"@,
            },
    {
        match c {
            'L' => Ok(Self::Logical),
            'X' => Ok(Self::Bit),
            'B' => Ok(Self::UnsignedByte),
            'I' => Ok(Self::Int16),
            'J' => Ok(Self::Int32),
            'K' => Ok(Self::Int64),
            'A' => Ok(Self::Char),
            'E' => Ok(Self::Float32),
            'D' => Ok(Self::Float64),
            'C' => Ok(Self::Complex32),
            'M' => Ok(Self::Complex64),
            _ => {
                let t = char_text(c);
                Err(
                    Error::InvalidHeader(
                        String::from_str("unknown VLA element type '").concat(t.as_str()).concat(
                            "' in TFORM '",
                        ).concat(tform).concat("'"),
                    ),
                )
            },
        }
    }
}

/// A parsed TFORM value: a binary table column's data type and repeat count
/// (7.3.2, Table 18). Variable-length array columns take 8 (P) or 16 (Q)
/// bytes in the row; their data lives in the heap.
#[derive(Debug, Clone, Copy, PartialEq, Eq)]
pub enum TForm {
    Logical(u32),
    Bit(u32),
    UnsignedByte(u32),
    Int16(u32),
    Int32(u32),
    Int64(u32),
    Char(u32),
    Float32(u32),
    Float64(u32),
    Complex32(u32),
    Complex64(u32),
    VarArrayP { element_type: VlaElementType, emax: u64 },
    VarArrayQ { element_type: VlaElementType, emax: u64 },
}

/// Bytes a column takes in a row (Table 18).
pub open spec fn column_bytes(t: TForm) -> int {
    match t {
        TForm::Logical(r) => r as int,
        TForm::Bit(r) => (r as int + 7) / 8,
        TForm::UnsignedByte(r) => r as int,
        TForm::Int16(r) => r as int * 2,
        TForm::Int32(r) => r as int * 4,
        TForm::Int64(r) => r as int * 8,
        TForm::Char(r) => r as int,
        TForm::Float32(r) => r as int * 4,
        TForm::Float64(r) => r as int * 8,
        TForm::Complex32(r) => r as int * 8,
        TForm::Complex64(r) => r as int * 16,
        TForm::VarArrayP { .. } => 8,
        TForm::VarArrayQ { .. } => 16,
    }
}

/// Whether `c` is a decimal digit.
pub open spec fn is_digit_char(c: char) -> bool {
    '0' <= c <= '9'
}

/// The first position at or after `i` that is not a decimal digit.
pub open spec fn digit_run_end(t: Seq<char>, i: int) -> int
    decreases t.len() - i,
{
    if 0 <= i < t.len() && is_digit_char(t[i]) {
        digit_run_end(t, i + 1)
    } else {
        i
    }
}

/// The number the digits `t[lo..hi]` write.
pub open spec fn digits_number(t: Seq<char>, lo: int, hi: int) -> nat
    decreases hi - lo,
{
    if hi <= lo {
        0
    } else {
        digits_number(t, lo, hi - 1) * 10 + ((t[hi - 1] as u32) - ('0' as u32)) as nat
    }
}

/// The `u64` that `x` writes, as `u64`'s `from_str` reads it: an optional
/// `+` and one or more decimal digits, the number being at most `u64::MAX`.
pub open spec fn u64_text(x: Seq<char>) -> Option<u64> {
    let p = if x.len() > 0 && x[0] == '+' {
        1int
    } else {
        0int
    };
    if p < x.len() && digit_run_end(x, p) == x.len() && digits_number(x, p, x.len() as int)
        <= u64::MAX {
        Some(digits_number(x, p, x.len() as int) as u64)
    } else {
        None
    }
}

/// The first position at or after `i` holding `c`, or the end.
pub open spec fn find_char(t: Seq<char>, i: int, c: char) -> int
    decreases t.len() - i,
{
    if 0 <= i < t.len() && t[i] != c {
        find_char(t, i + 1, c)
    } else {
        i
    }
}

/// The `emax` of `(emax)`: the number between the parentheses, 0 when the
/// text does not open with `(` or the number is not a valid `u64`.
pub open spec fn emax_of(u: Seq<char>) -> u64 {
    if u.len() > 0 && u[0] == '(' {
        let close = find_char(u, 1, ')');
        match u64_text(u.subrange(1, close)) {
            Some(v) => v,
            None => 0,
        }
    } else {
        0
    }
}

/// The TFORM that the trimmed text `t` writes as `rTa` (7.3.2): `r` an
/// optional repeat count (1 when absent, at most `u32::MAX`), `T` the type
/// code, and for P and Q the element type and an optional `(emax)` (7.3.5).
pub open spec fn tform_of(t: Seq<char>) -> Option<TForm> {
    let d = digit_run_end(t, 0);
    let n = digits_number(t, 0, d);
    if d > 0 && n > u32::MAX {
        None
    } else if d >= t.len() {
        None
    } else {
        let r: u32 = if d == 0 {
            1
        } else {
            n as u32
        };
        let c = t[d];
        if c == 'L' {
            Some(TForm::Logical(r))
        } else if c == 'X' {
            Some(TForm::Bit(r))
        } else if c == 'B' {
            Some(TForm::UnsignedByte(r))
        } else if c == 'I' {
            Some(TForm::Int16(r))
        } else if c == 'J' {
            Some(TForm::Int32(r))
        } else if c == 'K' {
            Some(TForm::Int64(r))
        } else if c == 'A' {
            Some(TForm::Char(r))
        } else if c == 'E' {
            Some(TForm::Float32(r))
        } else if c == 'D' {
            Some(TForm::Float64(r))
        } else if c == 'C' {
            Some(TForm::Complex32(r))
        } else if c == 'M' {
            Some(TForm::Complex64(r))
        } else if (c == 'P' || c == 'Q') && d + 1 < t.len() {
            match vla_type(t[d + 1]) {
                Some(e) => {
                    let emax = emax_of(t.subrange(d + 2, t.len() as int));
                    Some(
                        if c == 'P' {
                            TForm::VarArrayP { element_type: e, emax }
                        } else {
                            TForm::VarArrayQ { element_type: e, emax }
                        },
                    )
                },
                None => None,
            }
        } else {
            None
        }
    }
}

/// The message of a trimmed TFORM text `t` that is no TFORM: a repeat count
/// past `u32::MAX`, no type code, no element type after P or Q, or an
/// unknown element type or type code.
pub open spec fn tform_error(t: Seq<char>) -> Seq<char> {
    let d = digit_run_end(t, 0);
    if d > 0 && digits_number(t, 0, d) > u32::MAX {
        "invalid repeat count in TFORM '"@ + t + "'"@
    } else if d >= t.len() {
        "empty TFORM '"@ + t + "'"@
    } else if t[d] == 'P' || t[d] == 'Q' {
        if d + 1 >= t.len() {
            "missing element type in VLA TFORM '"@ + t + "'"@
        } else {
            "unknown VLA element type '"@ + seq![t[d + 1]] + "' in TFORM '"@ + t + "'"@
        }
    } else {
        "unknown TFORM type code '"@ + seq![t[d]] + "' in '"@ + t + "'"@
    }
}

/// The repeat count `r` of a TFORM `rT` of fixed width; 1 for P and Q.
pub open spec fn repeat_count(f: TForm) -> int {
    match f {
        TForm::Logical(r) => r as int,
        TForm::Bit(r) => r as int,
        TForm::UnsignedByte(r) => r as int,
        TForm::Int16(r) => r as int,
        TForm::Int32(r) => r as int,
        TForm::Int64(r) => r as int,
        TForm::Char(r) => r as int,
        TForm::Float32(r) => r as int,
        TForm::Float64(r) => r as int,
        TForm::Complex32(r) => r as int,
        TForm::Complex64(r) => r as int,
        TForm::VarArrayP { .. } => 1,
        TForm::VarArrayQ { .. } => 1,
    }
}

/// The type code of a TFORM text: the first character after the repeat
/// count.
pub open spec fn type_code(t: Seq<char>) -> char {
    t[digit_run_end(t, 0)]
}

/// The width of a heap element agrees with the width of a column (Table
/// 18): a TFORM `rT` whose type code is any of those of a heap element but
/// X takes `r` times the bytes of one element of type `T` in a row, `r` being
/// the repeat count written (1 when none is).
pub proof fn heap_element_width_agrees_with_column_width(t: Seq<char>)
    requires
        tform_of(t) is Some,
        vla_type(type_code(t)) is Some,
        type_code(t) != 'X',
    ensures
        column_bytes(tform_of(t)->0) == element_bytes(vla_type(type_code(t))->0) * repeat_count(
            tform_of(t)->0,
        ),
        repeat_count(tform_of(t)->0) == if digit_run_end(t, 0) == 0 {
            1
        } else {
            digits_number(t, 0, digit_run_end(t, 0)) as int
        },
{
    let f = tform_of(t)->0;
    vstd::arithmetic::mul::lemma_mul_is_commutative(
        element_bytes(vla_type(type_code(t))->0) as int,
        repeat_count(f),
    );
}

proof fn lemma_digit_run_end(t: Seq<char>, i: int)
    requires
        0 <= i <= t.len(),
    ensures
        i <= digit_run_end(t, i) <= t.len(),
        forall|k: int| i <= k < digit_run_end(t, i) ==> is_digit_char(#[trigger] t[k]),
    decreases t.len() - i,
{
    if i < t.len() && is_digit_char(t[i]) {
        lemma_digit_run_end(t, i + 1);
    }
}

proof fn lemma_find_char(t: Seq<char>, i: int, c: char)
    requires
        0 <= i <= t.len(),
    ensures
        i <= find_char(t, i, c) <= t.len(),
    decreases t.len() - i,
{
    if i < t.len() && t[i] != c {
        lemma_find_char(t, i + 1, c);
    }
}

proof fn lemma_digits_number_grows(t: Seq<char>, lo: int, k: int, hi: int)
    requires
        lo <= k <= hi,
        forall|j: int| lo <= j < hi ==> is_digit_char(#[trigger] t[j]),
    ensures
        digits_number(t, lo, k) <= digits_number(t, lo, hi),
    decreases hi - k,
{
    if k < hi {
        lemma_digits_number_grows(t, lo, k + 1, hi);
    }
}

/// The number the digits `t[lo..hi]` write, or `None` when it exceeds `limit`.
fn digits_up_to(t: &Vec<char>, lo: usize, hi: usize, limit: u64) -> (r: Option<u64>)
    requires
        lo <= hi <= t@.len(),
        forall|j: int| lo <= j < hi ==> is_digit_char(#[trigger] t@[j]),
        limit >= 9,
    ensures
        match r {
            Some(v) => v == digits_number(t@, lo as int, hi as int) && v <= limit,
            None => digits_number(t@, lo as int, hi as int) > limit,
        },
{
    let mut k = lo;
    let mut v: u64 = 0;
    while k < hi
        invariant
            lo <= k <= hi <= t@.len(),
            forall|j: int| lo <= j < hi ==> is_digit_char(#[trigger] t@[j]),
            v == digits_number(t@, lo as int, k as int),
            v <= limit,
            limit >= 9,
        decreases hi - k,
    {
        let d = (t[k] as u32 - '0' as u32) as u64;
        if v > (limit - d) / 10 {
            proof {
                assert(v * 10 + d > limit) by (nonlinear_arith)
                    requires
                        v > (limit - d) / 10,
                        d <= 9,
                        d <= limit,
                ;
                lemma_digits_number_grows(t@, lo as int, k as int + 1, hi as int);
            }
            return None;
        }
        proof {
            assert(v * 10 + d <= limit) by (nonlinear_arith)
                requires
                    v <= (limit - d) / 10,
                    d <= 9,
            ;
        }
        v = v * 10 + d;
        k = k + 1;
    }
    Some(v)
}

/// The characters of `s[lo..hi]`.
fn chars_between(s: &str, lo: usize, hi: usize) -> (r: Vec<char>)
    requires
        lo <= hi <= s@.len(),
    ensures
        r@ == s@.subrange(lo as int, hi as int),
{
    let mut v: Vec<char> = Vec::new();
    let mut k = lo;
    while k < hi
        invariant
            lo <= k <= hi <= s@.len(),
            v@ == s@.subrange(lo as int, k as int),
        decreases hi - k,
    {
        v.push(s.get_char(k));
        k = k + 1;
        assert(v@ =~= s@.subrange(lo as int, k as int));
    }
    v
}

/// The first position at or after `i` of `t` that is not a decimal digit.
fn digit_run_end_at(t: &Vec<char>, i: usize) -> (r: usize)
    requires
        i <= t@.len(),
    ensures
        r == digit_run_end(t@, i as int),
        i <= r <= t@.len(),
{
    proof {
        lemma_digit_run_end(t@, i as int);
    }
    let mut k = i;
    while k < t.len() && '0' <= t[k] && t[k] <= '9'
        invariant
            i <= k <= t@.len(),
            digit_run_end(t@, i as int) == digit_run_end(t@, k as int),
        decreases t@.len() - k,
    {
        k = k + 1;
    }
    k
}

/// The `emax` of the text `t[lo..]`, as `emax_of` reads it.
fn parse_emax(t: &Vec<char>, lo: usize) -> (r: u64)
    requires
        lo <= t@.len(),
    ensures
        r == emax_of(t@.subrange(lo as int, t@.len() as int)),
{
    let ghost u = t@.subrange(lo as int, t@.len() as int);
    if !(lo < t.len() && t[lo] == '(') {
        return 0;
    }
    let mut close = lo + 1;
    while close < t.len() && t[close] != ')'
        invariant
            lo + 1 <= close <= t@.len(),
            u == t@.subrange(lo as int, t@.len() as int),
            find_char(u, 1, ')') == find_char(u, close - lo, ')'),
        decreases t@.len() - close,
    {
        close = close + 1;
    }
    let ghost x = u.subrange(1, close - lo);
    assert(x =~= t@.subrange(lo + 1, close as int));
    let p: usize = if lo + 1 < close && t[lo + 1] == '+' {
        lo + 2
    } else {
        lo + 1
    };
    if p >= close {
        return 0;
    }
    let e = digit_run_end_at(t, p);
    proof {
        lemma_digit_run_end(t@, p as int);
        lemma_digit_run_end(x, p - lo - 1);
        assert forall|k: int| p - lo - 1 <= k <= x.len() implies digit_run_end(x, k)
            == if digit_run_end(t@, k + lo + 1) >= close {
            x.len() as int
        } else {
            digit_run_end(t@, k + lo + 1) - lo - 1
        } by {
            lemma_run_end_shift(t@, x, lo + 1, close as int, k);
        }
    }
    if e < close {
        return 0;
    }
    match digits_up_to(t, p, close, u64::MAX) {
        Some(v) => {
            proof {
                lemma_digits_number_shift(t@, x, lo + 1, p as int, close as int);
            }
            v
        },
        None => {
            proof {
                lemma_digits_number_shift(t@, x, lo + 1, p as int, close as int);
            }
            0
        },
    }
}

/// `digit_run_end` on a window of `t` agrees with `digit_run_end` on `t`,
/// cut at the window's end.
proof fn lemma_run_end_shift(t: Seq<char>, x: Seq<char>, off: int, end: int, k: int)
    requires
        0 <= off <= end <= t.len(),
        x == t.subrange(off, end),
        0 <= k <= x.len(),
    ensures
        digit_run_end(x, k) == if digit_run_end(t, k + off) >= end {
            x.len() as int
        } else {
            digit_run_end(t, k + off) - off
        },
    decreases x.len() - k,
{
    if k < x.len() && is_digit_char(x[k]) {
        lemma_run_end_shift(t, x, off, end, k + 1);
    } else if k < x.len() {
    } else {
        lemma_digit_run_end(t, k + off);
    }
}

proof fn lemma_digits_number_shift(t: Seq<char>, x: Seq<char>, off: int, lo: int, hi: int)
    requires
        0 <= off <= lo <= hi <= t.len(),
        x == t.subrange(off, hi),
    ensures
        digits_number(x, lo - off, hi - off) == digits_number(t, lo, hi),
{
    lemma_digits_number_window(t, x, off, lo, hi, hi);
}

proof fn lemma_digits_number_window(t: Seq<char>, x: Seq<char>, off: int, lo: int, k: int, hi: int)
    requires
        0 <= off <= lo <= k <= hi <= t.len(),
        x == t.subrange(off, hi),
    ensures
        digits_number(x, lo - off, k - off) == digits_number(t, lo, k),
    decreases k - lo,
{
    if k > lo {
        lemma_digits_number_window(t, x, off, lo, k - 1, hi);
    }
}

impl TForm {
    /// Bytes this column occupies in a single table row (Table 18).
    pub fn row_bytes(&self) -> (r: u64)
        ensures
            r == column_bytes(*self),
    {
        match self {
            TForm::Logical(r) => *r as u64,
            TForm::Bit(r) => (*r as u64 + 7) / 8,
            TForm::UnsignedByte(r) => *r as u64,
            TForm::Int16(r) => *r as u64 * 2,
            TForm::Int32(r) => *r as u64 * 4,
            TForm::Int64(r) => *r as u64 * 8,
            TForm::Char(r) => *r as u64,
            TForm::Float32(r) => *r as u64 * 4,
            TForm::Float64(r) => *r as u64 * 8,
            TForm::Complex32(r) => *r as u64 * 8,
            TForm::Complex64(r) => *r as u64 * 16,
            TForm::VarArrayP { .. } => 8,
            TForm::VarArrayQ { .. } => 16,
        }
    }

    /// Whether this is a variable-length array column.
    pub fn is_vla(&self) -> (r: bool)
        ensures
            r == (*self is VarArrayP || *self is VarArrayQ),
    {
        match self {
            TForm::VarArrayP { .. } | TForm::VarArrayQ { .. } => true,
            _ => false,
        }
    }

    /// Parses a TFORM value once surrounding whitespace is removed (see
    /// `tform_of`); an `InvalidHeader` error, with the text of `tform_error`,
    /// when it is not one.
    pub fn parse(s: &str) -> (r: Result<TForm, Error>)
        ensures
            match tform_of(trim(s@)) {
                Some(t) => r == Ok::<TForm, Error>(t),
                None => r matches Err(Error::InvalidHeader(m)) && m@ == tform_error(trim(s@)),
            },
    {
        let (lo, hi) = trim_bounds(s);
        let t = chars_between(s, lo, hi);
        proof {
            assert(trim(s@) == t@);
        }
        let trimmed = String::from_str(s).as_str().substring_char(lo, hi).to_owned();
        let d = digit_run_end_at(&t, 0);
        proof {
            lemma_digit_run_end(t@, 0);
        }
        let repeat: u32 = if d == 0 {
            1
        } else {
            match digits_up_to(&t, 0, d, 0xFFFF_FFFF) {
                Some(v) => v as u32,
                None => {
                    return Err(
                        Error::InvalidHeader(
                            String::from_str("invalid repeat count in TFORM '").concat(
                                trimmed.as_str(),
                            ).concat("'"),
                        ),
                    );
                },
            }
        };
        if d >= t.len() {
            return Err(
                Error::InvalidHeader(
                    String::from_str("empty TFORM '").concat(trimmed.as_str()).concat("'"),
                ),
            );
        }
        let c = t[d];
        match c {
            'L' => Ok(TForm::Logical(repeat)),
            'X' => Ok(TForm::Bit(repeat)),
            'B' => Ok(TForm::UnsignedByte(repeat)),
            'I' => Ok(TForm::Int16(repeat)),
            'J' => Ok(TForm::Int32(repeat)),
            'K' => Ok(TForm::Int64(repeat)),
            'A' => Ok(TForm::Char(repeat)),
            'E' => Ok(TForm::Float32(repeat)),
            'D' => Ok(TForm::Float64(repeat)),
            'C' => Ok(TForm::Complex32(repeat)),
            'M' => Ok(TForm::Complex64(repeat)),
            'P' | 'Q' => {
                if d + 1 >= t.len() {
                    return Err(
                        Error::InvalidHeader(
                            String::from_str("missing element type in VLA TFORM '").concat(
                                trimmed.as_str(),
                            ).concat("'"),
                        ),
                    );
                }
                let element_type = match VlaElementType::from_char(t[d + 1], trimmed.as_str()) {
                    Ok(e) => e,
                    Err(e) => return Err(e),
                };
                let emax = parse_emax(&t, d + 2);
                if c == 'P' {
                    Ok(TForm::VarArrayP { element_type, emax })
                } else {
                    Ok(TForm::VarArrayQ { element_type, emax })
                }
            },
            _ => {
                let ct = char_text(c);
                Err(
                    Error::InvalidHeader(
                        String::from_str("unknown TFORM type code '").concat(ct.as_str()).concat(
                            "' in '",
                        ).concat(trimmed.as_str()).concat("'"),
                    ),
                )
            },
        }
    }
}

/// Metadata for a single binary table column (7.3.2): the TTYPEn, TUNITn
/// and TFORMn keywords, with the byte offset of the column within a row.
#[derive(Debug, Clone, PartialEq)]
pub struct ColumnDesc {
    /// Column name from TTYPEn.
    pub name: Option<String>,
    /// Physical unit from TUNITn.
    pub unit: Option<String>,
    /// Parsed TFORMn.
    pub form: TForm,
    /// Byte offset of this column within a row.
    pub byte_offset: u64,
}

/// Mathematical form of a column description.
pub struct ColumnModel {
    pub name: Option<Seq<char>>,
    pub unit: Option<Seq<char>>,
    pub form: TForm,
    pub byte_offset: int,
}

impl View for ColumnDesc {
    type V = ColumnModel;

    open spec fn view(&self) -> ColumnModel {
        ColumnModel {
            name: crate::card::opt_view(self.name),
            unit: crate::card::opt_view(self.unit),
            form: self.form,
            byte_offset: self.byte_offset as int,
        }
    }
}

} // verus!
