//! The mandatory keywords of a header (4.4.1) and the size of the data
//! that follows it.
use vstd::prelude::*;

use super::{lookup, lookup_value, Header};
use crate::bitpix::{bitpix_value, bitpix_width, is_bitpix_value, Bitpix};
use crate::card::encode::nat_text;
use crate::card::scan::ascii_chars;
use crate::card::{Card, CardModel, CardValue, ValueModel};
use crate::error::{fault_matches, Error, HeaderFault};
use crate::extension::XtensionType;
use crate::io::block::blocks_for;

verus! {

/// The keyword `prefix` followed by the decimal digits of `n`, such as `NAXIS2`.
pub open spec fn numbered(prefix: Seq<char>, n: nat) -> Seq<char> {
    prefix + ascii_chars(nat_text(n))
}

pub proof fn lemma_nat_text_digits(n: nat)
    ensures
        forall|k: int| 0 <= k < nat_text(n).len() ==> 0x30 <= #[trigger] nat_text(n)[k] <= 0x39,
    decreases n,
{
    if n >= 10 {
        lemma_nat_text_digits(n / 10);
        let d = (0x30 + n % 10) as u8;
        assert(0x30 <= d <= 0x39);
        assert(nat_text(n) == nat_text(n / 10).push(d));
    } else {
        assert(nat_text(n) == seq![(0x30 + n) as u8]);
    }
}

/// The keyword `prefix` followed by the decimal digits of `n`.
pub fn numbered_keyword(prefix: &str, n: usize) -> (r: String)
    ensures
        r@ == numbered(prefix@, n as nat),
{
    let d = crate::card::encode::nat_digits(n as u64);
    proof {
        lemma_nat_text_digits(n as nat);
    }
    let digits = crate::card::scan::ascii_string(d.as_slice());
    String::from_str(prefix).concat(digits.as_str())
}

/// The value of a count keyword (PCOUNT, GCOUNT): `default` when it is
/// absent, its value when that is a non-negative integer, `None` otherwise.
pub open spec fn count_value(cards: Seq<CardModel>, kw: Seq<char>, default: int) -> Option<int> {
    match lookup_value(cards, kw) {
        None => Some(default),
        Some(ValueModel::Integer(i)) => if i >= 0 {
            Some(i as int)
        } else {
            None
        },
        Some(_) => None,
    }
}

/// The length of axis `k`: the non-negative integer value of NAXISk.
pub open spec fn axis_value(cards: Seq<CardModel>, k: nat) -> Option<int> {
    match lookup_value(cards, numbered("NAXIS"@, k)) {
        Some(ValueModel::Integer(i)) => if i >= 0 {
            Some(i as int)
        } else {
            None
        },
        _ => None,
    }
}

/// What is wrong with the axis keyword `name` (NAXISn, ZNAXISn): nothing
/// when it is a non-negative integer.
pub open spec fn axis_fault(cards: Seq<CardModel>, name: Seq<char>) -> Option<HeaderFault> {
    match lookup_value(cards, name) {
        Some(ValueModel::Integer(i)) => if i >= 0 {
            None
        } else {
            Some(HeaderFault::Header(name + " value must be a non-negative integer"@))
        },
        None => Some(HeaderFault::Header("missing "@ + name + " keyword"@)),
        Some(_) => Some(HeaderFault::Header(name + " value must be a non-negative integer"@)),
    }
}

/// NAXIS1 × … × NAXISn, when all of them are there and non-negative.
pub open spec fn axes_product(cards: Seq<CardModel>, n: nat) -> Option<int>
    decreases n,
{
    if n == 0 {
        Some(1)
    } else {
        match (axes_product(cards, (n - 1) as nat), axis_value(cards, n)) {
            (Some(p), Some(v)) => Some(p * v),
            _ => None,
        }
    }
}

/// A missing or negative axis leaves no product.
pub proof fn lemma_axes_none(cards: Seq<CardModel>, k: nat, n: nat)
    requires
        1 <= k <= n,
        axis_value(cards, k) is None,
    ensures
        axes_product(cards, n) is None,
    decreases n,
{
    if n > k {
        lemma_axes_none(cards, k, (n - 1) as nat);
    }
}

/// The number of bytes of data after a header (4.4.1.1): |BITPIX| / 8 ×
/// GCOUNT × (PCOUNT + NAXIS1 × … × NAXISn), where a missing PCOUNT counts
/// as 0 and a missing GCOUNT as 1; 0 when NAXIS is 0. `None` when BITPIX or
/// NAXIS is missing or invalid, or an axis or count is missing where it is
/// needed or is negative.
pub open spec fn data_size(cards: Seq<CardModel>) -> Option<int> {
    match (lookup_value(cards, "BITPIX"@), lookup_value(cards, "NAXIS"@)) {
        (Some(ValueModel::Integer(b)), Some(ValueModel::Integer(n))) => if is_bitpix_value(
            b as int,
        ) && 0 <= n <= 999 {
            if n == 0 {
                Some(0)
            } else {
                match (
                    axes_product(cards, n as nat),
                    count_value(cards, "PCOUNT"@, 0),
                    count_value(cards, "GCOUNT"@, 1),
                ) {
                    (Some(p), Some(pc), Some(gc)) => Some(
                        (if b < 0 {
                            -b
                        } else {
                            b as int
                        }) / 8 * gc * (pc + p),
                    ),
                    _ => None,
                }
            }
        } else {
            None
        },
        _ => None,
    }
}

/// The fault of the first of NAXIS1 … NAXISn that is wrong.
pub open spec fn axes_fault(cards: Seq<CardModel>, n: nat) -> Option<HeaderFault>
    decreases n,
{
    if n == 0 {
        None
    } else {
        match axes_fault(cards, (n - 1) as nat) {
            Some(f) => Some(f),
            None => axis_fault(cards, numbered("NAXIS"@, n)),
        }
    }
}

/// What is wrong with the count keyword `kw` (PCOUNT, GCOUNT): nothing when
/// it is absent or a non-negative integer.
pub open spec fn count_fault(cards: Seq<CardModel>, kw: Seq<char>) -> Option<HeaderFault> {
    match lookup_value(cards, kw) {
        None => None,
        Some(ValueModel::Integer(i)) => if i >= 0 {
            None
        } else {
            Some(HeaderFault::Header(kw + " must be a non-negative integer"@))
        },
        Some(_) => Some(HeaderFault::Header(kw + " must be a non-negative integer"@)),
    }
}

/// The error of a header that gives no data size (`data_size` is `None`):
/// BITPIX, NAXIS, the first wrong NAXISn, PCOUNT and GCOUNT, checked in that
/// order.
pub open spec fn data_size_fault(cards: Seq<CardModel>) -> HeaderFault {
    match lookup_value(cards, "BITPIX"@) {
        None => HeaderFault::Missing("BITPIX"@),
        Some(ValueModel::Integer(b)) => if is_bitpix_value(b as int) {
            match lookup_value(cards, "NAXIS"@) {
                None => HeaderFault::Missing("NAXIS"@),
                Some(ValueModel::Integer(n)) => if 0 <= n <= 999 {
                    match axes_fault(cards, n as nat) {
                        Some(f) => f,
                        None => match count_fault(cards, "PCOUNT"@) {
                            Some(f) => f,
                            None => match count_fault(cards, "GCOUNT"@) {
                                Some(f) => f,
                                None => HeaderFault::Malformed,
                            },
                        },
                    }
                } else {
                    HeaderFault::BadValue("NAXIS"@)
                },
                Some(_) => HeaderFault::BadValue("NAXIS"@),
            }
        } else {
            HeaderFault::BadValue("BITPIX"@)
        },
        Some(_) => HeaderFault::BadValue("BITPIX"@),
    }
}

/// Once one of the first `k` axes is wrong, the same fault stands for the
/// first `n`.
pub proof fn lemma_axes_fault_stays(cards: Seq<CardModel>, k: nat, n: nat)
    requires
        k <= n,
        axes_fault(cards, k) is Some,
    ensures
        axes_fault(cards, n) == axes_fault(cards, k),
    decreases n,
{
    if n > k {
        lemma_axes_fault_stays(cards, k, (n - 1) as nat);
    }
}

pub proof fn lemma_axes_product_nonneg(cards: Seq<CardModel>, n: nat)
    ensures
        axes_product(cards, n) matches Some(p) ==> p >= 0,
    decreases n,
{
    if n > 0 {
        lemma_axes_product_nonneg(cards, (n - 1) as nat);
        match (axes_product(cards, (n - 1) as nat), axis_value(cards, n)) {
            (Some(p), Some(v)) => {
                assert(p * v >= 0) by (nonlinear_arith)
                    requires
                        p >= 0,
                        v >= 0,
                ;
            },
            _ => {},
        }
    }
}

/// A data size is never negative.
pub proof fn lemma_data_size_nonneg(cards: Seq<CardModel>)
    ensures
        data_size(cards) matches Some(sz) ==> sz >= 0 && blocks_for(sz) * 2880 >= 0,
{
    match (lookup_value(cards, "BITPIX"@), lookup_value(cards, "NAXIS"@)) {
        (Some(ValueModel::Integer(b)), Some(ValueModel::Integer(n))) => {
            if is_bitpix_value(b as int) && 0 < n <= 999 {
                lemma_axes_product_nonneg(cards, n as nat);
                match (
                    axes_product(cards, n as nat),
                    count_value(cards, "PCOUNT"@, 0),
                    count_value(cards, "GCOUNT"@, 1),
                ) {
                    (Some(p), Some(pc), Some(gc)) => {
                        let w = (if b < 0 {
                            -b
                        } else {
                            b as int
                        }) / 8;
                        assert(w >= 0);
                        assert(w * gc * (pc + p) >= 0) by (nonlinear_arith)
                            requires
                                w >= 0,
                                gc >= 0,
                                pc + p >= 0,
                        ;
                    },
                    _ => {},
                }
            }
        },
        _ => {},
    }
}

impl Header {
    /// BITPIX (4.4.1.1): a `MissingKeyword` error when it is absent, an
    /// `InvalidKeywordValue` error when it is not one of the six allowed integers.
    pub fn bitpix(&self) -> (r: Result<Bitpix, Error>)
        requires
            self.well_formed(),
        ensures
            match lookup_value(self@, "BITPIX"@) {
                None => r matches Err(Error::MissingKeyword(k)) && k@ == "BITPIX"@,
                Some(ValueModel::Integer(i)) => if is_bitpix_value(i as int) {
                    r matches Ok(b) && bitpix_value(b) == i
                } else {
                    r matches Err(Error::InvalidKeywordValue { keyword, .. }) && keyword@ == "BITPIX"@
                },
                Some(_) => r matches Err(Error::InvalidKeywordValue { keyword, .. }) && keyword@
                    == "BITPIX"@,
            },
    {
        match self.get_value("BITPIX") {
            None => Err(Error::MissingKeyword("BITPIX")),
            Some(CardValue::Integer(i)) => Bitpix::try_from_i64(*i),
            Some(_) => Err(
                Error::InvalidKeywordValue {
                    keyword: "BITPIX",
                    value: String::from_str("non-integer"),
                    reason: "must be an integer",
                },
            ),
        }
    }

    /// NAXIS (4.4.1.1): a non-negative integer no greater than 999.
    pub fn naxis(&self) -> (r: Result<usize, Error>)
        requires
            self.well_formed(),
        ensures
            match lookup_value(self@, "NAXIS"@) {
                None => r matches Err(Error::MissingKeyword(k)) && k@ == "NAXIS"@,
                Some(ValueModel::Integer(i)) => if 0 <= i <= 999 {
                    r == Ok::<usize, Error>(i as usize)
                } else {
                    r matches Err(Error::InvalidKeywordValue { keyword, reason, .. }) && keyword@
                        == "NAXIS"@ && reason@ == "must be an integer between 0 and 999"@
                },
                Some(_) => r matches Err(Error::InvalidKeywordValue { keyword, reason, .. })
                    && keyword@ == "NAXIS"@ && reason@ == "must be an integer between 0 and 999"@,
            },
    {
        match self.get_value("NAXIS") {
            None => Err(Error::MissingKeyword("NAXIS")),
            Some(CardValue::Integer(i)) if 0 <= *i && *i <= 999 => Ok(*i as usize),
            Some(_) => Err(
                Error::InvalidKeywordValue {
                    keyword: "NAXIS",
                    value: String::from_str("non-integer"),
                    reason: "must be an integer between 0 and 999",
                },
            ),
        }
    }

    /// NAXISn (4.4.1.1): a non-negative integer; an `InvalidHeader` error
    /// when it is missing or is not.
    pub fn naxisn(&self, n: usize) -> (r: Result<u64, Error>)
        requires
            self.well_formed(),
        ensures
            match lookup_value(self@, numbered("NAXIS"@, n as nat)) {
                Some(ValueModel::Integer(i)) => if i >= 0 {
                    r == Ok::<u64, Error>(i as u64)
                } else {
                    r matches Err(Error::InvalidHeader(m)) && m@ == numbered("NAXIS"@, n as nat)
                        + " value must be a non-negative integer"@
                },
                None => r matches Err(Error::InvalidHeader(m)) && m@ == "missing "@ + numbered(
                    "NAXIS"@,
                    n as nat,
                ) + " keyword"@,
                Some(_) => r matches Err(Error::InvalidHeader(m)) && m@ == numbered(
                    "NAXIS"@,
                    n as nat,
                ) + " value must be a non-negative integer"@,
            },
    {
        let kw = numbered_keyword("NAXIS", n);
        match self.get_value(kw.as_str()) {
            Some(CardValue::Integer(i)) if *i >= 0 => Ok(*i as u64),
            None => Err(
                Error::InvalidHeader(
                    String::from_str("missing ").concat(kw.as_str()).concat(" keyword"),
                ),
            ),
            Some(_) => Err(
                Error::InvalidHeader(kw.concat(" value must be a non-negative integer")),
            ),
        }
    }

    /// XTENSION (4.4.1.2): the extension type of an XTENSION card.
    pub fn xtension(&self) -> (r: Result<XtensionType, Error>)
        requires
            self.well_formed(),
        ensures
            match lookup(self@, "XTENSION"@) {
                None => r matches Err(Error::MissingKeyword(k)) && k@ == "XTENSION"@,
                Some(CardModel::Xtension { x, .. }) => r == Ok::<XtensionType, Error>(x),
                Some(_) => r matches Err(Error::InvalidKeywordValue { keyword, reason, .. })
                    && keyword@ == "XTENSION"@ && reason@
                    == "must be a recognized extension type string"@,
            },
    {
        match self.get("XTENSION") {
            None => Err(Error::MissingKeyword("XTENSION")),
            Some(Card::Xtension { x, .. }) => Ok(*x),
            Some(_) => Err(
                Error::InvalidKeywordValue {
                    keyword: "XTENSION",
                    value: String::from_str("non-string"),
                    reason: "must be a recognized extension type string",
                },
            ),
        }
    }
}


impl Header {
    /// A count keyword (PCOUNT, GCOUNT): `default` when it is absent; an
    /// `InvalidHeader` error when it is not a non-negative integer.
    fn count_keyword(&self, kw: &str, default: u64) -> (r: Result<u64, Error>)
        requires
            self.well_formed(),
        ensures
            match count_value(self@, kw@, default as int) {
                Some(v) => r == Ok::<u64, Error>(v as u64),
                None => r matches Err(Error::InvalidHeader(m)) && m@ == kw@
                    + " must be a non-negative integer"@,
            },
    {
        match self.get_value(kw) {
            None => Ok(default),
            Some(CardValue::Integer(i)) if *i >= 0 => Ok(*i as u64),
            Some(_) => Err(
                Error::InvalidHeader(String::from_str(kw).concat(" must be a non-negative integer")),
            ),
        }
    }

    /// The number of bytes of data after this header, rounded up to whole
    /// blocks (see `data_size`); where `data_size` has none, the error that
    /// `data_size_fault` names, and an `InvalidHeader` error where the rounded
    /// size does not fit in 64 bits.
    pub fn data_len(&self) -> (r: Result<u64, Error>)
        requires
            self.well_formed(),
        ensures
            match data_size(self@) {
                Some(sz) => if blocks_for(sz) * 2880 <= u64::MAX {
                    r == Ok::<u64, Error>((blocks_for(sz) * 2880) as u64)
                } else {
                    r matches Err(Error::InvalidHeader(m)) && m@
                        == "data size does not fit in 64 bits"@
                },
                None => fault_matches(r, data_size_fault(self@)),
            },
    {
        let bitpix = match self.bitpix() {
            Ok(b) => b,
            Err(e) => return Err(e),
        };
        let naxis = match self.naxis() {
            Ok(n) => n,
            Err(e) => return Err(e),
        };
        if naxis == 0 {
            return Ok(0);
        }
        let ghost cards = self@;
        let mut k: usize = 1;
        let mut prod: u64 = 1;
        let mut big = false;
        let mut zero = false;
        while k <= naxis
            invariant
                self.well_formed(),
                cards == self@,
                1 <= k <= naxis + 1,
                naxis <= 999,
                lookup_value(cards, "NAXIS"@) == Some(ValueModel::Integer(naxis as i64)),
                lookup_value(cards, "BITPIX"@) == Some(ValueModel::Integer(bitpix_value(bitpix) as i64)),
                is_bitpix_value(bitpix_value(bitpix)),
                axes_product(cards, (k - 1) as nat) matches Some(p) && (zero ==> p == 0) && (!zero
                    && !big ==> p == prod) && (!zero && big ==> p > u64::MAX) && p >= 0,
                axes_fault(cards, (k - 1) as nat) is None,
            decreases naxis + 1 - k,
        {
            let v = match self.naxisn(k) {
                Ok(v) => v,
                Err(e) => {
                    proof {
                        lemma_axes_none(cards, k as nat, naxis as nat);
                        assert(axes_fault(cards, k as nat) is Some);
                        lemma_axes_fault_stays(cards, k as nat, naxis as nat);
                    }
                    return Err(e);
                },
            };
            let ghost was_big = big;
            let ghost was_zero = zero;
            let ghost old_prod = prod;
            let ghost p = axes_product(cards, (k - 1) as nat)->0;
            if v == 0 {
                zero = true;
            } else if !big {
                match prod.checked_mul(v) {
                    Some(x) => {
                        prod = x;
                    },
                    None => {
                        big = true;
                    },
                }
            }
            proof {
                assert(axes_product(cards, k as nat) == Some(p * v));
                if v == 0 {
                    assert(p * v == 0) by (nonlinear_arith)
                        requires
                            v == 0,
                    ;
                } else if was_zero {
                    assert(p * v == 0) by (nonlinear_arith)
                        requires
                            p == 0,
                    ;
                } else if was_big {
                    assert(p * v >= p) by (nonlinear_arith)
                        requires
                            v >= 1,
                            p >= 0,
                    ;
                } else {
                    assert(p == old_prod);
                }
                assert(p * v >= 0) by (nonlinear_arith)
                    requires
                        v >= 0,
                        p >= 0,
                ;
            }
            k = k + 1;
        }
        let pcount = match self.count_keyword("PCOUNT", 0) {
            Ok(v) => v,
            Err(e) => return Err(e),
        };
        let gcount = match self.count_keyword("GCOUNT", 1) {
            Ok(v) => v,
            Err(e) => return Err(e),
        };
        let width = bitpix.byte_width() as u64;
        let ghost b = bitpix_value(bitpix);
        let ghost pp = axes_product(cards, naxis as nat)->0;
        let ghost w = (if b < 0 {
            -b
        } else {
            b as int
        }) / 8;
        proof {
            assert(k == naxis + 1);
            assert(w == width);
            assert(data_size(cards) == Some(w * gcount * (pcount + pp)));
        }
        if gcount == 0 {
            proof {
                assert(w * gcount * (pcount + pp) == 0) by (nonlinear_arith)
                    requires
                        gcount == 0,
                ;
                assert(blocks_for(0) == 0);
            }
            return Ok(0);
        }
        if !zero && big {
            proof {
                assert(w * gcount * (pcount + pp) >= pp) by (nonlinear_arith)
                    requires
                        w >= 1,
                        gcount >= 1,
                        pcount >= 0,
                        pp >= 0,
                ;
                assert(blocks_for(w * gcount * (pcount + pp)) * 2880 >= w * gcount * (pcount + pp))
                    by (nonlinear_arith);
            }
            return Err(Error::InvalidHeader(String::from_str("data size does not fit in 64 bits")));
        }
        let p: u64 = if zero {
            0
        } else {
            prod
        };
        proof {
            assert(p == pp);
        }
        let total = match pcount.checked_add(p) {
            Some(s) => match gcount.checked_mul(s) {
                Some(g) => width.checked_mul(g),
                None => None,
            },
            None => None,
        };
        proof {
            let t = w * gcount * (pcount + pp);
            assert(w * (gcount * (pcount + pp)) == w * gcount * (pcount + pp)) by (nonlinear_arith);
            assert(gcount * (pcount + pp) >= pcount + pp) by (nonlinear_arith)
                requires
                    gcount >= 1,
                    pcount + pp >= 0,
            ;
            assert(w * (gcount * (pcount + pp)) >= gcount * (pcount + pp)) by (nonlinear_arith)
                requires
                    w >= 1,
                    gcount * (pcount + pp) >= 0,
            ;
            assert(blocks_for(t) * 2880 >= t) by (nonlinear_arith);
        }
        match total {
            Some(t) => {
                let blocks = crate::io::block::blocks_needed(t);
                match blocks.checked_mul(2880) {
                    Some(padded) => Ok(padded),
                    None => Err(
                        Error::InvalidHeader(String::from_str("data size does not fit in 64 bits")),
                    ),
                }
            },
            None => Err(Error::InvalidHeader(String::from_str("data size does not fit in 64 bits"))),
        }
    }
}

} // verus!
