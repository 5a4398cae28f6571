//! The layout of a binary table: its columns, where each field stands in a
//! row, and where the heap of its variable-length arrays starts (7.3).
use vstd::prelude::*;

use super::bintable::{
    column_bytes, element_bytes, tform_error, tform_of, ColumnDesc, ColumnModel, TForm, VlaElementType,
};
use crate::card::{CardModel, CardValue, ValueModel};
use crate::error::{fault_matches, Error, HeaderFault, IoError, IoErrorKind};
use crate::pixel::{be_signed, pow256, Pixel};
use crate::header::keywords::{axis_fault, axis_value, numbered, numbered_keyword};
use crate::header::{lookup_value, Header};
use crate::text::trim;

verus! {

/// The value of `kw` when it is a string.
pub open spec fn string_value(cards: Seq<CardModel>, kw: Seq<char>) -> Option<Seq<char>> {
    match lookup_value(cards, kw) {
        Some(ValueModel::String(s)) => Some(s),
        _ => None,
    }
}

/// TFIELDS, when it is an integer from 0 to 999 (7.3.1).
pub open spec fn tfields_of(cards: Seq<CardModel>) -> Option<int> {
    match lookup_value(cards, "TFIELDS"@) {
        Some(ValueModel::Integer(i)) => if 0 <= i <= 999 {
            Some(i as int)
        } else {
            None
        },
        _ => None,
    }
}

/// Column `k` (counted from 1) placed at `offset` in a row: TFORMk must be
/// a string holding a TFORM; TTYPEk and TUNITk are kept when they are strings.
pub open spec fn column_at(cards: Seq<CardModel>, k: nat, offset: int) -> Option<ColumnModel> {
    match string_value(cards, numbered("TFORM"@, k)) {
        Some(s) => match tform_of(trim(s)) {
            Some(f) => Some(
                ColumnModel {
                    name: string_value(cards, numbered("TTYPE"@, k)),
                    unit: string_value(cards, numbered("TUNIT"@, k)),
                    form: f,
                    byte_offset: offset,
                },
            ),
            None => None,
        },
        None => None,
    }
}

/// Where the fields of `cs` end in a row.
pub open spec fn fields_end(cs: Seq<ColumnModel>) -> int {
    if cs.len() == 0 {
        0
    } else {
        cs.last().byte_offset + column_bytes(cs.last().form)
    }
}

/// The first `n` columns, each field right after the one before it.
pub open spec fn columns_of(cards: Seq<CardModel>, n: nat) -> Option<Seq<ColumnModel>>
    decreases n,
{
    if n == 0 {
        Some(Seq::empty())
    } else {
        match columns_of(cards, (n - 1) as nat) {
            Some(cs) => match column_at(cards, n, fields_end(cs)) {
                Some(c) => Some(cs.push(c)),
                None => None,
            },
            None => None,
        }
    }
}

/// Where the heap starts after the data of the table: THEAP when it is a
/// non-negative integer, the size of the rows when it is absent (7.3.5).
pub open spec fn heap_of(cards: Seq<CardModel>, row_len: int, n_rows: int) -> Option<int> {
    match lookup_value(cards, "THEAP"@) {
        None => Some(row_len * n_rows),
        Some(ValueModel::Integer(i)) => if i >= 0 {
            Some(i as int)
        } else {
            None
        },
        Some(_) => None,
    }
}

/// Mathematical form of the layout of a binary table.
pub struct LayoutModel {
    pub row_len: int,
    pub n_rows: int,
    pub heap_offset: int,
    pub columns: Seq<ColumnModel>,
}

/// The layout that a binary-table header gives: NAXIS1 bytes per row,
/// NAXIS2 rows, TFIELDS columns and the start of the heap; `None` when one
/// of them is missing or invalid, or the heap starts past 2^64.
pub open spec fn layout_of(cards: Seq<CardModel>) -> Option<LayoutModel> {
    match (axis_value(cards, 1), axis_value(cards, 2), tfields_of(cards)) {
        (Some(w), Some(h), Some(n)) => match columns_of(cards, n as nat) {
            Some(cs) => match heap_of(cards, w, h) {
                Some(hp) => if hp <= u64::MAX {
                    Some(LayoutModel { row_len: w, n_rows: h, heap_offset: hp, columns: cs })
                } else {
                    None
                },
                None => None,
            },
            None => None,
        },
        _ => None,
    }
}

/// What is wrong with column `k`: TFORMk missing or not a string, or not a
/// TFORM.
pub open spec fn column_fault(cards: Seq<CardModel>, k: nat) -> Option<HeaderFault> {
    match string_value(cards, numbered("TFORM"@, k)) {
        Some(s) => if tform_of(trim(s)) is Some {
            None
        } else {
            Some(HeaderFault::Header(tform_error(trim(s))))
        },
        None => Some(HeaderFault::Header("missing or invalid "@ + numbered("TFORM"@, k))),
    }
}

/// The fault of the first of columns 1 … `n` that is wrong.
pub open spec fn columns_fault(cards: Seq<CardModel>, n: nat) -> Option<HeaderFault>
    decreases n,
{
    if n == 0 {
        None
    } else {
        match columns_fault(cards, (n - 1) as nat) {
            Some(f) => Some(f),
            None => column_fault(cards, n),
        }
    }
}

/// The error of a binary-table header whose layout cannot be read
/// (`layout_of` is `None`): NAXIS1, NAXIS2, TFIELDS, the first wrong TFORMn
/// and THEAP, checked in that order.
pub open spec fn layout_fault(cards: Seq<CardModel>) -> HeaderFault {
    match axis_fault(cards, numbered("NAXIS"@, 1)) {
        Some(f) => f,
        None => match axis_fault(cards, numbered("NAXIS"@, 2)) {
            Some(f) => f,
            None => match lookup_value(cards, "TFIELDS"@) {
                None => HeaderFault::Missing("TFIELDS"@),
                Some(ValueModel::Integer(i)) => if 0 <= i <= 999 {
                    match columns_fault(cards, i as nat) {
                        Some(f) => f,
                        None => match lookup_value(cards, "THEAP"@) {
                            None => HeaderFault::Header("heap offset does not fit in 64 bits"@),
                            Some(_) => HeaderFault::Header(
                                "THEAP must be a non-negative integer"@,
                            ),
                        },
                    }
                } else {
                    HeaderFault::BadValue("TFIELDS"@)
                },
                Some(_) => HeaderFault::BadValue("TFIELDS"@),
            },
        },
    }
}

/// Once one of the first `k` columns is wrong, the same fault stands for
/// the first `n`.
proof fn lemma_columns_fault_stays(cards: Seq<CardModel>, k: nat, n: nat)
    requires
        k <= n,
        columns_fault(cards, k) is Some,
    ensures
        columns_fault(cards, n) == columns_fault(cards, k),
    decreases n,
{
    if n > k {
        lemma_columns_fault_stays(cards, k, (n - 1) as nat);
    }
}

/// A column takes at most 2^36 bytes of a row.
proof fn lemma_column_bytes(f: TForm)
    ensures
        0 <= column_bytes(f) <= 0x10_0000_0000,
{
}

/// The first `n` columns are `n` and their fields end within `n` × 2^36
/// bytes.
proof fn lemma_columns_of(cards: Seq<CardModel>, n: nat)
    ensures
        columns_of(cards, n) matches Some(cs) ==> cs.len() == n && 0 <= fields_end(cs) <= n
            * 0x10_0000_0000,
    decreases n,
{
    if n > 0 {
        lemma_columns_of(cards, (n - 1) as nat);
        match columns_of(cards, (n - 1) as nat) {
            Some(cs) => match column_at(cards, n, fields_end(cs)) {
                Some(c) => {
                    lemma_column_bytes(c.form);
                },
                None => {},
            },
            None => {},
        }
    }
}

/// Once a column is missing, so are all the columns after it.
proof fn lemma_columns_none(cards: Seq<CardModel>, k: nat, n: nat)
    requires
        k <= n,
        columns_of(cards, k) is None,
    ensures
        columns_of(cards, n) is None,
    decreases n - k,
{
    if k < n {
        lemma_columns_none(cards, k, (n - 1) as nat);
    }
}

/// The layout of a binary table (7.3).
pub struct BinTableLayout {
    /// NAXIS1: bytes per row.
    pub row_len: u64,
    /// NAXIS2: number of rows.
    pub n_rows: u64,
    /// Offset of the heap from the start of the data.
    pub heap_offset: u64,
    /// The columns, in order.
    pub columns: Vec<ColumnDesc>,
}

impl View for BinTableLayout {
    type V = LayoutModel;

    open spec fn view(&self) -> LayoutModel {
        LayoutModel {
            row_len: self.row_len as int,
            n_rows: self.n_rows as int,
            heap_offset: self.heap_offset as int,
            columns: self.columns@.map_values(|c: ColumnDesc| c@),
        }
    }
}

/// The string value of keyword `kw`, owned.
fn string_card(h: &Header, kw: &str) -> (r: Option<String>)
    requires
        h.well_formed(),
    ensures
        crate::card::opt_view(r) == string_value(h@, kw@),
{
    match h.get_value(kw) {
        Some(v) => match v.as_str() {
            Some(s) => Some(s.to_owned()),
            None => None,
        },
        None => None,
    }
}

impl BinTableLayout {
    /// The layout that a binary-table header gives (see `layout_of`): the
    /// errors of `naxisn` for NAXIS1 and NAXIS2, a `MissingKeyword` or
    /// `InvalidKeywordValue` error for TFIELDS, an `InvalidHeader` error for
    /// a TFORMn that is missing or invalid and for THEAP.
    #[verifier::loop_isolation(false)]
    pub fn from_header(h: &Header) -> (r: Result<BinTableLayout, Error>)
        requires
            h.well_formed(),
        ensures
            match layout_of(h@) {
                Some(l) => r matches Ok(t) && t@ == l,
                None => fault_matches(r, layout_fault(h@)),
            },
    {
        let row_len = match h.naxisn(1) {
            Ok(v) => v,
            Err(e) => return Err(e),
        };
        let n_rows = match h.naxisn(2) {
            Ok(v) => v,
            Err(e) => return Err(e),
        };
        let tfields: usize = match h.get_value("TFIELDS") {
            None => return Err(Error::MissingKeyword("TFIELDS")),
            Some(CardValue::Integer(i)) if 0 <= *i && *i <= 999 => *i as usize,
            Some(_) => return Err(
                Error::InvalidKeywordValue {
                    keyword: "TFIELDS",
                    value: String::from_str("out of range"),
                    reason: "must be an integer between 0 and 999",
                },
            ),
        };
        let ghost cards = h@;
        let mut columns: Vec<ColumnDesc> = Vec::new();
        let mut offset: u64 = 0;
        let mut k: usize = 1;
        while k <= tfields
            invariant
                h.well_formed(),
                cards == h@,
                1 <= k <= tfields + 1,
                tfields <= 999,
                columns_of(cards, (k - 1) as nat) == Some(
                    columns@.map_values(|c: ColumnDesc| c@),
                ),
                offset == fields_end(columns@.map_values(|c: ColumnDesc| c@)),
                columns_fault(cards, (k - 1) as nat) is None,
            decreases tfields + 1 - k,
        {
            let ghost before = columns@.map_values(|c: ColumnDesc| c@);
            proof {
                lemma_columns_of(cards, (k - 1) as nat);
            }
            let form_kw = numbered_keyword("TFORM", k);
            let form = match h.get_value(form_kw.as_str()) {
                Some(CardValue::String(s)) => match TForm::parse(s.as_str()) {
                    Ok(f) => f,
                    Err(e) => {
                        proof {
                            lemma_columns_none(cards, k as nat, tfields as nat);
                            assert(columns_fault(cards, k as nat) is Some);
                            lemma_columns_fault_stays(cards, k as nat, tfields as nat);
                        }
                        return Err(e);
                    },
                },
                _ => {
                    proof {
                        lemma_columns_none(cards, k as nat, tfields as nat);
                        assert(columns_fault(cards, k as nat) is Some);
                        lemma_columns_fault_stays(cards, k as nat, tfields as nat);
                    }
                    return Err(
                        Error::InvalidHeader(
                            String::from_str("missing or invalid ").concat(form_kw.as_str()),
                        ),
                    );
                },
            };
            let name_kw = numbered_keyword("TTYPE", k);
            let unit_kw = numbered_keyword("TUNIT", k);
            let name = string_card(h, name_kw.as_str());
            let unit = string_card(h, unit_kw.as_str());
            let col = ColumnDesc { name, unit, form, byte_offset: offset };
            proof {
                lemma_column_bytes(form);
                assert(column_at(cards, k as nat, offset as int) == Some(col@));
            }
            let step = form.row_bytes();
            columns.push(col);
            proof {
                assert(columns@.map_values(|c: ColumnDesc| c@) =~= before.push(col@));
            }
            offset = offset + step;
            k = k + 1;
        }
        let heap_offset = match h.get_value("THEAP") {
            None => match row_len.checked_mul(n_rows) {
                Some(x) => x,
                None => return Err(
                    Error::InvalidHeader(String::from_str("heap offset does not fit in 64 bits")),
                ),
            },
            Some(CardValue::Integer(i)) if *i >= 0 => *i as u64,
            Some(_) => return Err(
                Error::InvalidHeader(String::from_str("THEAP must be a non-negative integer")),
            ),
        };
        Ok(BinTableLayout { row_len, n_rows, heap_offset, columns })
    }

    /// The first column whose TTYPE is `name`.
    pub fn column_by_name(&self, name: &str) -> (r: Option<&ColumnDesc>)
        ensures
            match first_column_named(self@.columns, name@, 0) {
                Some(i) => r matches Some(c) && c@ == self@.columns[i],
                None => r is None,
            },
    {
        let mut i: usize = 0;
        while i < self.columns.len()
            invariant
                i <= self.columns@.len(),
                first_column_named(self@.columns, name@, 0) == first_column_named(
                    self@.columns,
                    name@,
                    i as int,
                ),
            decreases self.columns@.len() - i,
        {
            let c = &self.columns[i];
            let same = match &c.name {
                Some(n) => crate::text::str_eq(n.as_str(), name),
                None => false,
            };
            if same {
                return Some(c);
            }
            i = i + 1;
        }
        None
    }
}

/// The width of each of the two integers of the descriptor of a
/// variable-length array: 4 bytes for a P column, 8 for a Q column, 0 for a
/// column of fixed width (7.3.5).
pub open spec fn descriptor_width(f: TForm) -> int {
    match f {
        TForm::VarArrayP { .. } => 4,
        TForm::VarArrayQ { .. } => 8,
        _ => 0,
    }
}

/// The element type of a variable-length array column.
pub open spec fn vla_element(f: TForm) -> Option<VlaElementType> {
    match f {
        TForm::VarArrayP { element_type, .. } => Some(element_type),
        TForm::VarArrayQ { element_type, .. } => Some(element_type),
        _ => None,
    }
}

/// Where the field of column `c` in row `row` starts, the data of the table
/// starting at `data_offset`.
pub open spec fn field_pos(l: LayoutModel, c: ColumnModel, data_offset: int, row: int) -> int {
    data_offset + row * l.row_len + c.byte_offset
}

/// The element count and the heap offset that the descriptor of column `c`
/// in row `row` holds, as big-endian two's-complement integers.
pub open spec fn descriptor_at(bytes: Seq<u8>, l: LayoutModel, c: ColumnModel, data_offset: int, row: int) -> (
    int,
    int,
) {
    let w = descriptor_width(c.form);
    let p = field_pos(l, c, data_offset, row);
    (be_signed(bytes.subrange(p, p + w)), be_signed(bytes.subrange(p + w, p + 2 * w)))
}

/// The signed big-endian integer of `w` bytes (4 or 8) at `pos`.
fn signed_at(data: &[u8], pos: usize, w: usize) -> (r: i64)
    requires
        w == 4 || w == 8,
        pos + w <= data@.len(),
    ensures
        r == be_signed(data@.subrange(pos as int, pos + w)),
{
    let len = data.len();
    assert(pos + w <= len);
    let s = vstd::slice::slice_subrange(data, pos, pos + w);
    proof {
        crate::pixel::lemma_be_signed_range(s@);
        reveal_with_fuel(pow256, 8);
    }
    if w == 4 {
        <i32 as Pixel>::from_be_bytes(s) as i64
    } else {
        <i64 as Pixel>::from_be_bytes(s)
    }
}

impl BinTableLayout {
    /// The element count and heap offset of the variable-length array of
    /// column `col` in row `row`, the data of the table starting at
    /// `data_offset` in `data`: an `InvalidHDU` error for a column of fixed
    /// width, a row past the last one or a negative count or offset, and an
    /// `UnexpectedEof` I/O error when `data` ends within the descriptor.
    pub fn read_vla_descriptor(&self, data: &[u8], data_offset: u64, row: u64, col: &ColumnDesc) -> (r:
        Result<(u64, u64), Error>)
        ensures
            descriptor_width(col@.form) == 0 ==> (r matches Err(Error::InvalidHDU(m)) && m@
                == "column is not a variable-length array"@),
            descriptor_width(col@.form) > 0 && row >= self@.n_rows ==> (r matches Err(
                Error::InvalidHDU(m),
            ) && m@ == "row index past the end of the table"@),
            descriptor_width(col@.form) > 0 && row < self@.n_rows ==> {
                let w = descriptor_width(col@.form);
                let p = field_pos(self@, col@, data_offset as int, row as int);
                if p + 2 * w > data@.len() {
                    r matches Err(Error::Io(e)) && e.kind == IoErrorKind::UnexpectedEof
                } else {
                    let (count, offset) = descriptor_at(
                        data@,
                        self@,
                        col@,
                        data_offset as int,
                        row as int,
                    );
                    if count < 0 || offset < 0 {
                        r matches Err(Error::InvalidHDU(m)) && m@
                            == "negative variable-length array descriptor"@
                    } else {
                        r matches Ok(d) && d.0 == count && d.1 == offset
                    }
                }
            },
    {
        let w: usize = match col.form {
            TForm::VarArrayP { .. } => 4,
            TForm::VarArrayQ { .. } => 8,
            _ => return Err(
                Error::InvalidHDU(String::from_str("column is not a variable-length array")),
            ),
        };
        if row >= self.n_rows {
            return Err(Error::InvalidHDU(String::from_str("row index past the end of the table")));
        }
        let eof = Error::Io(IoError { kind: IoErrorKind::UnexpectedEof });
        let len = data.len();
        let pos = match row.checked_mul(self.row_len) {
            Some(x) => match x.checked_add(col.byte_offset) {
                Some(y) => match y.checked_add(data_offset) {
                    Some(z) => z,
                    None => return Err(eof),
                },
                None => return Err(eof),
            },
            None => return Err(eof),
        };
        if pos > len as u64 || (len as u64) - pos < 2 * w as u64 {
            return Err(eof);
        }
        let pos = pos as usize;
        let count = signed_at(data, pos, w);
        let offset = signed_at(data, pos + w, w);
        if count < 0 || offset < 0 {
            return Err(
                Error::InvalidHDU(String::from_str("negative variable-length array descriptor")),
            );
        }
        Ok((count as u64, offset as u64))
    }

    /// The bytes of the variable-length array that `descriptor` (element
    /// count, heap offset) points at in column `col`: an `InvalidHDU` error
    /// for a column of fixed width, an `UnexpectedEof` I/O error when `data`
    /// ends before the last of them.
    pub fn read_heap_bytes(&self, data: &[u8], data_offset: u64, descriptor: (u64, u64), col: &ColumnDesc) -> (r:
        Result<Vec<u8>, Error>)
        ensures
            match vla_element(col@.form) {
                None => r matches Err(Error::InvalidHDU(m)) && m@
                    == "column is not a variable-length array"@,
                Some(e) => {
                    let start = data_offset + self@.heap_offset + descriptor.1;
                    let n = descriptor.0 * element_bytes(e);
                    if start + n > data@.len() {
                        r matches Err(Error::Io(io)) && io.kind == IoErrorKind::UnexpectedEof
                    } else {
                        r matches Ok(v) && v@ == data@.subrange(start, start + n)
                    }
                },
            },
    {
        let e = match col.form {
            TForm::VarArrayP { element_type, .. } => element_type,
            TForm::VarArrayQ { element_type, .. } => element_type,
            _ => return Err(
                Error::InvalidHDU(String::from_str("column is not a variable-length array")),
            ),
        };
        let eof = Error::Io(IoError { kind: IoErrorKind::UnexpectedEof });
        let len = data.len() as u64;
        let (count, offset) = descriptor;
        let start = match data_offset.checked_add(self.heap_offset) {
            Some(x) => match x.checked_add(offset) {
                Some(y) => y,
                None => return Err(eof),
            },
            None => return Err(eof),
        };
        let n = match count.checked_mul(e.byte_size()) {
            Some(x) => x,
            None => return Err(eof),
        };
        if start > len || len - start < n {
            return Err(eof);
        }
        let s = vstd::slice::slice_subrange(data, start as usize, (start + n) as usize);
        Ok(vstd::slice::slice_to_vec(s))
    }
}

/// The first column, at or after `i`, named `name`.
pub open spec fn first_column_named(cs: Seq<ColumnModel>, name: Seq<char>, i: int) -> Option<int>
    decreases cs.len() - i,
{
    if !(0 <= i < cs.len()) {
        None
    } else if cs[i].name == Some(name) {
        Some(i)
    } else {
        first_column_named(cs, name, i + 1)
    }
}

} // verus!
