use fefits::card::{Card, CardValue};
use fefits::error::Error;
use fefits::fits::bintable::{TForm, VlaElementType};
use fefits::fits::table::BinTableLayout;
use fefits::header::Header;

fn int_card(keyword: &str, value: i64) -> Card {
    Card::Value { keyword: keyword.to_string(), value: CardValue::Integer(value), comment: None }
}

fn str_card(keyword: &str, value: &str) -> Card {
    Card::Value {
        keyword: keyword.to_string(),
        value: CardValue::String(value.to_string()),
        comment: None,
    }
}

fn table_header(extra: &[Card]) -> Header {
    let mut h = Header::new();
    h.append(int_card("NAXIS", 2));
    h.append(int_card("NAXIS1", 14));
    h.append(int_card("NAXIS2", 3));
    h.append(int_card("TFIELDS", 3));
    h.append(str_card("TTYPE1", "FLUX"));
    h.append(str_card("TFORM1", "1E"));
    h.append(str_card("TUNIT1", "Jy"));
    h.append(str_card("TFORM2", "2I"));
    h.append(str_card("TTYPE3", "DATA"));
    h.append(str_card("TFORM3", "1PB(10)"));
    for c in extra {
        h.append(c.clone());
    }
    h
}

#[test]
fn layout_columns_and_offsets() {
    let l = BinTableLayout::from_header(&table_header(&[])).unwrap();
    assert_eq!(l.row_len, 14);
    assert_eq!(l.n_rows, 3);
    assert_eq!(l.heap_offset, 42);
    assert_eq!(l.columns.len(), 3);
    assert_eq!(l.columns[0].name.as_deref(), Some("FLUX"));
    assert_eq!(l.columns[0].unit.as_deref(), Some("Jy"));
    assert_eq!(l.columns[0].byte_offset, 0);
    assert_eq!(l.columns[1].name, None);
    assert_eq!(l.columns[1].form, TForm::Int16(2));
    assert_eq!(l.columns[1].byte_offset, 4);
    assert_eq!(l.columns[2].byte_offset, 8);
    assert_eq!(
        l.columns[2].form,
        TForm::VarArrayP { element_type: VlaElementType::UnsignedByte, emax: 10 }
    );
}

#[test]
fn layout_theap_and_errors() {
    let l = BinTableLayout::from_header(&table_header(&[int_card("THEAP", 100)])).unwrap();
    assert_eq!(l.heap_offset, 100);
    assert!(BinTableLayout::from_header(&table_header(&[int_card("THEAP", -1)])).is_err());

    let mut h = Header::new();
    h.append(int_card("NAXIS1", 8));
    h.append(int_card("NAXIS2", 1));
    assert!(matches!(BinTableLayout::from_header(&h), Err(Error::MissingKeyword("TFIELDS"))));
    h.append(int_card("TFIELDS", 1));
    assert!(matches!(BinTableLayout::from_header(&h), Err(Error::InvalidHeader(_))));
}

#[test]
fn column_by_name_finds_first() {
    let l = BinTableLayout::from_header(&table_header(&[])).unwrap();
    assert_eq!(l.column_by_name("DATA").unwrap().byte_offset, 8);
    assert!(l.column_by_name("MISSING").is_none());
}

#[test]
fn descriptor_and_heap_bytes() {
    let l = BinTableLayout::from_header(&table_header(&[])).unwrap();
    let col = l.column_by_name("DATA").unwrap();
    // Three rows of 14 bytes, then the heap.
    let mut data = vec![0u8; 42];
    data[14 + 8..14 + 12].copy_from_slice(&3i32.to_be_bytes());
    data[14 + 12..14 + 16].copy_from_slice(&1i32.to_be_bytes());
    data.extend_from_slice(&[9, 8, 7, 6, 5]);
    assert_eq!(l.read_vla_descriptor(&data, 0, 1, col).unwrap(), (3, 1));
    assert_eq!(l.read_heap_bytes(&data, 0, (3, 1), col).unwrap(), vec![8, 7, 6]);
    assert!(matches!(l.read_heap_bytes(&data, 0, (3, 4), col), Err(Error::Io(_))));
    assert!(matches!(l.read_vla_descriptor(&data, 0, 3, col), Err(Error::InvalidHDU(_))));
    let fixed = &l.columns[0];
    assert!(matches!(l.read_vla_descriptor(&data, 0, 0, fixed), Err(Error::InvalidHDU(_))));
}

#[test]
fn layout_errors_name_what_is_wrong() {
    let mut h = table_header(&[]);
    h.remove("TFORM2");
    match BinTableLayout::from_header(&h) {
        Err(Error::InvalidHeader(m)) => assert_eq!(m, "missing or invalid TFORM2"),
        other => panic!("unexpected {:?}", other.map(|l| l.row_len)),
    }
    let mut h = table_header(&[]);
    h.remove("TFIELDS");
    assert!(matches!(BinTableLayout::from_header(&h), Err(Error::MissingKeyword("TFIELDS"))));
    let mut h = table_header(&[]);
    h.remove("NAXIS2");
    match BinTableLayout::from_header(&h) {
        Err(Error::InvalidHeader(m)) => assert_eq!(m, "missing NAXIS2 keyword"),
        other => panic!("unexpected {:?}", other.map(|l| l.row_len)),
    }
    let h = table_header(&[int_card("THEAP", -1)]);
    match BinTableLayout::from_header(&h) {
        Err(Error::InvalidHeader(m)) => assert_eq!(m, "THEAP must be a non-negative integer"),
        other => panic!("unexpected {:?}", other.map(|l| l.row_len)),
    }
}
