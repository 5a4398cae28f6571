use fefits::card::{Card, CardValue};
use fefits::error::Error;
use fefits::extension::XtensionType;
use fefits::fits::{Fits, HduEntry, HduKind};
use fefits::header::Header;

fn int_card(keyword: &str, value: i64) -> Card {
    Card::Value { keyword: keyword.to_string(), value: CardValue::Integer(value), comment: None }
}

fn bool_card(keyword: &str, value: bool) -> Card {
    Card::Value { keyword: keyword.to_string(), value: CardValue::Logical(value), comment: None }
}

fn str_card(keyword: &str, value: &str) -> Card {
    Card::Value {
        keyword: keyword.to_string(),
        value: CardValue::String(value.to_string()),
        comment: None,
    }
}

fn make_primary_header(bitpix: i64, axes: &[i64]) -> Header {
    let mut h = Header::new();
    h.append(Card::Value {
        keyword: "SIMPLE".into(),
        value: CardValue::Logical(true),
        comment: None,
    });
    h.append(int_card("BITPIX", bitpix));
    h.append(int_card("NAXIS", axes.len() as i64));
    for (i, &n) in axes.iter().enumerate() {
        h.append(int_card(&format!("NAXIS{}", i + 1), n));
    }
    h.append(Card::End);
    h
}

fn make_image_extension(bitpix: i64, axes: &[i64]) -> Header {
    let mut h = Header::new();
    h.append(Card::Xtension { x: XtensionType::Image, comment: None });
    h.append(int_card("BITPIX", bitpix));
    h.append(int_card("NAXIS", axes.len() as i64));
    for (i, &n) in axes.iter().enumerate() {
        h.append(int_card(&format!("NAXIS{}", i + 1), n));
    }
    h.append(int_card("PCOUNT", 0));
    h.append(int_card("GCOUNT", 1));
    h.append(Card::End);
    h
}

fn make_compressed_image_extension(znaxis1: i64, znaxis2: i64) -> Header {
    let mut h = Header::new();
    h.append(Card::Xtension { x: XtensionType::BinaryTable, comment: None });
    h.append(bool_card("ZIMAGE", true));
    h.append(int_card("BITPIX", 8));
    h.append(int_card("NAXIS", 2));
    h.append(int_card("NAXIS1", 8));
    h.append(int_card("NAXIS2", 1));
    h.append(int_card("PCOUNT", 0));
    h.append(int_card("GCOUNT", 1));
    h.append(str_card("ZCMPTYPE", "RICE_1"));
    h.append(int_card("ZNAXIS", 2));
    h.append(int_card("ZNAXIS1", znaxis1));
    h.append(int_card("ZNAXIS2", znaxis2));
    h.append(Card::End);
    h
}

fn write_hdu(header: &Header, data: &[u8]) -> Vec<u8> {
    let mut buf = Vec::new();
    header.write_to_writer(&mut buf).unwrap();
    buf.extend_from_slice(data);
    buf.extend(std::iter::repeat_n(
        0u8,
        if data.is_empty() {
            header.data_len().unwrap() as usize
        } else {
            fefits::io::padding_bytes(data.len() as u64) as usize
        },
    ));
    buf
}

fn extension_with_name(version: Option<i64>) -> Header {
    let mut ext = Header::new();
    ext.append(Card::Xtension { x: XtensionType::Image, comment: None });
    ext.append(int_card("BITPIX", 8));
    ext.append(int_card("NAXIS", 0));
    ext.append(int_card("PCOUNT", 0));
    ext.append(int_card("GCOUNT", 1));
    ext.append(str_card("EXTNAME", "SCI"));
    if let Some(v) = version {
        ext.append(int_card("EXTVER", v));
    }
    ext.append(Card::End);
    ext
}

#[test]
fn fits_test_primary_no_data() {
    let buf = write_hdu(&make_primary_header(8, &[]), &[]);
    let fits = Fits::from_reader(buf).unwrap();

    assert_eq!(fits.len(), 1);
    let entry = fits.hdu(0).unwrap();
    assert_eq!(entry.kind, HduKind::Primary);
    assert_eq!(entry.header_offset, 0);
    assert_eq!(entry.index, 0);
    assert_eq!(entry.data_offset, 2880);
    assert_eq!(entry.data_len, 0);
    assert_eq!(entry.name, None);
    assert_eq!(entry.version, None);
}

#[test]
fn fits_test_empty_file_is_error() {
    assert!(Fits::from_reader(vec![]).is_err());
}

#[test]
fn fits_test_two_hdus() {
    let mut buf = write_hdu(&make_primary_header(8, &[100]), &[]);
    buf.extend(write_hdu(&make_image_extension(8, &[]), &[]));

    let fits = Fits::from_reader(buf).unwrap();

    assert_eq!(fits.len(), 2);
    assert_eq!(fits.hdu(0).unwrap().kind, HduKind::Primary);
    assert_eq!(fits.hdu(0).unwrap().data_len, 2880);
    assert_eq!(fits.hdu(0).unwrap().index, 0);
    assert_eq!(fits.hdu(1).unwrap().kind, HduKind::Image);
    assert_eq!(fits.hdu(1).unwrap().header_offset, 2 * 2880);
    assert_eq!(fits.hdu(1).unwrap().index, 1);
}

#[test]
fn fits_test_2d_primary_with_extension() {
    let mut buf = write_hdu(&make_primary_header(8, &[100, 50]), &[]);
    buf.extend(write_hdu(&make_image_extension(8, &[]), &[]));

    let fits = Fits::from_reader(buf).unwrap();

    assert_eq!(fits.len(), 2);
    assert_eq!(fits.hdu(1).unwrap().header_offset, 3 * 2880);
}

#[test]
fn fits_test_extname_extver() {
    let ext = extension_with_name(Some(2));
    let mut buf = write_hdu(&make_primary_header(8, &[]), &[]);
    buf.extend(write_hdu(&ext, &[]));

    let fits = Fits::from_reader(buf).unwrap();

    assert_eq!(fits.hdu(1).unwrap().name, Some("SCI".into()));
    assert_eq!(fits.hdu(1).unwrap().version, Some(2));
    assert_eq!(fits.hdu_by_name("SCI", Some(2)).unwrap().index, 1);
    assert!(fits.hdu_by_name("SCI", Some(1)).is_none());
}

#[test]
fn fits_test_hdu_by_name_version_default() {
    let ext = extension_with_name(None);
    let mut buf = write_hdu(&make_primary_header(8, &[]), &[]);
    buf.extend(write_hdu(&ext, &[]));

    let fits = Fits::from_reader(buf).unwrap();
    assert!(fits.hdu_by_name("SCI", None).is_some());
    assert!(fits.hdu_by_name("SCI", Some(1)).is_some());
    assert!(fits.hdu_by_name("SCI", Some(2)).is_none());
}

#[test]
fn fits_test_iter_hdus() {
    let mut buf = write_hdu(&make_primary_header(8, &[]), &[]);
    buf.extend(write_hdu(&make_image_extension(8, &[]), &[]));

    let fits = Fits::from_reader(buf).unwrap();
    let kinds: Vec<&HduKind> = fits.iter_hdus().iter().map(|e| &e.kind).collect();
    assert_eq!(kinds, vec![&HduKind::Primary, &HduKind::Image]);
}

#[test]
fn fits_test_read_header() {
    let buf = write_hdu(&make_primary_header(8, &[100, 50]), &[]);
    let fits = Fits::from_reader(buf).unwrap();
    let header = fits.read_header(0).unwrap();
    assert_eq!(header.naxis().unwrap(), 2);
}

#[test]
fn fits_test_read_header_not_found() {
    let buf = write_hdu(&make_primary_header(8, &[100, 50]), &[]);
    let fits = Fits::from_reader(buf).unwrap();
    let result = fits.read_header(99);
    assert!(result.is_err());
    assert!(matches!(result.unwrap_err(), Error::HduNotFound(99)));
}

#[test]
fn fits_test_read_header_by_name() {
    let buf = write_hdu(&make_primary_header(8, &[100, 50]), &[]);
    let fits = Fits::from_reader(buf).unwrap();
    let hdu = fits.hdu_by_name("PRIMARY", None).unwrap();
    let header = fits.read_header(hdu.index).unwrap();
    assert_eq!(header.naxis().unwrap(), 2);
}

#[test]
fn mod_test_primary_no_data() {
    let buf = write_hdu(&make_primary_header(8, &[]), &[]);
    let fits = Fits::from_reader(buf).unwrap();

    assert_eq!(fits.len(), 1);
    let entry = fits.hdu(0).unwrap();
    assert_eq!(entry.kind, HduKind::Primary);
    assert_eq!(entry.header_offset, 0);
    assert_eq!(entry.index, 0);
    assert_eq!(entry.data_offset, 2880);
    assert_eq!(entry.data_len, 0);
    assert_eq!(entry.name, None);
    assert_eq!(entry.version, None);
}

#[test]
fn mod_test_empty_file_is_error() {
    assert!(Fits::from_reader(vec![]).is_err());
}

#[test]
fn mod_test_two_hdus() {
    let mut buf = write_hdu(&make_primary_header(8, &[100]), &[]);
    buf.extend(write_hdu(&make_image_extension(8, &[]), &[]));

    let fits = Fits::from_reader(buf).unwrap();

    assert_eq!(fits.len(), 2);
    assert_eq!(fits.hdu(0).unwrap().kind, HduKind::Primary);
    assert_eq!(fits.hdu(0).unwrap().data_len, 2880);
    assert_eq!(fits.hdu(0).unwrap().index, 0);
    assert_eq!(fits.hdu(1).unwrap().kind, HduKind::Image);
    assert_eq!(fits.hdu(1).unwrap().header_offset, 2 * 2880);
    assert_eq!(fits.hdu(1).unwrap().index, 1);
}

#[test]
fn mod_test_2d_primary_with_extension() {
    let mut buf = write_hdu(&make_primary_header(8, &[100, 50]), &[]);
    buf.extend(write_hdu(&make_image_extension(8, &[]), &[]));

    let fits = Fits::from_reader(buf).unwrap();

    assert_eq!(fits.len(), 2);
    assert_eq!(fits.hdu(1).unwrap().header_offset, 3 * 2880);
}

#[test]
fn mod_test_extname_extver() {
    let ext = extension_with_name(Some(2));
    let mut buf = write_hdu(&make_primary_header(8, &[]), &[]);
    buf.extend(write_hdu(&ext, &[]));

    let fits = Fits::from_reader(buf).unwrap();

    assert_eq!(fits.hdu(1).unwrap().name, Some("SCI".into()));
    assert_eq!(fits.hdu(1).unwrap().version, Some(2));
    assert_eq!(fits.hdu_by_name("SCI", Some(2)).unwrap().index, 1);
    assert!(fits.hdu_by_name("SCI", Some(1)).is_none());
}

#[test]
fn mod_test_hdu_by_name_version_default() {
    let ext = extension_with_name(None);
    let mut buf = write_hdu(&make_primary_header(8, &[]), &[]);
    buf.extend(write_hdu(&ext, &[]));

    let fits = Fits::from_reader(buf).unwrap();
    assert!(fits.hdu_by_name("SCI", None).is_some());
    assert!(fits.hdu_by_name("SCI", Some(1)).is_some());
    assert!(fits.hdu_by_name("SCI", Some(2)).is_none());
}

#[test]
fn mod_test_iter_hdus() {
    let mut buf = write_hdu(&make_primary_header(8, &[]), &[]);
    buf.extend(write_hdu(&make_image_extension(8, &[]), &[]));

    let fits = Fits::from_reader(buf).unwrap();
    let kinds: Vec<&HduKind> = fits.iter_hdus().iter().map(|e| &e.kind).collect();
    assert_eq!(kinds, vec![&HduKind::Primary, &HduKind::Image]);
}

#[test]
fn mod_test_read_header() {
    let buf = write_hdu(&make_primary_header(8, &[100, 50]), &[]);
    let fits = Fits::from_reader(buf).unwrap();
    let header = fits.read_header(0).unwrap();
    assert_eq!(header.naxis().unwrap(), 2);
}

#[test]
fn mod_test_read_header_not_found() {
    let buf = write_hdu(&make_primary_header(8, &[100, 50]), &[]);
    let fits = Fits::from_reader(buf).unwrap();
    let result = fits.read_header(99);
    assert!(result.is_err());
    assert!(matches!(result.unwrap_err(), Error::HduNotFound(99)));
}

#[test]
fn mod_test_read_header_by_name() {
    let buf = write_hdu(&make_primary_header(8, &[100, 50]), &[]);
    let fits = Fits::from_reader(buf).unwrap();
    let hdu = fits.hdu_by_name("PRIMARY", None).unwrap();
    let header = fits.read_header(hdu.index).unwrap();
    assert_eq!(header.naxis().unwrap(), 2);
}

#[test]
fn test_is_image() {
    let entry = |kind| HduEntry {
        index: 0,
        header_offset: 0,
        data_offset: 0,
        data_len: 0,
        kind,
        name: None,
        version: None,
    };
    assert!(entry(HduKind::Primary).is_image());
    assert!(entry(HduKind::Image).is_image());
    assert!(entry(HduKind::CompressedImage).is_image());
    assert!(!entry(HduKind::BinaryTable).is_image());
    assert!(!entry(HduKind::AsciiTable).is_image());
}

#[test]
fn test_scan_detects_compressed_image() {
    let mut buf = write_hdu(&make_primary_header(8, &[]), &[]);
    buf.extend(write_hdu(&make_compressed_image_extension(100, 50), &[]));
    let fits = Fits::from_reader(buf).unwrap();
    assert_eq!(fits.hdu(1).unwrap().kind, HduKind::CompressedImage);
}

#[test]
fn test_scan_plain_bintable_not_compressed() {
    let mut h = Header::new();
    h.append(Card::Xtension { x: XtensionType::BinaryTable, comment: None });
    h.append(int_card("BITPIX", 8));
    h.append(int_card("NAXIS", 2));
    h.append(int_card("NAXIS1", 8));
    h.append(int_card("NAXIS2", 1));
    h.append(int_card("PCOUNT", 0));
    h.append(int_card("GCOUNT", 1));
    h.append(Card::End);

    let mut buf = write_hdu(&make_primary_header(8, &[]), &[]);
    buf.extend(write_hdu(&h, &[]));
    let fits = Fits::from_reader(buf).unwrap();
    assert_eq!(fits.hdu(1).unwrap().kind, HduKind::BinaryTable);
}

#[test]
fn test_find_image_compressed() {
    let mut buf = write_hdu(&make_primary_header(8, &[]), &[]);
    buf.extend(write_hdu(&make_compressed_image_extension(100, 50), &[]));
    let fits = Fits::from_reader(buf).unwrap();
    assert_eq!(fits.find_image().unwrap(), Some(1));
}

#[test]
fn test_find_image_skips_compressed_with_zero_dimension() {
    let mut buf = write_hdu(&make_primary_header(8, &[]), &[]);
    buf.extend(write_hdu(&make_compressed_image_extension(0, 50), &[]));
    let fits = Fits::from_reader(buf).unwrap();
    assert_eq!(fits.find_image().unwrap(), None);
}

#[test]
fn test_find_image_primary_2d() {
    let buf = write_hdu(&make_primary_header(16, &[100, 50]), &[]);
    let fits = Fits::from_reader(buf).unwrap();
    assert_eq!(fits.find_image().unwrap(), Some(0));
}

#[test]
fn test_find_image_skips_empty_primary() {
    let mut buf = write_hdu(&make_primary_header(8, &[]), &[]);
    buf.extend(write_hdu(&make_image_extension(16, &[100, 50]), &[]));
    let fits = Fits::from_reader(buf).unwrap();
    assert_eq!(fits.find_image().unwrap(), Some(1));
}

#[test]
fn test_find_image_skips_1d() {
    let buf = write_hdu(&make_primary_header(16, &[100]), &[]);
    let fits = Fits::from_reader(buf).unwrap();
    assert_eq!(fits.find_image().unwrap(), None);
}

#[test]
fn test_find_image_skips_zero_dimension() {
    let buf = write_hdu(&make_primary_header(16, &[0, 50]), &[]);
    let fits = Fits::from_reader(buf).unwrap();
    assert_eq!(fits.find_image().unwrap(), None);
}

// Further cases.

#[test]
fn primary_name_ignores_case() {
    let buf = write_hdu(&make_primary_header(8, &[]), &[]);
    let fits = Fits::from_reader(buf).unwrap();
    assert_eq!(fits.hdu_by_name("primary", None).unwrap().index, 0);
    assert_eq!(fits.hdu_by_name("PrImArY", Some(5)).unwrap().index, 0);
    assert!(fits.hdu_by_name("PRIMAR", None).is_none());
    assert!(!fits.is_empty());
}

#[test]
fn truncated_extension_header_is_error() {
    let mut buf = write_hdu(&make_primary_header(8, &[]), &[]);
    let ext = write_hdu(&make_image_extension(8, &[]), &[]);
    // a whole block of the extension header, without its END card
    let mut partial = ext[..2880].to_vec();
    for b in partial.iter_mut().skip(5 * 80) {
        *b = b' ';
    }
    buf.extend(partial);
    buf.extend(vec![b' '; 2880]);
    assert!(Fits::from_reader(buf).is_err());
}

#[test]
fn fits_test_read_image_as_u8() {
    let header = make_primary_header(8, &[3]);
    let buf = write_hdu(&header, &[1u8, 2, 3]);
    let fits = Fits::from_reader(buf).unwrap();
    assert_eq!(fits.read_image_as::<u8>(0).unwrap(), vec![1u8, 2, 3]);
}

#[test]
fn fits_test_read_image_as_i16_byte_swap() {
    let header = make_primary_header(16, &[2]);
    // 1i16 big-endian = 0x00, 0x01, -1i16 big-endian = 0xFF, 0xFF
    let buf = write_hdu(&header, &[0x00u8, 0x01, 0xFF, 0xFF]);
    let fits = Fits::from_reader(buf).unwrap();
    assert_eq!(fits.read_image_as::<i16>(0).unwrap(), vec![1i16, -1i16]);
}

#[test]
fn fits_test_read_image_as_wrong_type() {
    let header = make_primary_header(16, &[2]);
    let buf = write_hdu(&header, &[0u8; 4]);
    let fits = Fits::from_reader(buf).unwrap();
    assert!(matches!(fits.read_image_as::<u8>(0).unwrap_err(), Error::TypeMismatch(_)));
}

#[test]
fn fits_test_read_image_as_no_data() {
    let buf = write_hdu(&make_primary_header(8, &[]), &[]);
    let fits = Fits::from_reader(buf).unwrap();
    assert!(fits.read_image_as::<u8>(0).unwrap().is_empty());
}

#[test]
fn mod_test_read_image_as_u8() {
    let header = make_primary_header(8, &[3]);
    let buf = write_hdu(&header, &[1u8, 2, 3]);
    let fits = Fits::from_reader(buf).unwrap();
    assert_eq!(fits.read_image_as::<u8>(0).unwrap(), vec![1u8, 2, 3]);
}

#[test]
fn mod_test_read_image_as_i16_byte_swap() {
    let header = make_primary_header(16, &[2]);
    let expected: Vec<i16> = [1i16, -1i16].to_vec();
    let data: Vec<u8> = expected.iter().flat_map(|v| v.to_be_bytes()).collect();
    let buf = write_hdu(&header, &data);
    let fits = Fits::from_reader(buf).unwrap();
    assert_eq!(fits.read_image_as::<i16>(0).unwrap(), expected);
}

#[test]
fn mod_test_read_image_as_wrong_type() {
    let header = make_primary_header(16, &[2]);
    let buf = write_hdu(&header, &[0u8; 4]);
    let fits = Fits::from_reader(buf).unwrap();
    assert!(matches!(fits.read_image_as::<u8>(0).unwrap_err(), Error::TypeMismatch(_)));
}

#[test]
fn mod_test_read_image_as_no_data() {
    let buf = write_hdu(&make_primary_header(8, &[]), &[]);
    let fits = Fits::from_reader(buf).unwrap();
    assert!(fits.read_image_as::<u8>(0).unwrap().is_empty());
}

#[test]
fn read_image_as_i32_and_i64() {
    let header = make_primary_header(32, &[2]);
    let mut data: Vec<u8> = Vec::new();
    data.extend_from_slice(&(-2i32).to_be_bytes());
    data.extend_from_slice(&0x0102_0304i32.to_be_bytes());
    let fits = Fits::from_reader(write_hdu(&header, &data)).unwrap();
    assert_eq!(fits.read_image_as::<i32>(0).unwrap(), vec![-2, 0x0102_0304]);

    let header = make_primary_header(64, &[1]);
    let fits = Fits::from_reader(write_hdu(&header, &i64::MIN.to_be_bytes())).unwrap();
    assert_eq!(fits.read_image_as::<i64>(0).unwrap(), vec![i64::MIN]);
}

#[test]
fn read_image_as_two_axes_reads_every_pixel() {
    let header = make_primary_header(16, &[2, 3]);
    let values: Vec<i16> = vec![0, 1, -1, 300, i16::MIN, i16::MAX];
    let data: Vec<u8> = values.iter().flat_map(|v| v.to_be_bytes()).collect();
    let fits = Fits::from_reader(write_hdu(&header, &data)).unwrap();
    assert_eq!(fits.read_image_as::<i16>(0).unwrap(), values);
}

#[test]
fn read_image_as_errors() {
    let buf = write_hdu(&make_primary_header(8, &[3]), &[1u8, 2, 3]);
    let fits = Fits::from_reader(buf).unwrap();
    assert!(matches!(fits.read_image_as::<u8>(5).unwrap_err(), Error::HduNotFound(5)));

    let mut buf = write_hdu(&make_primary_header(8, &[]), &[]);
    buf.extend(write_hdu(&make_compressed_image_extension(100, 50), &[]));
    let fits = Fits::from_reader(buf).unwrap();
    assert!(matches!(fits.read_image_as::<u8>(1).unwrap_err(), Error::UnsupportedFeature(_)));
}

#[test]
fn read_image_as_short_file_is_eof() {
    // A header that claims more pixels than the file holds.
    let mut buf = Vec::new();
    make_primary_header(8, &[3000]).write_to_writer(&mut buf).unwrap();
    buf.extend(std::iter::repeat_n(0u8, 2880));
    let fits = Fits::from_reader(buf).unwrap();
    match fits.read_image_as::<u8>(0).unwrap_err() {
        Error::Io(e) => assert_eq!(e.kind(), fefits::error::IoErrorKind::UnexpectedEof),
        other => panic!("expected an I/O error, got {other:?}"),
    }
}

#[test]
fn hdu_kind_from_xtension_type() {
    assert_eq!(HduKind::from(XtensionType::Image), HduKind::Image);
    assert_eq!(HduKind::from(XtensionType::BinaryTable), HduKind::BinaryTable);
    assert_eq!(HduKind::from(XtensionType::AsciiTable), HduKind::AsciiTable);
}

fn make_rice_bintable_header(
    znaxis1: i64,
    znaxis2: i64,
    zbitpix: i64,
    byte_pix: i64,
    heap_bytes: i64,
    extra: impl FnOnce(&mut Header),
) -> Header {
    let mut h = Header::new();
    h.append(Card::Xtension { x: XtensionType::BinaryTable, comment: None });
    h.append(int_card("BITPIX", 8));
    h.append(int_card("NAXIS", 2));
    h.append(int_card("NAXIS1", 8)); // P descriptor = 8 bytes/row
    h.append(int_card("NAXIS2", znaxis1 * znaxis2 / znaxis1)); // one tile per row
    h.append(int_card("PCOUNT", heap_bytes));
    h.append(int_card("GCOUNT", 1));
    h.append(int_card("TFIELDS", 1));
    h.append(str_card("TTYPE1", "COMPRESSED_DATA"));
    h.append(str_card("TFORM1", &format!("1PB({heap_bytes})")));
    h.append(bool_card("ZIMAGE", true));
    h.append(str_card("ZCMPTYPE", "RICE_1"));
    h.append(int_card("ZNAXIS", 2));
    h.append(int_card("ZNAXIS1", znaxis1));
    h.append(int_card("ZNAXIS2", znaxis2));
    h.append(int_card("ZBITPIX", zbitpix));
    h.append(int_card("ZVAL1", 4)); // block_size=4
    h.append(int_card("ZVAL2", byte_pix));
    extra(&mut h);
    h.append(Card::End);
    h
}

fn p_descriptor(count: i32, offset: i32) -> [u8; 8] {
    let mut buf = [0u8; 8];
    buf[0..4].copy_from_slice(&count.to_be_bytes());
    buf[4..8].copy_from_slice(&offset.to_be_bytes());
    buf
}

#[test]
fn test_read_compressed_image_i32() {
    // 4x1 Rice-compressed image, pixels [100, 101, 102, 103].
    let compressed = [0x00u8, 0x00, 0x00, 0x64, 0x0C, 0x92];
    let h = make_rice_bintable_header(4, 1, 32, 4, 6, |_| {});
    let mut data = p_descriptor(6, 0).to_vec();
    data.extend_from_slice(&compressed);

    let mut buf = write_hdu(&make_primary_header(8, &[]), &[]);
    buf.extend(write_hdu(&h, &data));
    let fits = Fits::from_reader(buf).unwrap();

    assert_eq!(fits.read_compressed_pixels(1).unwrap(), vec![100, 101, 102, 103]);
}

#[test]
fn test_read_compressed_image_u16_bzero() {
    // 2x1 Rice-compressed image, original pixels [42, 42] stored as i16.
    // With BZERO=32768 the physical type is u16.
    let compressed = [0x00u8, 0x2A, 0x00];
    let h = make_rice_bintable_header(2, 1, 16, 2, 3, |h| {
        h.append(Card::Value {
            keyword: "BZERO".into(),
            value: CardValue::Float("32768.0".into()),
            comment: None,
        });
    });
    let mut data = p_descriptor(3, 0).to_vec();
    data.extend_from_slice(&compressed);

    let mut buf = write_hdu(&make_primary_header(8, &[]), &[]);
    buf.extend(write_hdu(&h, &data));
    let fits = Fits::from_reader(buf).unwrap();

    let stored = fits.read_compressed_pixels(1).unwrap();
    let stored16: Vec<i16> = stored.iter().map(|&v| v as i16).collect();
    // 42 stored as i16 + BZERO=32768: physical = 32810
    assert_eq!(fefits::pixel::unsigned_from_offset_i16(&stored16), vec![32810u16, 32810]);
}

#[test]
fn test_read_image_compressed_invalid_layout_errors() {
    // The mock header has no TFIELDS, so the table layout cannot be read.
    let mut buf = write_hdu(&make_primary_header(8, &[]), &[]);
    buf.extend(write_hdu(&make_compressed_image_extension(100, 50), &[]));
    let fits = Fits::from_reader(buf).unwrap();
    assert!(fits.read_compressed_pixels(1).is_err());
}

#[test]
fn read_compressed_pixels_two_tiles() {
    // Two rows of one tile each: [100..=103] then [42, 42, 42, 42] (low entropy).
    let t0 = [0x00u8, 0x00, 0x00, 0x64, 0x0C, 0x92];
    let t1 = [0x00u8, 0x00, 0x00, 0x2A, 0x00];
    let mut h = Header::new();
    h.append(Card::Xtension { x: XtensionType::BinaryTable, comment: None });
    h.append(int_card("BITPIX", 8));
    h.append(int_card("NAXIS", 2));
    h.append(int_card("NAXIS1", 8));
    h.append(int_card("NAXIS2", 2));
    h.append(int_card("PCOUNT", 11));
    h.append(int_card("GCOUNT", 1));
    h.append(int_card("TFIELDS", 1));
    h.append(str_card("TTYPE1", "COMPRESSED_DATA"));
    h.append(str_card("TFORM1", "1PB(6)"));
    h.append(bool_card("ZIMAGE", true));
    h.append(str_card("ZCMPTYPE", "RICE_1"));
    h.append(int_card("ZNAXIS", 2));
    h.append(int_card("ZNAXIS1", 4));
    h.append(int_card("ZNAXIS2", 2));
    h.append(int_card("ZBITPIX", 32));
    h.append(int_card("ZVAL1", 4));
    h.append(int_card("ZVAL2", 4));
    h.append(Card::End);
    let mut data = p_descriptor(6, 0).to_vec();
    data.extend_from_slice(&p_descriptor(5, 6));
    data.extend_from_slice(&t0);
    data.extend_from_slice(&t1);
    let mut buf = write_hdu(&make_primary_header(8, &[]), &[]);
    buf.extend(write_hdu(&h, &data));
    let fits = Fits::from_reader(buf).unwrap();
    assert_eq!(fits.read_compressed_pixels(1).unwrap(), vec![100, 101, 102, 103, 42, 42, 42, 42]);
}

#[test]
fn read_compressed_pixels_errors() {
    // Not a compressed image.
    let buf = write_hdu(&make_primary_header(8, &[2]), &[1, 2]);
    let fits = Fits::from_reader(buf).unwrap();
    assert!(matches!(fits.read_compressed_pixels(0).unwrap_err(), Error::InvalidHDU(_)));
    assert!(matches!(fits.read_compressed_pixels(3).unwrap_err(), Error::HduNotFound(3)));

    // A descriptor that points past the end of the file.
    let h = make_rice_bintable_header(4, 1, 32, 4, 6, |_| {});
    let mut data = p_descriptor(6, 100_000).to_vec();
    data.extend_from_slice(&[0u8; 6]);
    let mut buf = write_hdu(&make_primary_header(8, &[]), &[]);
    buf.extend(write_hdu(&h, &data));
    let fits = Fits::from_reader(buf).unwrap();
    assert!(matches!(fits.read_compressed_pixels(1).unwrap_err(), Error::Io(_)));

    // GZIP is recognised but not decoded.
    let h = make_rice_bintable_header(4, 1, 32, 4, 6, |_| {});
    let mut h2 = Header::new();
    for c in h.cards() {
        if c.keyword() == "ZCMPTYPE" {
            h2.append(str_card("ZCMPTYPE", "GZIP_1"));
        } else {
            h2.append(c.clone());
        }
    }
    let mut data = p_descriptor(6, 0).to_vec();
    data.extend_from_slice(&[0u8; 6]);
    let mut buf = write_hdu(&make_primary_header(8, &[]), &[]);
    buf.extend(write_hdu(&h2, &data));
    let fits = Fits::from_reader(buf).unwrap();
    assert!(matches!(fits.read_compressed_pixels(1).unwrap_err(), Error::UnsupportedFeature(_)));
}

#[test]
fn read_image_bytes_gives_raw_pixels() {
    let header = make_primary_header(-32, &[2]);
    let mut data = Vec::new();
    data.extend_from_slice(&1.5f32.to_be_bytes());
    data.extend_from_slice(&(-2.0f32).to_be_bytes());
    let fits = Fits::from_reader(write_hdu(&header, &data)).unwrap();
    assert_eq!(fits.read_image_bytes(0, fefits::Bitpix::Float).unwrap(), &data[..]);
    assert!(matches!(
        fits.read_image_bytes(0, fefits::Bitpix::Double).unwrap_err(),
        Error::TypeMismatch(_)
    ));
}

#[test]
fn hdu_index_is_a_chain() {
    let mut buf = write_hdu(&make_primary_header(8, &[100]), &[7u8; 100]);
    buf.extend(write_hdu(&make_image_extension(16, &[3000]), &[0u8; 6000]));
    buf.extend(write_hdu(&make_image_extension(8, &[]), &[]));
    let fits = Fits::from_reader(buf).unwrap();
    assert_eq!(fits.len(), 3);
    let first = fits.hdu(0).unwrap();
    assert_eq!(first.kind, HduKind::Primary);
    assert_eq!(first.header_offset, 0);
    for i in 0..fits.len() {
        let e = fits.hdu(i).unwrap();
        assert_eq!(e.index, i);
        assert!(e.data_offset - e.header_offset >= 2880);
        assert_eq!((e.data_offset - e.header_offset) % 2880, 0);
        if i > 0 {
            let before = fits.hdu(i - 1).unwrap();
            assert_ne!(e.kind, HduKind::Primary);
            assert_eq!(e.header_offset, before.data_offset + before.data_len);
        }
    }
    assert_eq!(fits.hdu(1).unwrap().header_offset, 2 * 2880);
    assert_eq!(fits.hdu(2).unwrap().header_offset, 6 * 2880);
}

#[test]
fn read_compressed_pixels_tile_errors() {
    // A descriptor that points past the end of the data: the data ends first.
    let h = make_rice_bintable_header(4, 1, 32, 4, 6, |_| {});
    let mut data = p_descriptor(6, 100_000).to_vec();
    data.extend_from_slice(&[0u8; 6]);
    let mut buf = write_hdu(&make_primary_header(8, &[]), &[]);
    buf.extend(write_hdu(&h, &data));
    let fits = Fits::from_reader(buf).unwrap();
    match fits.read_compressed_pixels(1).unwrap_err() {
        Error::Io(e) => assert_eq!(e.kind(), fefits::error::IoErrorKind::UnexpectedEof),
        other => panic!("unexpected {other:?}"),
    }

    // A negative element count.
    let h = make_rice_bintable_header(4, 1, 32, 4, 6, |_| {});
    let mut data = p_descriptor(-6, 0).to_vec();
    data.extend_from_slice(&[0u8; 6]);
    let mut buf = write_hdu(&make_primary_header(8, &[]), &[]);
    buf.extend(write_hdu(&h, &data));
    let fits = Fits::from_reader(buf).unwrap();
    assert!(matches!(fits.read_compressed_pixels(1).unwrap_err(), Error::InvalidHDU(_)));

    // Bytes that are too few for the pixels they should decode to.
    let h = make_rice_bintable_header(4, 1, 32, 4, 2, |_| {});
    let mut data = p_descriptor(2, 0).to_vec();
    data.extend_from_slice(&[0u8; 2]);
    let mut buf = write_hdu(&make_primary_header(8, &[]), &[]);
    buf.extend(write_hdu(&h, &data));
    let fits = Fits::from_reader(buf).unwrap();
    assert!(matches!(fits.read_compressed_pixels(1).unwrap_err(), Error::InvalidHDU(_)));
}

#[test]
fn data_len_errors_name_what_is_wrong() {
    let mut h = make_primary_header(16, &[10, 20]);
    h.remove("NAXIS2");
    match h.data_len() {
        Err(Error::InvalidHeader(m)) => assert_eq!(m, "missing NAXIS2 keyword"),
        other => panic!("unexpected {other:?}"),
    }
    let mut h = make_primary_header(16, &[10]);
    h.set(int_card("PCOUNT", -3));
    match h.data_len() {
        Err(Error::InvalidHeader(m)) => assert_eq!(m, "PCOUNT must be a non-negative integer"),
        other => panic!("unexpected {other:?}"),
    }
    let mut h = make_primary_header(16, &[10]);
    h.remove("BITPIX");
    assert!(matches!(h.data_len(), Err(Error::MissingKeyword("BITPIX"))));
    let mut h = make_primary_header(16, &[10]);
    h.set(int_card("NAXIS", 1000));
    assert!(matches!(h.data_len(), Err(Error::InvalidKeywordValue { keyword: "NAXIS", .. })));
    let h = make_primary_header(64, &[1 << 40, 1 << 30]);
    match h.data_len() {
        Err(Error::InvalidHeader(m)) => assert_eq!(m, "data size does not fit in 64 bits"),
        other => panic!("unexpected {other:?}"),
    }
}

#[test]
fn from_reader_errors_name_what_is_wrong() {
    // The second HDU has no XTENSION card.
    let mut buf = write_hdu(&make_primary_header(8, &[]), &[]);
    buf.extend(write_hdu(&make_primary_header(8, &[]), &[]));
    match Fits::from_reader(buf) {
        Err(Error::MissingKeyword(k)) => assert_eq!(k, "XTENSION"),
        Err(other) => panic!("unexpected {other:?}"),
        Ok(_) => panic!("unexpected success"),
    }
    // The first header has no END card.
    let h = make_primary_header(8, &[]);
    let mut buf = Vec::new();
    for c in h.cards() {
        if !matches!(c, Card::End) {
            buf.extend_from_slice(&c.encode().unwrap());
        }
    }
    buf.resize(2880, b' ');
    match Fits::from_reader(buf) {
        Err(Error::InvalidHeader(m)) => assert_eq!(m, "missing END card before EOF"),
        Err(other) => panic!("unexpected {other:?}"),
        Ok(_) => panic!("unexpected success"),
    }
}

#[test]
fn type_mismatch_names_both_types() {
    let buf = write_hdu(&make_primary_header(16, &[2]), &[0, 1, 0, 2]);
    let fits = Fits::from_reader(buf).unwrap();
    match fits.read_image_as::<u8>(0).unwrap_err() {
        Error::TypeMismatch(m) => {
            assert_eq!(m, "header has SignedShort, caller requested UnsignedByte")
        }
        other => panic!("unexpected {other:?}"),
    }
}
