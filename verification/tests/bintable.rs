use fefits::fits::bintable::{TForm, VlaElementType};

#[test]
fn test_vla_element_type_from_char() {
    assert_eq!(
        VlaElementType::from_char('B', "PB(100)").unwrap(),
        VlaElementType::UnsignedByte
    );
    assert_eq!(VlaElementType::from_char('J', "PJ").unwrap(), VlaElementType::Int32);
    assert!(VlaElementType::from_char('Z', "PZ").is_err());
}

#[test]
fn test_tform_parse_no_repeat_defaults_to_one() {
    assert_eq!(TForm::parse("J").unwrap(), TForm::Int32(1));
    assert_eq!(TForm::parse("D").unwrap(), TForm::Float64(1));
}

#[test]
fn test_tform_parse_all_fixed_types() {
    assert_eq!(TForm::parse("1L").unwrap(), TForm::Logical(1));
    assert_eq!(TForm::parse("1X").unwrap(), TForm::Bit(1));
    assert_eq!(TForm::parse("1B").unwrap(), TForm::UnsignedByte(1));
    assert_eq!(TForm::parse("1I").unwrap(), TForm::Int16(1));
    assert_eq!(TForm::parse("1J").unwrap(), TForm::Int32(1));
    assert_eq!(TForm::parse("1K").unwrap(), TForm::Int64(1));
    assert_eq!(TForm::parse("1E").unwrap(), TForm::Float32(1));
    assert_eq!(TForm::parse("1D").unwrap(), TForm::Float64(1));
    assert_eq!(TForm::parse("1C").unwrap(), TForm::Complex32(1));
    assert_eq!(TForm::parse("1M").unwrap(), TForm::Complex64(1));
    assert_eq!(TForm::parse("1A").unwrap(), TForm::Char(1));
}

#[test]
fn test_tform_parse_repeat() {
    assert_eq!(TForm::parse("100E").unwrap(), TForm::Float32(100));
    assert_eq!(TForm::parse("8A").unwrap(), TForm::Char(8));
}

#[test]
fn test_tform_parse_vla_p_with_emax() {
    assert_eq!(
        TForm::parse("PB(1800)").unwrap(),
        TForm::VarArrayP { element_type: VlaElementType::UnsignedByte, emax: 1800 }
    );
}

#[test]
fn test_tform_parse_vla_p_with_explicit_r() {
    assert_eq!(
        TForm::parse("1PB(1800)").unwrap(),
        TForm::VarArrayP { element_type: VlaElementType::UnsignedByte, emax: 1800 }
    );
}

#[test]
fn test_tform_parse_vla_q() {
    assert_eq!(
        TForm::parse("QB(32768)").unwrap(),
        TForm::VarArrayQ { element_type: VlaElementType::UnsignedByte, emax: 32768 }
    );
}

#[test]
fn test_tform_parse_vla_no_emax() {
    assert_eq!(
        TForm::parse("PJ").unwrap(),
        TForm::VarArrayP { element_type: VlaElementType::Int32, emax: 0 }
    );
}

#[test]
fn test_tform_parse_unknown_type_errors() {
    assert!(TForm::parse("1Z").is_err());
}

#[test]
fn test_tform_parse_vla_unknown_element_errors() {
    assert!(TForm::parse("PZ").is_err());
}

#[test]
fn test_tform_row_bytes_fixed() {
    assert_eq!(TForm::Int16(3).row_bytes(), 6);
    assert_eq!(TForm::Int32(1).row_bytes(), 4);
    assert_eq!(TForm::Float64(2).row_bytes(), 16);
    assert_eq!(TForm::Complex32(1).row_bytes(), 8);
    assert_eq!(TForm::Complex64(1).row_bytes(), 16);
    assert_eq!(TForm::Char(20).row_bytes(), 20);
}

#[test]
fn test_tform_row_bytes_bit_packs() {
    assert_eq!(TForm::Bit(1).row_bytes(), 1);
    assert_eq!(TForm::Bit(8).row_bytes(), 1);
    assert_eq!(TForm::Bit(9).row_bytes(), 2);
    assert_eq!(TForm::Bit(16).row_bytes(), 2);
    assert_eq!(TForm::Bit(17).row_bytes(), 3);
}

#[test]
fn test_tform_row_bytes_vla_is_descriptor_size() {
    assert_eq!(
        TForm::VarArrayP { element_type: VlaElementType::UnsignedByte, emax: 99999 }.row_bytes(),
        8
    );
    assert_eq!(
        TForm::VarArrayQ { element_type: VlaElementType::Int32, emax: 99999 }.row_bytes(),
        16
    );
}

// Further cases.

#[test]
fn tform_parse_trims_and_reports() {
    assert_eq!(TForm::parse("  2I  ").unwrap(), TForm::Int16(2));
    assert!(TForm::parse("").is_err());
    assert!(TForm::parse("P").is_err());
    // a repeat count beyond u32 is an error
    assert!(TForm::parse("99999999999J").is_err());
    // an unreadable emax counts as 0
    assert_eq!(
        TForm::parse("PB(abc)").unwrap(),
        TForm::VarArrayP { element_type: VlaElementType::UnsignedByte, emax: 0 }
    );
    assert_eq!(
        TForm::parse("PB(+12").unwrap(),
        TForm::VarArrayP { element_type: VlaElementType::UnsignedByte, emax: 12 }
    );
    assert!(TForm::parse("PJ").unwrap().is_vla());
    assert!(!TForm::parse("J").unwrap().is_vla());
}

#[test]
fn element_sizes() {
    assert_eq!(VlaElementType::Complex64.byte_size(), 16);
    assert_eq!(VlaElementType::Int16.byte_size(), 2);
    let err = VlaElementType::from_char('Z', "PZ").unwrap_err();
    assert!(err.message().contains("unknown VLA element type 'Z' in TFORM 'PZ'"));
}

#[test]
fn tform_unknown_type_message_names_the_code() {
    match TForm::parse(" 2Z ") {
        Err(fefits::error::Error::InvalidHeader(msg)) => {
            assert_eq!(msg, "unknown TFORM type code 'Z' in '2Z'");
        }
        other => panic!("expected InvalidHeader, got {other:?}"),
    }
}

#[test]
fn heap_element_width_times_repeat_is_column_width() {
    for c in ['L', 'B', 'I', 'J', 'K', 'A', 'E', 'D', 'C', 'M'] {
        for r in [0u32, 1, 3, 17, 1000] {
            let e = VlaElementType::from_char(c, "").unwrap();
            let t = TForm::parse(&format!("{r}{c}")).unwrap();
            assert_eq!(e.byte_size() * r as u64, t.row_bytes(), "{r}{c}");
        }
    }
    assert_eq!(TForm::parse("J").unwrap().row_bytes(), 4);
}

#[test]
fn tform_errors_name_the_text() {
    let msg = |s: &str| match TForm::parse(s) {
        Err(fefits::error::Error::InvalidHeader(m)) => m,
        other => panic!("unexpected {other:?}"),
    };
    assert_eq!(msg("  99999999999J "), "invalid repeat count in TFORM '99999999999J'");
    assert_eq!(msg("12"), "empty TFORM '12'");
    assert_eq!(msg("1P"), "missing element type in VLA TFORM '1P'");
    assert_eq!(msg("1PZ(4)"), "unknown VLA element type 'Z' in TFORM '1PZ(4)'");
    assert_eq!(msg("3Y"), "unknown TFORM type code 'Y' in '3Y'");
}
