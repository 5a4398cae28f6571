use fefits::card::{Card, CardValue, RawCard};
use fefits::extension::XtensionType;

fn right_pad(s: &str) -> [u8; 80] {
    let mut bytes = [b' '; 80];
    let s_bytes = s.as_bytes();
    bytes[..s_bytes.len().min(80)].copy_from_slice(s_bytes);
    bytes
}

fn parse(s: &str) -> Card {
    Card::try_from(RawCard::try_from(&right_pad(s)).unwrap()).unwrap()
}

fn float_of(text: &str) -> f64 {
    text.parse::<f64>().unwrap()
}

fn assert_float_card(card: Card, keyword: &str, expected: f64, comment: Option<&str>) {
    match card {
        Card::Value { keyword: k, value: CardValue::Float(t), comment: c } => {
            assert_eq!(k, keyword);
            assert_eq!(float_of(&t), expected);
            assert_eq!(c, comment.map(|s| s.to_string()));
        }
        other => panic!("expected a real value, got {other:?}"),
    }
}

#[test]
fn test_rawcard_constructor() {
    // Good case
    let valid = right_pad("SIMPLE  =                    T / FITS STANDARD");
    assert!(RawCard::try_from(&valid).is_ok());

    // Non-printbale ascii
    let invalid = right_pad("SIMPLE  =                   T / FITS STANDARD\x7F");
    assert!(RawCard::try_from(&invalid).is_err());

    // Newline
    let invalid = right_pad("SIMPLE  =    \n               T / FITS STANDARD");
    assert!(RawCard::try_from(&invalid).is_err());
}

#[test]
fn test_rawcard_contructor_tab() {
    let invalid = right_pad("SIMPLE  =    \t               T / FITS STANDARD");
    assert!(RawCard::try_from(&invalid).is_err());
}

#[test]
fn test_mangled_keyword() {
    let invalid = right_pad("SHORT=                  foo / bar");
    let card = RawCard::try_from(&invalid).unwrap();
    let err = Card::try_from(card).unwrap_err();
    assert!(err.message().contains("invalid keyword characters"));
}

#[test]
fn test_unrecognized_keyword_no_value_indicator() {
    let header = "FOOBAR  unrecognized keyword without value indicator";
    let card = RawCard::try_from(&right_pad(header)).unwrap();
    let result = Card::try_from(card);
    assert!(result.is_err());
    assert!(result.unwrap_err().message().contains("unrecognized keyword"));
}

#[test]
fn test_logical_true() {
    let card = parse("SIMPLE  =                    T / FITS STANDARD");
    assert_eq!(
        card,
        Card::Value {
            keyword: "SIMPLE".to_string(),
            value: CardValue::Logical(true),
            comment: Some(" FITS STANDARD".to_string())
        }
    );
}

#[test]
fn test_logical_false() {
    let card = parse("RUST    =                    F / FITS STANDARD");
    assert_eq!(
        card,
        Card::Value {
            keyword: "RUST".to_string(),
            value: CardValue::Logical(false),
            comment: Some(" FITS STANDARD".to_string())
        }
    );
}

#[test]
fn test_integer() {
    let card = parse("BITPIX  =                   16 / bits per pixel");
    assert_eq!(
        card,
        Card::Value {
            keyword: "BITPIX".to_string(),
            value: CardValue::Integer(16),
            comment: Some(" bits per pixel".to_string())
        }
    );
}

#[test]
fn test_integer_no_value() {
    let card = parse("NAXIS   =                    0 / no data");
    assert_eq!(
        card,
        Card::Value {
            keyword: "NAXIS".to_string(),
            value: CardValue::Integer(0),
            comment: Some(" no data".to_string())
        }
    );
}

#[test]
fn test_integer_no_comment() {
    let card = parse("NAXIS1  =                  800");
    assert_eq!(
        card,
        Card::Value {
            keyword: "NAXIS1".to_string(),
            value: CardValue::Integer(800),
            comment: None
        }
    );
}

#[test]
fn test_integer_negative() {
    let card = parse("OFFSET  =                -2048 / negative value");
    assert_eq!(
        card,
        Card::Value {
            keyword: "OFFSET".to_string(),
            value: CardValue::Integer(-2048),
            comment: Some(" negative value".to_string())
        }
    );
}

#[test]
fn test_float() {
    let card = parse("BSCALE  =                  1.0");
    assert_float_card(card, "BSCALE", 1.0, None);
}

#[test]
fn test_float_exp_notation() {
    let card = parse("CRVAL1  =      1.23456789E+02  / exponential notation");
    assert_float_card(card, "CRVAL1", 1.23456789e02, Some(" exponential notation"));
}

#[test]
fn test_float_fortran_notation() {
    let card = parse("CRVAL2  =      2.50000000D-01  / D-exponent from Fortran");
    assert_float_card(card, "CRVAL2", 2.50000000e-01, Some(" D-exponent from Fortran"));
}

#[test]
fn test_float_negative_w_exp() {
    let card = parse("CDELT1  =     -2.77777777E-04  / negative with exponent");
    assert_float_card(card, "CDELT1", -2.77777777E-04, Some(" negative with exponent"));
}

#[test]
fn test_string_with_escaped_quote() {
    let card = parse("OBSERVER= 'O''Brien'           / embedded quote unescapes");
    assert_eq!(
        card,
        Card::Value {
            keyword: "OBSERVER".to_string(),
            value: CardValue::String("O'Brien".to_string()),
            comment: Some(" embedded quote unescapes".to_string())
        }
    );
}

#[test]
fn test_empty_string() {
    let card = parse("EMPTY   = ''                   / null string");
    assert_eq!(
        card,
        Card::Value {
            keyword: "EMPTY".to_string(),
            value: CardValue::String("".to_string()),
            comment: Some(" null string".to_string())
        }
    );
}

#[test]
fn test_string_leading_spaces() {
    let card = parse("NOTES   = '  leading spaces'   / leading spaces are significant");
    assert_eq!(
        card,
        Card::Value {
            keyword: "NOTES".to_string(),
            value: CardValue::String("  leading spaces".to_string()),
            comment: Some(" leading spaces are significant".to_string())
        }
    );
}

#[test]
fn test_string_trailing_spaces() {
    let card = parse("TRIMMED = 'trailing   '        / trailing spaces stripped");
    assert_eq!(
        card,
        Card::Value {
            keyword: "TRIMMED".to_string(),
            value: CardValue::String("trailing".to_string()),
            comment: Some(" trailing spaces stripped".to_string())
        }
    );
}

#[test]
fn test_string_slash() {
    let card = parse("SLASH   = 'FOO/BAR'            / slash in both value and comment");
    assert_eq!(
        card,
        Card::Value {
            keyword: "SLASH".to_string(),
            value: CardValue::String("FOO/BAR".to_string()),
            comment: Some(" slash in both value and comment".to_string())
        }
    );
}

#[test]
fn test_string_unclosed() {
    let header = "UNCLOSED= 'where was I going            / unclosed string";
    let card = RawCard::try_from(&right_pad(header)).unwrap();
    let result = Card::try_from(card);
    assert!(result.is_err());
    assert!(result.unwrap_err().message().contains("unclosed string"));
}

#[test]
fn test_undefined_with_comment() {
    let card = parse("UNDEF   =                      / blank value field with comment");
    assert_eq!(
        card,
        Card::Value {
            keyword: "UNDEF".to_string(),
            value: CardValue::Undefined,
            comment: Some(" blank value field with comment".to_string())
        }
    );
}

#[test]
fn test_undefined_without_comment() {
    let card = parse("UNDEF2  =");
    assert_eq!(
        card,
        Card::Value {
            keyword: "UNDEF2".to_string(),
            value: CardValue::Undefined,
            comment: None
        }
    );
}

#[test]
fn test_complex_integer() {
    let card = parse("CMPXI   = (123, 45)            / complex integer");
    assert_eq!(
        card,
        Card::Value {
            keyword: "CMPXI".to_string(),
            value: CardValue::ComplexInteger(123, 45),
            comment: Some(" complex integer".to_string())
        }
    );
}

fn assert_complex_float(card: Card, keyword: &str, a: f64, b: f64, comment: &str) {
    match card {
        Card::Value { keyword: k, value: CardValue::ComplexFloat(x, y), comment: c } => {
            assert_eq!(k, keyword);
            assert_eq!(float_of(&x), a);
            assert_eq!(float_of(&y), b);
            assert_eq!(c, Some(comment.to_string()));
        }
        other => panic!("expected a complex real value, got {other:?}"),
    }
}

#[test]
fn test_complex_float() {
    let card = parse("CMPXF   = (1.0, -1.0)         / complex float");
    assert_complex_float(card, "CMPXF", 1.0, -1.0, " complex float");
}

#[test]
fn test_complex_float_exp() {
    let card = parse("CMPXE   = (1.23E2, -4.56E-1)  / complex float with exponents");
    assert_complex_float(card, "CMPXE", 1.23e2, -4.56e-1, " complex float with exponents");
}

#[test]
fn test_complex_float_unclosed() {
    let header = "CMPXE   = (1.23E2, -4.56E-1   / complex float unclosed";
    let card = RawCard::try_from(&right_pad(header)).unwrap();
    let result = Card::try_from(card);
    assert!(result.is_err());
    assert!(result.unwrap_err().message().contains("unclosed complex"));
}

#[test]
fn mod_test_comment() {
    let card = parse("COMMENT Observation taken during director's discretionary time");
    assert_eq!(
        card,
        Card::Comment("Observation taken during director's discretionary time".to_string())
    );
}

#[test]
fn mod_test_history() {
    let card = parse("HISTORY Reduced with banzai");
    assert_eq!(card, Card::History("Reduced with banzai".to_string()));
}

#[test]
fn test_blank() {
    let card = parse("");
    assert_eq!(card, Card::Blank);
}

#[test]
fn test_blank_with_content() {
    let card = parse("        blank keyword");
    assert_eq!(card, Card::Comment("blank keyword".to_string()));
}

#[test]
fn test_end() {
    let card = parse("END");
    assert_eq!(card, Card::End)
}

#[test]
fn test_continue_no_comment() {
    let card = parse("CONTINUE ' over multiple keyword cards.'");
    assert_eq!(
        card,
        Card::Continue {
            value: " over multiple keyword cards.".to_string(),
            comment: None
        }
    );
}

#[test]
fn test_continue_with_comment() {
    let card = parse("CONTINUE 'final segment' / continuation comment");
    assert_eq!(
        card,
        Card::Continue {
            value: "final segment".to_string(),
            comment: Some(" continuation comment".to_string())
        }
    );
}

#[test]
fn test_xtension_image() {
    let card = parse("XTENSION= 'IMAGE   '           / image extension");
    assert_eq!(
        card,
        Card::Xtension {
            x: XtensionType::Image,
            comment: Some(" image extension".to_string())
        }
    );
}

#[test]
fn test_xtension_unknown() {
    let card = RawCard::try_from(&right_pad("XTENSION= 'UNKNOWN '")).unwrap();
    let result = Card::try_from(card);
    assert!(result.is_err());
    assert!(result.unwrap_err().message().contains("unknown XTENSION type"));
}

#[test]
fn test_xtension_malformed() {
    let card = RawCard::try_from(&right_pad("XTENSION= IMAGE")).unwrap();
    let result = Card::try_from(card);
    assert!(result.is_err());
    assert!(result.unwrap_err().message().contains("expected opening quote"));
}

// Further cases.

#[test]
fn rawcard_parts() {
    let raw = RawCard::try_from(&right_pad("NAXIS1  =                  800 / width")).unwrap();
    assert_eq!(raw.keyword(), "NAXIS1");
    assert_eq!(raw.value_indicator(), "= ");
    assert_eq!(raw.value_comment().len(), 70);
    assert!(raw.value_comment().starts_with("                 800"));
    assert_eq!(raw.after_keyword().len(), 72);
}

#[test]
fn xtension_bintable_and_table() {
    assert_eq!(
        parse("XTENSION= 'BINTABLE'"),
        Card::Xtension { x: XtensionType::BinaryTable, comment: None }
    );
    assert_eq!(
        parse("XTENSION= 'TABLE   '"),
        Card::Xtension { x: XtensionType::AsciiTable, comment: None }
    );
}

#[test]
fn xtension_missing_indicator_is_invalid() {
    let card = RawCard::try_from(&right_pad("XTENSION  'IMAGE   '")).unwrap();
    assert!(matches!(Card::try_from(card), Err(fefits::error::Error::InvalidCard(_))));
}

#[test]
fn integer_overflow_is_invalid() {
    let card = RawCard::try_from(&right_pad("BIG     = 99999999999999999999")).unwrap();
    assert!(matches!(Card::try_from(card), Err(fefits::error::Error::InvalidCard(_))));
}

#[test]
fn bad_float_is_invalid() {
    let card = RawCard::try_from(&right_pad("BAD     = 1.2.3")).unwrap();
    assert!(matches!(Card::try_from(card), Err(fefits::error::Error::InvalidCard(_))));
}

#[test]
fn complex_missing_comma_is_invalid() {
    let card = RawCard::try_from(&right_pad("CPX     = (1 2)")).unwrap();
    let err = Card::try_from(card).unwrap_err();
    assert!(err.message().contains("complex missing comma"));
}

#[test]
fn card_keyword_and_value_accessors() {
    let card = parse("BITPIX  =                   16");
    assert_eq!(card.keyword(), "BITPIX");
    assert_eq!(card.value(), Some(&CardValue::Integer(16)));
    assert_eq!(card.value().unwrap().as_integer(), Some(16));
    assert_eq!(card.value().unwrap().as_bool(), None);
    assert_eq!(Card::End.keyword(), "END");
    assert_eq!(Card::Blank.keyword(), "");
    assert_eq!(Card::Comment("x".into()).keyword(), "COMMENT");
    assert_eq!(Card::End.value(), None);
    assert_eq!(CardValue::String("s".into()).as_str(), Some("s"));
    assert_eq!(CardValue::Logical(true).as_bool(), Some(true));
}

fn parse_error(s: &str) -> String {
    match Card::try_from(RawCard::try_from(&right_pad(s)).unwrap()) {
        Err(e) => e.message(),
        Ok(c) => panic!("unexpected card {c:?}"),
    }
}

#[test]
fn card_errors_name_what_is_wrong() {
    assert_eq!(
        parse_error("SHORT=                  foo / bar"),
        "Invalid Card: invalid keyword characters: 'SHORT='"
    );
    assert_eq!(
        parse_error("FOOBAR  unrecognized keyword without value indicator"),
        "Invalid Card: unrecognized keyword 'FOOBAR' without value indicator"
    );
    assert_eq!(parse_error("NUM     = 12x4"), "Invalid Card: invalid integer: 12x4");
    assert_eq!(parse_error("NUM     = 1.2.3 / c"), "Invalid Card: invalid float: 1.2.3");
    assert_eq!(parse_error("CPX     = (1, 2x)"), "Invalid Card: invalid complex component: 2x");
    assert_eq!(parse_error("CPX     = (1.5, z)"), "Invalid Card: invalid float: z");
    assert_eq!(parse_error("CPX     = (1 2)"), "Invalid Card: complex missing comma");
    assert_eq!(parse_error("CPX     = (1, 2"), "Invalid Card: unclosed complex");
    assert_eq!(parse_error("STR     = 'abc"), "Invalid Card: unclosed string");
    assert_eq!(parse_error("CONTINUE  abc"), "Invalid Card: expected opening quote");
    assert_eq!(
        parse_error("XTENSION= 'FOO     '"),
        "Unsupported Feature: unknown XTENSION type: 'FOO'"
    );
}

#[test]
fn nonprintable_card_lists_its_bytes() {
    let mut bytes = [b' '; 80];
    bytes[0] = b'A';
    bytes[79] = 0x7F;
    let err = match RawCard::try_from(&bytes) {
        Err(e) => e,
        Ok(_) => panic!("unexpected success"),
    };
    let mut list: Vec<String> = vec!["65".to_string()];
    list.extend(std::iter::repeat_n("32".to_string(), 78));
    list.push("127".to_string());
    assert_eq!(
        err.message(),
        format!("Invalid Card: Card contains non-printable ASCII characters: [{}]", list.join(", "))
    );
}
