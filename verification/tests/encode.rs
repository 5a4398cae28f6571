use fefits::card::long_string::stitch_continue;
use fefits::card::{Card, CardValue, RawCard};
use fefits::extension::XtensionType;

fn is_blank(bytes: &[u8]) -> bool {
    bytes.iter().all(|&b| b == b' ')
}

fn format_float(f: f64) -> String {
    ryu::Buffer::new().format_finite(f).to_string()
}

#[test]
fn test_encode_end() {
    let card = Card::End;
    let encoded = card.encode().unwrap();
    assert_eq!(&encoded[..3], b"END");
    assert!(is_blank(&encoded[3..]));
}

#[test]
fn test_encode_blank() {
    let card = Card::Blank;
    let encoded = card.encode().unwrap();
    assert_eq!(encoded, [b' '; 80]);
}

#[test]
fn encode_test_comment() {
    let text = "Comment your code and data";
    let card = Card::Comment(text.to_string());
    let encoded = card.encode().unwrap();
    assert_eq!(&encoded[..8], b"COMMENT ");
    assert_eq!(&encoded[8..8 + text.len()], text.as_bytes());
    assert!(is_blank(&encoded[8 + text.len()..]));
}

#[test]
fn encode_test_history() {
    let text = "History teaches us";
    let card = Card::History(text.to_string());
    let encoded = card.encode().unwrap();
    assert_eq!(&encoded[..8], b"HISTORY ");
    assert_eq!(&encoded[8..8 + text.len()], text.as_bytes());
    assert!(is_blank(&encoded[8 + text.len()..]));
}

#[test]
fn test_value_string() {
    let card = Card::Value {
        keyword: "OBJECT".to_string(),
        value: CardValue::String("Dumbbell Nebula".to_string()),
        comment: None,
    };
    let encoded = card.encode().unwrap();
    assert!(&encoded.starts_with(b"OBJECT  = 'Dumbbell Nebula'"));
}

#[test]
fn test_value_string_short() {
    let card = Card::Value {
        keyword: "FILTER".to_string(),
        value: CardValue::String("R".to_string()),
        comment: Some("Value padded to 8 chars".to_string()),
    };
    let encoded = card.encode().unwrap();
    assert!(&encoded.starts_with(b"FILTER  = 'R       ' / Value padded to 8 chars"));
}

#[test]
fn test_value_string_escaped() {
    let card = Card::Value {
        keyword: "OBJECT".to_string(),
        value: CardValue::String("D'umbbell Nebula".to_string()),
        comment: None,
    };
    let encoded = card.encode().unwrap();
    assert!(&encoded.starts_with(b"OBJECT  = 'D''umbbell Nebula'"));
}

#[test]
fn test_value_string_comment() {
    let card = Card::Value {
        keyword: "OBJECT".to_string(),
        value: CardValue::String("Dumbbell Nebula".to_string()),
        comment: Some("Name of object observed".to_string()),
    };
    let encoded = card.encode().unwrap();
    assert!(&encoded.starts_with(b"OBJECT  = 'Dumbbell Nebula' / Name of object observed"));
}

#[test]
fn test_value_string_comment_truncated() {
    let mut to_be_trunc = String::from("Name of object observed");
    to_be_trunc.extend(std::iter::repeat_n('a', 100));
    let card = Card::Value {
        keyword: "OBJECT".to_string(),
        value: CardValue::String("Dumbbell Nebula".to_string()),
        comment: Some(to_be_trunc),
    };
    let encoded = card.encode().unwrap();
    let mut expected = String::from("OBJECT  = 'Dumbbell Nebula' / Name of object observed");
    let fill_len = 80 - expected.len();
    expected.extend(std::iter::repeat_n('a', fill_len));
    assert!(encoded.len() == 80);
    assert_eq!(encoded, expected.as_bytes());
}

#[test]
fn test_value_integer() {
    let card = Card::Value {
        keyword: "NAXIS1".to_string(),
        value: CardValue::Integer(650),
        comment: Some("Width of table row in bytes".to_string()),
    };
    let encoded = card.encode().unwrap();
    assert!(&encoded.starts_with(b"NAXIS1  =                  650 / Width of table row in bytes"));
}

#[test]
fn test_value_float() {
    let card = Card::Value {
        keyword: "EXPTIME".to_string(),
        value: CardValue::Float(format_float(60.0)),
        comment: Some("Exposure time in seconds".to_string()),
    };
    let encoded = card.encode().unwrap();
    assert!(&encoded.starts_with(b"EXPTIME = 60.0 / Exposure time in seconds"));
}

#[test]
fn test_value_float_e() {
    let card = Card::Value {
        keyword: "EXPTIME".to_string(),
        value: CardValue::Float(format_float(60.1234e-3)),
        comment: Some("Exposure time in seconds".to_string()),
    };
    let encoded = card.encode().unwrap();
    assert!(&encoded.starts_with(b"EXPTIME = 0.0601234 / Exposure time in seconds"));
}

#[test]
fn test_value_float_large() {
    let card = Card::Value {
        keyword: "EXPTIME".to_string(),
        value: CardValue::Float(format_float(6.01234e16)),
        comment: Some("Exposure time in seconds".to_string()),
    };
    let encoded = card.encode().unwrap();
    assert!(&encoded.starts_with(b"EXPTIME = 6.01234e16 / Exposure time in seconds"));
}

#[test]
fn test_value_float_comment_truncated() {
    let f = f64::MAX;
    let float_str = format_float(f);
    let card = Card::Value {
        keyword: "CRVAL1".to_string(),
        value: CardValue::Float(float_str.clone()),
        comment: Some("a".repeat(100)),
    };
    let encoded = card.encode().unwrap();
    let prefix = format!("CRVAL1  = {float_str} / ");
    let comment_space = 80 - prefix.len();
    let mut expected = prefix;
    expected.extend(std::iter::repeat_n('a', comment_space));
    assert_eq!(encoded.len(), 80);
    assert_eq!(&encoded, expected.as_bytes());
}

#[test]
fn encode_test_xtension() {
    let card = Card::Xtension { x: XtensionType::Image, comment: None };
    let encoded = card.encode().unwrap();
    assert!(&encoded.starts_with(b"XTENSION= 'IMAGE   '"));
}

#[test]
fn test_short_string_single_record() {
    let card = Card::Value {
        keyword: "OBJECT".to_string(),
        value: CardValue::String("Crab Nebula".to_string()),
        comment: None,
    };
    let records = card.encode_records().unwrap();
    assert_eq!(records.len(), 1);
    assert_eq!(records[0], card.encode().unwrap());
}

#[test]
fn test_at_68_limit_no_split() {
    let s = "A".repeat(68);
    let card = Card::Value {
        keyword: "KEY".to_string(),
        value: CardValue::String(s),
        comment: None,
    };
    let records = card.encode_records().unwrap();
    assert_eq!(records.len(), 1);
    assert!(records[0].starts_with(b"KEY"));
}

#[test]
fn test_at_68_limit_quotes_no_split() {
    let s = "'".repeat(34);
    let card = Card::Value {
        keyword: "KEY".to_string(),
        value: CardValue::String(s),
        comment: None,
    };
    let records = card.encode_records().unwrap();
    assert_eq!(records.len(), 1);
}

#[test]
fn test_69_chars_splits_two_records() {
    let s = "A".repeat(69);
    let card = Card::Value {
        keyword: "LONGKEY".to_string(),
        value: CardValue::String(s),
        comment: Some("a comment".to_string()),
    };
    let records = card.encode_records().unwrap();
    assert_eq!(records.len(), 2);
    assert!(records[0].starts_with(b"LONGKEY"));
    assert!(records[0].contains(&b'&'));
    assert!(records[1].starts_with(b"CONTINUE"));
    assert!(records[1].windows(9).any(|w| w == b"a comment".as_ref()));
}

#[test]
fn test_continue_boundary_two_records() {
    let s = "C".repeat(67 + 69);
    let card = Card::Value {
        keyword: "KEY".to_string(),
        value: CardValue::String(s),
        comment: None,
    };
    let records = card.encode_records().unwrap();
    assert_eq!(records.len(), 2);
    assert!(records[1].starts_with(b"CONTINUE"));
}

#[test]
fn test_continue_boundary_three_records() {
    let s = "C".repeat(67 + 70);
    let card = Card::Value {
        keyword: "KEY".to_string(),
        value: CardValue::String(s),
        comment: None,
    };
    let records = card.encode_records().unwrap();
    assert_eq!(records.len(), 3);
}

#[test]
fn test_very_long_string_three_records() {
    let s = "B".repeat(200);
    let card = Card::Value {
        keyword: "KEY".to_string(),
        value: CardValue::String(s),
        comment: None,
    };
    let records = card.encode_records().unwrap();
    assert_eq!(records.len(), 3);
    assert!(records[0].starts_with(b"KEY"));
    assert!(records[1].starts_with(b"CONTINUE "));
    assert!(records[2].starts_with(b"CONTINUE "));
}

#[test]
fn test_quotes_in_long_string() {
    let s = "'".repeat(35);
    let card = Card::Value {
        keyword: "QUOTED".to_string(),
        value: CardValue::String(s),
        comment: None,
    };
    let records = card.encode_records().unwrap();
    assert_eq!(records.len(), 2);
    let first = std::str::from_utf8(&records[0]).unwrap();
    assert!(first.contains("&'"));
}

#[test]
fn test_comment_on_last_record_only() {
    let s = "D".repeat(200);
    let comment = "telescope comment";
    let card = Card::Value {
        keyword: "KEY".to_string(),
        value: CardValue::String(s),
        comment: Some(comment.to_string()),
    };
    let records = card.encode_records().unwrap();
    assert_eq!(records.len(), 4);

    let comment_bytes = comment.as_bytes();
    for r in &records[..records.len() - 1] {
        assert!(
            !r.windows(comment_bytes.len()).any(|w| w == comment_bytes),
            "comment appeared on a non-last record"
        );
    }
    let last = &records[records.len() - 1];
    assert!(last.starts_with(b"CONTINUE "));
    assert!(last.windows(comment_bytes.len()).any(|w| w == comment_bytes));
}

#[test]
fn test_stitch_basic() {
    let mut last = Card::Value {
        keyword: "LONGSTR".to_string(),
        value: CardValue::String("hello &".to_string()),
        comment: None,
    };
    let cont = Card::Continue {
        value: "world".to_string(),
        comment: Some("the comment".to_string()),
    };
    assert!(stitch_continue(Some(&mut last), &cont));
    assert_eq!(
        last,
        Card::Value {
            keyword: "LONGSTR".to_string(),
            value: CardValue::String("hello world".to_string()),
            comment: Some("the comment".to_string()),
        }
    );
}

#[test]
fn test_stitch_multiple() {
    let mut last = Card::Value {
        keyword: "LONGSTR".to_string(),
        value: CardValue::String("nothing &".to_string()),
        comment: Some("youth".to_string()),
    };
    assert!(stitch_continue(
        Some(&mut last),
        &Card::Continue { value: "is &".to_string(), comment: Some("is".to_string()) }
    ));
    assert!(stitch_continue(
        Some(&mut last),
        &Card::Continue { value: "permanent".to_string(), comment: Some("fleeting".to_string()) }
    ));
    assert_eq!(
        last,
        Card::Value {
            keyword: "LONGSTR".to_string(),
            value: CardValue::String("nothing is permanent".to_string()),
            comment: Some("youth is fleeting".to_string()),
        }
    );
}

#[test]
fn test_stitch_no_ampersand_returns_false() {
    let mut last = Card::Value {
        keyword: "KEY".to_string(),
        value: CardValue::String("no ampersand".to_string()),
        comment: None,
    };
    let cont = Card::Continue { value: "orphaned".to_string(), comment: None };
    assert!(!stitch_continue(Some(&mut last), &cont));
    assert_eq!(
        last,
        Card::Value {
            keyword: "KEY".to_string(),
            value: CardValue::String("no ampersand".to_string()),
            comment: None,
        }
    );
}

#[test]
fn test_stitch_non_continue_returns_false() {
    let mut last = Card::Value {
        keyword: "KEY".to_string(),
        value: CardValue::String("hello &".to_string()),
        comment: None,
    };
    assert!(!stitch_continue(Some(&mut last), &Card::End));
    assert!(!stitch_continue(Some(&mut last), &Card::Blank));
}

#[test]
fn test_stitch_none_last_returns_false() {
    let cont = Card::Continue { value: "value".to_string(), comment: None };
    assert!(!stitch_continue(None, &cont));
}

// Further cases.

#[test]
fn value_too_long_is_invalid() {
    let card = Card::Value {
        keyword: "KEY".to_string(),
        value: CardValue::String("x".repeat(80)),
        comment: None,
    };
    assert!(matches!(card.encode(), Err(fefits::error::Error::InvalidCard(_))));
}

#[test]
fn non_finite_float_is_invalid() {
    let card = Card::Value {
        keyword: "KEY".to_string(),
        value: CardValue::Float("inf".to_string()),
        comment: None,
    };
    assert!(matches!(card.encode(), Err(fefits::error::Error::InvalidCard(_))));
}

#[test]
fn integer_extremes_are_right_aligned() {
    let card = Card::Value {
        keyword: "MIN".to_string(),
        value: CardValue::Integer(i64::MIN),
        comment: None,
    };
    let encoded = card.encode().unwrap();
    assert!(encoded.starts_with(b"MIN     = -9223372036854775808"));
}

#[test]
fn complex_and_logical_text() {
    let card = Card::Value {
        keyword: "CPX".to_string(),
        value: CardValue::ComplexInteger(-3, 4),
        comment: None,
    };
    assert!(card.encode().unwrap().starts_with(b"CPX     = (-3, 4)"));
    let card = Card::Value {
        keyword: "FLAG".to_string(),
        value: CardValue::Logical(false),
        comment: None,
    };
    assert!(card.encode().unwrap().starts_with(b"FLAG    =                    F"));
}

#[test]
fn continue_card_round_trip() {
    let card = Card::Continue { value: "tail".to_string(), comment: Some("note".to_string()) };
    let encoded = card.encode().unwrap();
    assert!(encoded.starts_with(b"CONTINUE 'tail' / note"));
    let parsed = Card::try_from(RawCard::try_from(&encoded).unwrap()).unwrap();
    assert_eq!(
        parsed,
        Card::Continue { value: "tail".to_string(), comment: Some(" note".to_string()) }
    );
}

#[test]
fn split_then_stitch_gives_back_the_string() {
    let s: String = (0..250).map(|i| if i % 7 == 0 { '\'' } else { 'x' }).collect();
    let card = Card::Value {
        keyword: "LONG".to_string(),
        value: CardValue::String(s.clone()),
        comment: Some("kept".to_string()),
    };
    let records = card.encode_records().unwrap();
    assert!(records.len() > 1);
    let mut cards: Vec<Card> = records
        .iter()
        .map(|r| Card::try_from(RawCard::try_from(r).unwrap()).unwrap())
        .collect();
    let mut first = cards.remove(0);
    for c in &cards {
        assert!(stitch_continue(Some(&mut first), c));
    }
    match first {
        Card::Value { value: CardValue::String(t), .. } => assert_eq!(t, s),
        other => panic!("unexpected {other:?}"),
    }
}

#[test]
fn encode_errors_name_the_value() {
    let card = Card::Value {
        keyword: "F".into(),
        value: CardValue::Float("NaN".into()),
        comment: None,
    };
    assert_eq!(card.encode().unwrap_err().message(), "Invalid Card: non-finite float value: NaN");
    let card = Card::Value {
        keyword: "C".into(),
        value: CardValue::ComplexFloat("1.5".into(), "inf".into()),
        comment: None,
    };
    assert_eq!(card.encode().unwrap_err().message(), "Invalid Card: non-finite float value: inf");
    let long = "x'".repeat(30);
    let card = Card::Value {
        keyword: "S".into(),
        value: CardValue::String(long.clone()),
        comment: None,
    };
    assert_eq!(
        card.encode().unwrap_err().message(),
        format!("Invalid Card: encoded value too long for card: '{}'", long.replace('\'', "''"))
    );
}
