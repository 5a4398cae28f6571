use fefits::card::{Card, CardValue};
use fefits::error::Error;
use fefits::extension::XtensionType;
use fefits::header::Header;
use fefits::io::{Block, BlockReader};
use fefits::Bitpix;

fn build_card(keyword: &str, value: &str, comment: Option<&str>) -> Card {
    Card::Value {
        keyword: keyword.to_string(),
        value: CardValue::String(value.to_string()),
        comment: comment.map(|c| c.to_string()),
    }
}

fn make_block(cards: &[Card]) -> Block {
    let mut block = Block::zeroed();
    for (i, card) in cards.iter().enumerate() {
        block.set_record(i, &card.encode().unwrap());
    }
    block
}

#[test]
fn test_append_remove() {
    let mut header = Header::new();
    let card1 = build_card("KEYWORD1", "VALUE1", Some("Comment1"));
    let card2 = build_card("KEYWORD2", "VALUE2", Some("Comment2"));
    header.append(card1.clone());
    header.append(card2.clone());

    assert_eq!(header.get("KEYWORD1"), Some(&card1));
    assert_eq!(header.get("KEYWORD2"), Some(&card2));

    let removed_card = header.remove("KEYWORD1");
    assert_eq!(removed_card, Some(card1));
    assert_eq!(header.get("KEYWORD1"), None);
    assert_eq!(header.get("KEYWORD2"), Some(&card2));

    let removed_card = header.remove("KEYWORD2");
    assert_eq!(removed_card, Some(card2));
    assert_eq!(header.get("KEYWORD2"), None);
}

#[test]
fn test_multiple_values() {
    let mut header = Header::new();
    let card1 = build_card("KEYWORD", "VALUE1", Some("Comment1"));
    let card2 = build_card("KEYWORD", "VALUE2", Some("Comment2"));
    header.append(card1.clone());
    header.append(card2.clone());

    assert_eq!(header.get("KEYWORD"), Some(&card1));

    let removed_card = header.remove("KEYWORD");
    assert_eq!(removed_card, Some(card1));
    assert_eq!(header.get("KEYWORD"), Some(&card2));

    let removed_card = header.remove("KEYWORD");
    assert_eq!(removed_card, Some(card2));
    assert_eq!(header.get("KEYWORD"), None);
}

#[test]
fn test_set() {
    let mut header = Header::new();
    let card1 = build_card("KEYWORD", "VALUE1", Some("Comment1"));
    let card2 = build_card("KEYWORD", "VALUE2", Some("Comment2"));
    let card3 = build_card("KEYWORD2", "VALUE3", Some("Comment3"));
    header.set(card1.clone());
    assert_eq!(header.get("KEYWORD"), Some(&card1));

    header.set(card2.clone());
    assert_eq!(header.get("KEYWORD"), Some(&card2));

    header.set(card3.clone());
    assert_eq!(header.get("KEYWORD"), Some(&card2));
    assert_eq!(header.get("KEYWORD2"), Some(&card3));
}

#[test]
fn read_from_block_reader_no_end() {
    let cards = vec![
        build_card("KEYWORD1", "VALUE1", Some("Comment1")),
        build_card("KEYWORD2", "VALUE2", Some("Comment2")),
    ];
    let block = make_block(&cards);
    let card_bytes = cards.len() * 80;
    let mut reader = BlockReader::new(&block.as_bytes()[..card_bytes]);
    let result = Header::read_from_block_reader(&mut reader);
    assert!(result.is_err());
    assert!(matches!(result, Err(Error::InvalidHeader(msg)) if msg.contains("missing END card")));
}

#[test]
fn test_orphaned_continue() {
    let cards = vec![
        Card::Value {
            keyword: "STRKEY".to_string(),
            value: CardValue::String("no ampersand".to_string()),
            comment: None,
        },
        Card::Continue { value: "orphaned".to_string(), comment: None },
        Card::End,
    ];
    let block = make_block(&cards);
    let mut reader = BlockReader::new(block.as_bytes());
    let (header, _) = Header::read_from_block_reader(&mut reader).unwrap();
    assert_eq!(
        header.get("STRKEY"),
        Some(&Card::Value {
            keyword: "STRKEY".to_string(),
            value: CardValue::String("no ampersand".to_string()),
            comment: None,
        })
    );
    assert!(header.get("CONTINUE").is_some());
}

#[test]
fn test_find() {
    let mut header = Header::new();
    header.append(build_card("NAXIS", "0", None));
    header.append(build_card("NAXIS1", "800", None));
    header.append(build_card("NAXIS2", "600", None));
    header.append(build_card("SIMPLE", "T", None));

    let keywords: Vec<_> = header.find("NAX*").iter().map(|c| c.keyword()).collect();
    assert_eq!(keywords, ["NAXIS", "NAXIS1", "NAXIS2"]);

    let keywords: Vec<_> = header.find("NAXIS?").iter().map(|c| c.keyword()).collect();
    assert_eq!(keywords, ["NAXIS1", "NAXIS2"]);

    assert_eq!(header.find("SIMPLE").len(), 1);
    assert_eq!(header.find("MISSING").len(), 0);

    let keywords: Vec<_> = header.find("nax*").iter().map(|c| c.keyword()).collect();
    assert_eq!(keywords, ["NAXIS", "NAXIS1", "NAXIS2"]);
}

#[test]
fn test_bitpix_parsing() {
    let mut header = Header::new();
    header.append(Card::Value {
        keyword: "BITPIX".to_string(),
        value: CardValue::Integer(16),
        comment: None,
    });
    assert_eq!(header.bitpix().unwrap(), Bitpix::SignedShort);

    header.set(Card::Value {
        keyword: "BITPIX".to_string(),
        value: CardValue::Integer(-32),
        comment: None,
    });
    assert_eq!(header.bitpix().unwrap(), Bitpix::Float);
}

#[test]
fn test_invalid_bitpix() {
    let mut header = Header::new();
    assert!(matches!(header.bitpix(), Err(Error::MissingKeyword("BITPIX"))));

    header.set(build_card("BITPIX", "invalid", None));
    assert!(matches!(header.bitpix(), Err(Error::InvalidKeywordValue { keyword: "BITPIX", .. })));

    header.set(Card::Value {
        keyword: "BITPIX".to_string(),
        value: CardValue::Float(ryu::Buffer::new().format_finite(64.0).to_string()),
        comment: None,
    });
    assert!(matches!(header.bitpix(), Err(Error::InvalidKeywordValue { keyword: "BITPIX", .. })));

    header.set(Card::Value {
        keyword: "BITPIX".to_string(),
        value: CardValue::Integer(99),
        comment: None,
    });
    assert!(matches!(header.bitpix(), Err(Error::InvalidKeywordValue { keyword: "BITPIX", .. })));
}

#[test]
fn test_naxis() {
    let mut header = Header::new();
    header.append(Card::Value {
        keyword: "NAXIS".to_string(),
        value: CardValue::Integer(2),
        comment: None,
    });
    assert_eq!(header.naxis().unwrap(), 2);
}

#[test]
fn test_naxis_invalid() {
    let mut header = Header::new();
    assert!(matches!(header.naxis(), Err(Error::MissingKeyword("NAXIS"))));

    header.append(Card::Value {
        keyword: "NAXIS".to_string(),
        value: CardValue::Integer(1000),
        comment: None,
    });
    assert!(matches!(
        header.naxis(),
        Err(Error::InvalidKeywordValue {
            keyword: "NAXIS",
            reason: "must be an integer between 0 and 999",
            ..
        })
    ));

    header.set(Card::Value {
        keyword: "NAXIS".to_string(),
        value: CardValue::Integer(-1),
        comment: None,
    });
    assert!(matches!(
        header.naxis(),
        Err(Error::InvalidKeywordValue {
            keyword: "NAXIS",
            reason: "must be an integer between 0 and 999",
            ..
        })
    ));
}

#[test]
fn test_naxisn() {
    let mut header = Header::new();
    header.append(Card::Value { keyword: "NAXIS".to_string(), value: CardValue::Integer(2), comment: None });
    header.append(Card::Value { keyword: "NAXIS1".to_string(), value: CardValue::Integer(800), comment: None });
    header.append(Card::Value { keyword: "NAXIS2".to_string(), value: CardValue::Integer(600), comment: None });

    assert_eq!(header.naxisn(1).unwrap(), 800);
    assert_eq!(header.naxisn(2).unwrap(), 600);
}

#[test]
fn test_naxisn_invalid() {
    let mut header = Header::new();
    assert!(
        matches!(header.naxisn(1), Err(Error::InvalidHeader(msg)) if msg.contains("missing NAXIS1 keyword"))
    );
    header.append(Card::Value { keyword: "NAXIS".to_string(), value: CardValue::Integer(1), comment: None });
    header.append(Card::Value { keyword: "NAXIS1".to_string(), value: CardValue::Integer(-800), comment: None });

    assert!(
        matches!(header.naxisn(1), Err(Error::InvalidHeader(msg)) if msg.contains("NAXIS1 value must be a non-negative integer"))
    );
}

#[test]
fn mod_test_xtension() {
    let mut header = Header::new();
    header.append(Card::Xtension { x: XtensionType::Image, comment: None });
    assert_eq!(header.xtension().unwrap(), XtensionType::Image);
}

#[test]
fn test_xtension_invalid() {
    let mut header = Header::new();
    assert!(matches!(header.xtension(), Err(Error::MissingKeyword("XTENSION"))));

    header.append(Card::Value {
        keyword: "XTENSION".to_string(),
        value: CardValue::String("IMAGE".to_string()),
        comment: None,
    });
    assert!(matches!(
        header.xtension(),
        Err(Error::InvalidKeywordValue {
            keyword: "XTENSION",
            reason: "must be a recognized extension type string",
            ..
        })
    ));
}

// Further cases.

#[test]
fn get_ignores_case_and_set_replaces_first() {
    let mut header = Header::new();
    let a = build_card("OBJECT", "M31", None);
    let b = build_card("OBJECT", "M33", None);
    header.append(a.clone());
    header.append(b.clone());
    assert_eq!(header.get("object"), Some(&a));
    let c = build_card("object", "M51", None);
    header.set(c.clone());
    assert_eq!(header.len(), 2);
    assert_eq!(header.get("OBJECT"), Some(&c));
    assert_eq!(header.cards()[1], b);
}

#[test]
fn read_header_with_stitching_and_block_count() {
    let cards = vec![
        Card::Value {
            keyword: "LONGSTR".to_string(),
            value: CardValue::String("hello &".to_string()),
            comment: None,
        },
        Card::Continue { value: "world".to_string(), comment: None },
        Card::End,
    ];
    let block = make_block(&cards);
    let mut reader = BlockReader::new(block.as_bytes());
    let (header, blocks) = Header::read_from_block_reader(&mut reader).unwrap();
    assert_eq!(blocks, 1);
    assert_eq!(header.len(), 2);
    assert_eq!(
        header.get_value("LONGSTR"),
        Some(&CardValue::String("hello world".to_string()))
    );
}

#[test]
fn data_len_is_padded() {
    let mut header = Header::new();
    header.append(Card::Value { keyword: "BITPIX".into(), value: CardValue::Integer(16), comment: None });
    header.append(Card::Value { keyword: "NAXIS".into(), value: CardValue::Integer(2), comment: None });
    header.append(Card::Value { keyword: "NAXIS1".into(), value: CardValue::Integer(100), comment: None });
    header.append(Card::Value { keyword: "NAXIS2".into(), value: CardValue::Integer(50), comment: None });
    // 2 bytes * 5000 pixels = 10000 bytes = 4 blocks
    assert_eq!(header.data_len().unwrap(), 4 * 2880);
}

#[test]
fn write_then_read_header() {
    let mut header = Header::new();
    header.append(Card::Value { keyword: "SIMPLE".into(), value: CardValue::Logical(true), comment: None });
    header.append(Card::Value { keyword: "NAXIS".into(), value: CardValue::Integer(0), comment: None });
    header.append(Card::End);
    let mut buf = Vec::new();
    header.write_to_writer(&mut buf).unwrap();
    assert_eq!(buf.len(), 2880);
    let mut reader = BlockReader::new(&buf);
    let (read, blocks) = Header::read_from_block_reader(&mut reader).unwrap();
    assert_eq!(blocks, 1);
    assert_eq!(read.len(), 3);
    assert_eq!(read.naxis().unwrap(), 0);
}

#[test]
fn written_header_reads_back() {
    let mut h = Header::new();
    h.append(Card::Xtension { x: XtensionType::Image, comment: Some("image extension".into()) });
    h.append(Card::Value {
        keyword: "BITPIX".into(),
        value: CardValue::Integer(-32),
        comment: Some("bits per pixel".into()),
    });
    h.append(Card::Value {
        keyword: "EXTNAME".into(),
        value: CardValue::String("SCI".into()),
        comment: None,
    });
    h.append(Card::Value { keyword: "INHERIT".into(), value: CardValue::Logical(true), comment: None });
    h.append(Card::Comment("a comment".into()));
    h.append(Card::History("a history line".into()));
    h.append(Card::Blank);
    h.append(Card::End);

    let mut bytes = Vec::new();
    h.write_to_writer(&mut bytes).unwrap();
    assert_eq!(bytes.len(), 2880);
    let mut reader = BlockReader::new(&bytes[..]);
    let (back, blocks) = Header::read_from_block_reader(&mut reader).unwrap();
    assert_eq!(blocks, 1);
    assert_eq!(back.len(), h.len());
    assert_eq!(
        back.cards()[0],
        Card::Xtension { x: XtensionType::Image, comment: Some(" image extension".into()) }
    );
    assert_eq!(
        back.cards()[1],
        Card::Value {
            keyword: "BITPIX".into(),
            value: CardValue::Integer(-32),
            comment: Some(" bits per pixel".into()),
        }
    );
    for i in 2..h.len() {
        assert_eq!(back.cards()[i], h.cards()[i]);
    }
}

#[test]
fn written_long_string_reads_back() {
    let long: String = (0..150).map(|i| if i % 7 == 3 { '\'' } else { (b'a' + (i % 26) as u8) as char }).collect();
    let mut h = Header::new();
    h.append(Card::Value {
        keyword: "LONGSTRN".into(),
        value: CardValue::String("OGIP 1.0".into()),
        comment: None,
    });
    h.append(Card::Value {
        keyword: "LONGVAL".into(),
        value: CardValue::String(long.clone()),
        comment: Some("a long value".into()),
    });
    h.append(Card::End);

    let mut bytes = Vec::new();
    h.write_to_writer(&mut bytes).unwrap();
    let mut reader = BlockReader::new(&bytes[..]);
    let (back, _) = Header::read_from_block_reader(&mut reader).unwrap();
    assert_eq!(back.len(), 3);
    assert_eq!(
        back.get("LONGVAL"),
        Some(&Card::Value {
            keyword: "LONGVAL".into(),
            value: CardValue::String(long),
            comment: Some(" a long value".into()),
        })
    );
}
