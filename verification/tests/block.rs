use fefits::error::{Error, IoErrorKind};
use fefits::io::{blocks_needed, padded_size, padding_bytes, Block, BlockReader, BlockWriter};

#[test]
fn thirty_six_records() {
    let block = Block::zeroed();
    let records = block.records();
    assert_eq!(records.len(), 36);
}

#[test]
fn read_block() {
    let data = [1u8; 2880 * 2];
    let mut reader = BlockReader::new(&data[..]);

    let block = reader.read_block().unwrap();
    assert_eq!(block.as_bytes(), &data[..2880]);
    assert_eq!(reader.blocks_read, 1);

    let block = reader.read_block().unwrap();
    assert_eq!(block.as_bytes(), &data[2880..]);
    assert_eq!(reader.blocks_read, 2);
}

#[test]
fn incomplete_read() {
    let data = [0; 1000];
    let mut reader = BlockReader::new(&data[..]);
    let result = reader.read_block();
    assert!(matches!(
        result,
        Err(Error::Io(e)) if e.kind() == IoErrorKind::UnexpectedEof
    ));
}

#[test]
fn alignment() {
    assert_eq!(blocks_needed(0), 0);
    assert_eq!(blocks_needed(1), 1);
    assert_eq!(blocks_needed(2880), 1);
    assert_eq!(blocks_needed(2881), 2);

    assert_eq!(padded_size(400), 2880);
    assert_eq!(padded_size(2880), 2880);
    assert_eq!(padded_size(2881), 5760);

    assert_eq!(padding_bytes(400), 2480);
    assert_eq!(padding_bytes(2880), 0);
}

// Further cases.

#[test]
fn set_record_and_records() {
    let mut block = Block::blank();
    let rec = [b'A'; 80];
    block.set_record(3, &rec);
    let records = block.records();
    assert_eq!(records[3], rec);
    assert_eq!(records[2], [b' '; 80]);
    assert_eq!(block.as_bytes()[240..320], rec[..]);
    block.as_bytes_mut()[0] = b'Z';
    assert_eq!(block.as_bytes()[0], b'Z');
}

#[test]
fn writer_fills_last_block() {
    let mut w = BlockWriter::new(Vec::new());
    for _ in 0..37 {
        w.write_record(&[b'X'; 80]).unwrap();
    }
    assert_eq!(w.blocks_written(), 1);
    let (blocks, bytes) = w.finish();
    assert_eq!(blocks, 2);
    assert_eq!(bytes.len(), 5760);
    assert_eq!(bytes[2880 + 79], b'X');
    assert_eq!(bytes[2880 + 80], b' ');
}

#[test]
fn writer_blocks_follow_the_records() {
    let mut w = BlockWriter::new(Vec::new());
    for k in 0..73u8 {
        w.write_record(&[b'A' + (k % 26); 80]).unwrap();
        assert_eq!(w.blocks_written(), (k as u64 + 1) / 36);
    }
    let (blocks, bytes) = w.finish();
    assert_eq!(blocks, 3);
    assert_eq!(bytes.len(), 3 * 2880);
    let mut reader = BlockReader::new(&bytes);
    for k in 0..108usize {
        if k % 36 == 0 {
            let block = reader.read_block().unwrap();
            let records = block.records();
            for j in 0..36 {
                let n = k + j;
                let expected = if n < 73 { [b'A' + (n % 26) as u8; 80] } else { [b' '; 80] };
                assert_eq!(records[j], expected);
            }
        }
    }
}

#[test]
fn writer_with_no_records_writes_nothing() {
    let w = BlockWriter::new(Vec::new());
    let (blocks, bytes) = w.finish();
    assert_eq!(blocks, 0);
    assert!(bytes.is_empty());
}

#[test]
fn writer_appends_after_what_the_vector_held() {
    let mut w = BlockWriter::new(vec![7u8; 5]);
    w.write_record(&[b'Q'; 80]).unwrap();
    let (blocks, bytes) = w.finish();
    assert_eq!(blocks, 1);
    assert_eq!(bytes.len(), 5 + 2880);
    assert_eq!(&bytes[..5], &[7u8; 5]);
    assert_eq!(&bytes[5..85], &[b'Q'; 80][..]);
    assert!(bytes[85..].iter().all(|&b| b == b' '));
}

#[test]
fn written_blocks_read_back_as_the_records_then_blanks() {
    for k in [0usize, 1, 35, 36, 37, 72, 100] {
        let mut w = BlockWriter::new(Vec::new());
        let recs: Vec<[u8; 80]> = (0..k).map(|i| [b'0' + (i % 10) as u8; 80]).collect();
        for (i, r) in recs.iter().enumerate() {
            w.write_record(r).unwrap();
            assert_eq!(w.blocks_written(), ((i + 1) / 36) as u64);
        }
        let (blocks, bytes) = w.finish();
        let nb = k.div_ceil(36);
        assert_eq!(blocks, nb as u64);
        assert_eq!(bytes.len(), nb * 2880);
        let mut reader = BlockReader::new(&bytes);
        for j in 0..nb {
            let records = reader.read_block().unwrap().records();
            for i in 0..36 {
                let n = 36 * j + i;
                let expected = if n < k { recs[n] } else { [b' '; 80] };
                assert_eq!(records[i], expected);
            }
        }
        assert!(reader.read_block().is_err());
    }
}
