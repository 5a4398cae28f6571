use fefits::error::Error;
use fefits::fits::rice::rice_decompress;

#[test]
fn test_low_entropy_identical_pixels() {
    let input = [0x00u8, 0x00, 0x00, 0x64, 0x00];
    assert_eq!(rice_decompress(&input, 4, 4, 4).unwrap(), vec![100, 100, 100, 100]);
}

#[test]
fn test_rice_sequential_increasing() {
    let input = [0x00u8, 0x00, 0x00, 0x64, 0x0C, 0x92];
    assert_eq!(rice_decompress(&input, 4, 4, 4).unwrap(), vec![100, 101, 102, 103]);
}

#[test]
fn test_rice_sequential_decreasing() {
    let input = [0x00u8, 0x00, 0x00, 0x64, 0x14, 0x66, 0x60];
    assert_eq!(rice_decompress(&input, 4, 4, 4).unwrap(), vec![100, 97, 94, 91]);
}

#[test]
fn test_multi_block() {
    let input = [0x00u8, 0x00, 0x00, 0x64, 0x00, 0x00];
    assert_eq!(
        rice_decompress(&input, 8, 4, 4).unwrap(),
        vec![100, 100, 100, 100, 100, 100, 100, 100]
    );
}

#[test]
fn test_single_pixel() {
    let input = [0x00u8, 0x00, 0x00, 0x64, 0x00];
    assert_eq!(rice_decompress(&input, 1, 4, 4).unwrap(), vec![100]);
}

#[test]
fn test_empty_returns_empty() {
    assert_eq!(rice_decompress(&[], 0, 32, 4).unwrap(), Vec::<i32>::new());
}

#[test]
fn test_input_too_short_returns_error() {
    assert!(matches!(rice_decompress(&[0, 0, 0, 100], 1, 4, 4), Err(Error::InvalidHDU(_))));
}

#[test]
fn test_invalid_byte_pix_returns_error() {
    assert!(matches!(rice_decompress(&[0; 8], 1, 4, 3), Err(Error::InvalidHDU(_))));
}

#[test]
fn rice_high_entropy_block_bytes() {
    // byte_pix = 1: first pixel 10, selector 7 (= fs_max + 1) marks raw 8-bit codes.
    // codes: 2 (+1), 3 (-2) -> pixels 11, 9.
    // bits after the first byte: 111 00000010 00000011 (padded)
    let input = [10u8, 0b1110_0000, 0b0100_0000, 0b0110_0000];
    assert_eq!(rice_decompress(&input, 2, 2, 1).unwrap(), vec![11, 9]);
}

#[test]
fn rice_short_pixels_sign_extend() {
    // byte_pix = 2: first pixel 0xFFFF (-1 as i16), low entropy block.
    let input = [0xFFu8, 0xFF, 0x00];
    assert_eq!(rice_decompress(&input, 3, 32, 2).unwrap(), vec![-1, -1, -1]);
}

#[test]
fn rice_truncated_data_is_error() {
    // selector 2 (fs = 1) and then no one-bit for the unary part.
    let input = [0x00u8, 0x00, 0x00, 0x64, 0b0001_0000];
    assert!(matches!(rice_decompress(&input, 4, 4, 4), Err(Error::InvalidHDU(_))));
}

#[test]
fn rice_zero_block_size_is_error() {
    let input = [0x00u8, 0x00, 0x00, 0x64, 0x00];
    assert!(matches!(rice_decompress(&input, 4, 0, 4), Err(Error::InvalidHDU(_))));
}

#[test]
fn decoding_fewer_pixels_gives_a_prefix_of_the_longer_result() {
    let input = [0x00u8, 0x00, 0x00, 0x64, 0x14, 0x66, 0x60];
    let all = rice_decompress(&input, 4, 4, 4).unwrap();
    for m in 0..=4 {
        assert_eq!(rice_decompress(&input, m, 4, 4).unwrap(), all[..m].to_vec());
    }
    let input = [0x00u8, 0x00, 0x00, 0x64, 0x00, 0x00];
    let all = rice_decompress(&input, 8, 4, 4).unwrap();
    for m in 0..=8 {
        assert_eq!(rice_decompress(&input, m, 4, 4).unwrap(), all[..m].to_vec());
    }
}

#[test]
fn rice_errors_give_the_values() {
    match rice_decompress(&[0u8; 8], 4, 32, 3).unwrap_err() {
        Error::InvalidHDU(m) => assert_eq!(m, "rice: byte_pix must be 1, 2, or 4, got 3"),
        other => panic!("unexpected {other:?}"),
    }
    match rice_decompress(&[0u8; 2], 4, 32, 4).unwrap_err() {
        Error::InvalidHDU(m) => assert_eq!(m, "rice: input too short (2 bytes) for 4-byte pixels"),
        other => panic!("unexpected {other:?}"),
    }
    match rice_decompress(&[0x00u8, 0x00, 0x00, 0x64, 0b0001_0000], 4, 4, 4).unwrap_err() {
        Error::InvalidHDU(m) => assert_eq!(m, "rice: unexpected end of compressed data"),
        other => panic!("unexpected {other:?}"),
    }
}
