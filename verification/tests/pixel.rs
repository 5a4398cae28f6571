use fefits::pixel::{
    narrow_to_i16, narrow_to_u8, signed_from_offset_u8, unsigned_from_offset_i16, unsigned_from_offset_i32,
    unsigned_from_offset_i64, Pixel,
};
use fefits::Bitpix;

#[test]
fn pixel_bitpix_of_each_type() {
    assert_eq!(<u8 as Pixel>::bitpix(), Bitpix::UnsignedByte);
    assert_eq!(<i16 as Pixel>::bitpix(), Bitpix::SignedShort);
    assert_eq!(<i32 as Pixel>::bitpix(), Bitpix::SignedInt);
    assert_eq!(<i64 as Pixel>::bitpix(), Bitpix::SignedLong);
}

#[test]
fn pixel_from_be_bytes_values() {
    assert_eq!(<u8 as Pixel>::from_be_bytes(&[0xAB]), 0xAB);
    assert_eq!(<i16 as Pixel>::from_be_bytes(&[0x12, 0x34]), 0x1234);
    assert_eq!(<i16 as Pixel>::from_be_bytes(&[0xFF, 0xFE]), -2);
    assert_eq!(<i16 as Pixel>::from_be_bytes(&[0x80, 0x00]), i16::MIN);
    assert_eq!(<i32 as Pixel>::from_be_bytes(&[0x80, 0, 0, 1]), i32::MIN + 1);
    assert_eq!(<i64 as Pixel>::from_be_bytes(&[0x7F, 0xFF, 0xFF, 0xFF, 0xFF, 0xFF, 0xFF, 0xFF]), i64::MAX);
}

#[test]
fn pixel_to_be_bytes_values() {
    assert_eq!(Pixel::to_be_bytes(7u8), vec![7u8]);
    assert_eq!(Pixel::to_be_bytes(-1i16), vec![0xFF, 0xFF]);
    assert_eq!(Pixel::to_be_bytes(0x0102_0304i32), vec![1, 2, 3, 4]);
    assert_eq!(Pixel::to_be_bytes(i64::MIN), vec![0x80, 0, 0, 0, 0, 0, 0, 0]);
}

#[test]
fn pixel_bytes_round_trip() {
    for v in [i16::MIN, -300, -1, 0, 1, 300, i16::MAX] {
        assert_eq!(<i16 as Pixel>::from_be_bytes(&Pixel::to_be_bytes(v)), v);
    }
    for v in [i32::MIN, -70000, 0, 70000, i32::MAX] {
        assert_eq!(<i32 as Pixel>::from_be_bytes(&Pixel::to_be_bytes(v)), v);
    }
    for v in [i64::MIN, -1, 0, 1 << 40, i64::MAX] {
        assert_eq!(<i64 as Pixel>::from_be_bytes(&Pixel::to_be_bytes(v)), v);
    }
}

#[test]
fn unsigned_convention_conversions() {
    assert_eq!(signed_from_offset_u8(&[0, 128, 255]), vec![-128i8, 0, 127]);
    assert_eq!(unsigned_from_offset_i16(&[i16::MIN, i16::MAX, 0]), vec![0u16, 65535, 32768]);
    assert_eq!(unsigned_from_offset_i32(&[i32::MIN, -1, i32::MAX]), vec![0u32, 0x7FFF_FFFF, u32::MAX]);
    assert_eq!(unsigned_from_offset_i64(&[i64::MIN, 0, i64::MAX]), vec![0u64, 1 << 63, u64::MAX]);
}

#[test]
fn narrowing_keeps_the_low_bits() {
    assert_eq!(narrow_to_u8(&[0, 42, 255, 256, 300, -1, -128]), vec![0u8, 42, 255, 0, 44, 255, 128]);
    assert_eq!(
        narrow_to_i16(&[0, 42, 32767, 32768, 70000, -1, -32769]),
        vec![0i16, 42, 32767, -32768, 4464, -1, 32767]
    );
    assert!(narrow_to_u8(&[]).is_empty());
}
