use fefits::card::{Card, CardValue};
use fefits::error::Error;
use fefits::fits::compression::{AlgoParams, CmpType, CompressionHeader, QuantizeMethod, TileGeometry};
use fefits::header::Header;
use fefits::Bitpix;

fn int_card(keyword: &str, value: i64) -> Card {
    Card::Value { keyword: keyword.to_string(), value: CardValue::Integer(value), comment: None }
}

fn str_card(keyword: &str, value: &str) -> Card {
    Card::Value {
        keyword: keyword.to_string(),
        value: CardValue::String(value.to_string()),
        comment: None,
    }
}

#[test]
fn test_cmptype_all_known_values() {
    let cases = [
        ("RICE_1", CmpType::Rice),
        ("GZIP_1", CmpType::Gzip1),
        ("GZIP_2", CmpType::Gzip2),
        ("HCOMPRESS_1", CmpType::HCompress),
        ("PLIO_1", CmpType::Plio),
    ];
    for (s, expected) in cases {
        let mut h = Header::new();
        h.set(str_card("ZCMPTYPE", s));
        assert_eq!(CmpType::from_header(&h).unwrap(), expected);
    }
}

#[test]
fn test_cmptype_unknown_returns_unsupported() {
    let mut h = Header::new();
    h.set(str_card("ZCMPTYPE", "WAVELET_2"));
    assert!(matches!(CmpType::from_header(&h), Err(Error::UnsupportedFeature(_))));
}

#[test]
fn test_algo_params_rice_defaults() {
    let h = Header::new();
    let params = AlgoParams::from_header(&h, &CmpType::Rice).unwrap();
    assert_eq!(params, AlgoParams::Rice { block_size: 32, byte_pix: 4 });
}

#[test]
fn test_algo_params_rice_explicit() {
    let mut h = Header::new();
    h.set(int_card("ZVAL1", 16));
    h.set(int_card("ZVAL2", 4));
    let params = AlgoParams::from_header(&h, &CmpType::Rice).unwrap();
    assert_eq!(params, AlgoParams::Rice { block_size: 16, byte_pix: 4 });
}

#[test]
fn test_algo_params_none_for_non_rice() {
    let h = Header::new();
    for cmp in [CmpType::Gzip1, CmpType::Gzip2, CmpType::HCompress, CmpType::Plio] {
        assert_eq!(AlgoParams::from_header(&h, &cmp).unwrap(), AlgoParams::Other);
    }
}

#[test]
fn test_quantize_method_all_known_values() {
    let cases = [
        ("NO_DITHER", QuantizeMethod::NoDither),
        ("SUBTRACTIVE_DITHER_1", QuantizeMethod::SubtractiveDither1),
        ("SUBTRACTIVE_DITHER_2", QuantizeMethod::SubtractiveDither2),
    ];
    for (s, expected) in cases {
        let mut h = Header::new();
        h.set(str_card("ZQUANTIZ", s));
        assert_eq!(QuantizeMethod::from_header(&h).unwrap(), Some(expected));
    }
}

#[test]
fn test_quantize_method_absent_is_none() {
    assert_eq!(QuantizeMethod::from_header(&Header::new()).unwrap(), None);
}

#[test]
fn test_quantize_method_unknown_returns_unsupported() {
    let mut h = Header::new();
    h.set(str_card("ZQUANTIZ", "SPECIAL_DITHER"));
    assert!(matches!(QuantizeMethod::from_header(&h), Err(Error::UnsupportedFeature(_))));
}

fn full_compression_header() -> Header {
    let mut h = Header::new();
    h.set(int_card("ZBITPIX", 16));
    h.set(str_card("ZCMPTYPE", "RICE_1"));
    h.set(int_card("ZNAXIS", 2));
    h.set(int_card("ZNAXIS1", 100));
    h.set(int_card("ZNAXIS2", 50));
    h
}

#[test]
fn test_compression_header_rice_defaults() {
    let h = full_compression_header();
    let ch = CompressionHeader::from_header(&h).unwrap();
    assert_eq!(ch.bitpix, Bitpix::SignedShort);
    assert_eq!(ch.cmp_type, CmpType::Rice);
    assert_eq!(ch.algo_params, AlgoParams::Rice { block_size: 32, byte_pix: 4 });
    assert_eq!(ch.quantize, None);
    assert_eq!(ch.tiles.image_shape, vec![100, 50]);
    assert_eq!(ch.tiles.tile_shape, vec![100, 1]);
}

#[test]
fn test_compression_header_rice_params() {
    let mut h = full_compression_header();
    h.set(int_card("ZVAL1", 16));
    h.set(int_card("ZVAL2", 2));
    h.set(int_card("ZTILE1", 32));
    h.set(int_card("ZTILE2", 32));
    let ch = CompressionHeader::from_header(&h).unwrap();
    assert_eq!(ch.algo_params, AlgoParams::Rice { block_size: 16, byte_pix: 2 });
    assert_eq!(ch.tiles.tile_shape, vec![32, 32]);
    assert_eq!(ch.tiles.total_tiles(), 8);
}

#[test]
fn test_compression_header_missing_zbitpix() {
    let mut h = full_compression_header();
    h.remove("ZBITPIX");
    assert!(matches!(
        CompressionHeader::from_header(&h),
        Err(Error::MissingKeyword("ZBITPIX"))
    ));
}

fn tile_geometry_header(znaxis: i64, axes: &[(i64, Option<i64>)]) -> Header {
    let mut h = Header::new();
    h.set(int_card("ZNAXIS", znaxis));
    for (i, (naxisn, tilen)) in axes.iter().enumerate() {
        let n = i + 1;
        h.set(int_card(&format!("ZNAXIS{n}"), *naxisn));
        if let Some(t) = tilen {
            h.set(int_card(&format!("ZTILE{n}"), *t));
        }
    }
    h
}

#[test]
fn test_tile_geometry_default_row_by_row() {
    let h = tile_geometry_header(2, &[(8, None), (6, None)]);
    let g = TileGeometry::from_header(&h).unwrap();
    assert_eq!(g.image_shape, vec![8, 6]);
    assert_eq!(g.tile_shape, vec![8, 1]);
    assert_eq!(g.ntiles_along(1), 1);
    assert_eq!(g.ntiles_along(2), 6);
    assert_eq!(g.total_tiles(), 6);
}

#[test]
fn test_tile_geometry_square_tiles() {
    let h = tile_geometry_header(2, &[(8, Some(4)), (6, Some(3))]);
    let g = TileGeometry::from_header(&h).unwrap();
    assert_eq!(g.image_shape, vec![8, 6]);
    assert_eq!(g.tile_shape, vec![4, 3]);
    assert_eq!(g.ntiles_along(1), 2);
    assert_eq!(g.ntiles_along(2), 2);
    assert_eq!(g.total_tiles(), 4);
}

#[test]
fn test_tile_geometry_partial_edge_tiles() {
    let h = tile_geometry_header(2, &[(10, Some(3)), (7, Some(3))]);
    let g = TileGeometry::from_header(&h).unwrap();
    assert_eq!(g.ntiles_along(1), 4);
    assert_eq!(g.ntiles_along(2), 3);
    assert_eq!(g.total_tiles(), 12);
}

#[test]
fn test_znaxisn() {
    let mut header = Header::new();
    header.append(int_card("ZNAXIS", 2));
    header.append(int_card("ZNAXIS1", 100));
    header.append(int_card("ZNAXIS2", 50));
    assert_eq!(header.znaxis().unwrap(), 2);
    assert_eq!(header.znaxisn(1).unwrap(), 100);
    assert_eq!(header.znaxisn(2).unwrap(), 50);
}

fn geom(image: &[u64], tile: &[u64]) -> TileGeometry {
    TileGeometry { image_shape: image.to_vec(), tile_shape: tile.to_vec() }
}

#[test]
fn test_tile_n_pixels_full_tiles() {
    let g = geom(&[8, 6], &[4, 3]);
    for t in 0..g.total_tiles() {
        assert_eq!(g.tile_n_pixels(t), 12, "tile {t}");
    }
}

#[test]
fn test_tile_n_pixels_edge_tiles() {
    let g = geom(&[10, 7], &[4, 3]);
    assert_eq!(g.tile_n_pixels(0), 12);
    assert_eq!(g.tile_n_pixels(2), 6);
    assert_eq!(g.tile_n_pixels(6), 4);
    assert_eq!(g.tile_n_pixels(8), 2);
}

#[test]
fn test_tile_n_pixels_row_by_row() {
    let g = geom(&[100, 50], &[100, 1]);
    for t in 0..50 {
        assert_eq!(g.tile_n_pixels(t), 100);
    }
}

#[test]
fn test_place_tile_row_by_row() {
    let g = geom(&[4, 3], &[4, 1]);
    let mut out = vec![0i32; 12];
    g.place_tile(&[1, 2, 3, 4], 0, &mut out);
    g.place_tile(&[5, 6, 7, 8], 1, &mut out);
    g.place_tile(&[9, 10, 11, 12], 2, &mut out);
    assert_eq!(out, vec![1, 2, 3, 4, 5, 6, 7, 8, 9, 10, 11, 12]);
}

#[test]
fn test_place_tile_square() {
    let g = geom(&[4, 4], &[2, 2]);
    let mut out = vec![0i32; 16];
    g.place_tile(&[1, 2, 3, 4], 0, &mut out);
    g.place_tile(&[5, 6, 7, 8], 1, &mut out);
    g.place_tile(&[9, 10, 11, 12], 2, &mut out);
    g.place_tile(&[13, 14, 15, 16], 3, &mut out);
    assert_eq!(
        out,
        vec![
            1, 2, 5, 6, //
            3, 4, 7, 8, //
            9, 10, 13, 14, //
            11, 12, 15, 16
        ]
    );
}

#[test]
fn test_place_tile_edge() {
    let g = geom(&[6, 4], &[4, 3]);
    let mut out = vec![0i32; 24];
    g.place_tile(&[100, 200], 3, &mut out);
    assert_eq!(out[22], 100);
    assert_eq!(out[23], 200);
    assert!(out[..22].iter().all(|&v| v == 0));
    assert!(out[24..].iter().all(|&v| v == 0));
}

// Further cases.

#[test]
fn ztile_must_be_positive() {
    let h = tile_geometry_header(2, &[(8, Some(0)), (6, None)]);
    assert!(matches!(TileGeometry::from_header(&h), Err(Error::InvalidHeader(_))));
}

#[test]
fn zbitpix_invalid_value() {
    let mut h = full_compression_header();
    h.set(int_card("ZBITPIX", 12));
    assert!(matches!(
        CompressionHeader::from_header(&h),
        Err(Error::InvalidKeywordValue { keyword: "ZBITPIX", .. })
    ));
}

#[test]
fn tiles_fill_every_pixel_once() {
    for (image, tiles) in [
        (vec![10u64, 7], vec![4u64, 3]),
        (vec![5, 4, 3], vec![2, 3, 2]),
        (vec![100, 50], vec![100, 1]),
    ] {
        let g = TileGeometry { image_shape: image.clone(), tile_shape: tiles };
        let total: usize = image.iter().map(|&d| d as usize).product();
        let mut out = vec![0i32; total];
        let mut next = 1i32;
        for t in 0..g.total_tiles() {
            let n = g.tile_n_pixels(t);
            let pixels: Vec<i32> = (0..n as i32).map(|k| next + k).collect();
            next += n as i32;
            g.place_tile(&pixels, t, &mut out);
        }
        let mut seen = out.clone();
        seen.sort();
        assert_eq!(seen, (1..=total as i32).collect::<Vec<_>>());
    }
}

#[test]
fn tile_geometry_errors_name_the_keyword() {
    let mut h = tile_geometry_header(2, &[(8, Some(4)), (6, Some(-2))]);
    match TileGeometry::from_header(&h) {
        Err(Error::InvalidHeader(m)) => assert_eq!(m, "ZTILE2 must be a positive integer"),
        other => panic!("unexpected {other:?}"),
    }
    h.remove("ZNAXIS2");
    match TileGeometry::from_header(&h) {
        Err(Error::InvalidHeader(m)) => assert_eq!(m, "missing ZNAXIS2 keyword"),
        other => panic!("unexpected {other:?}"),
    }
    h.remove("ZNAXIS");
    assert!(matches!(TileGeometry::from_header(&h), Err(Error::MissingKeyword("ZNAXIS"))));
    h.set(int_card("ZNAXIS", 1000));
    assert!(matches!(
        TileGeometry::from_header(&h),
        Err(Error::InvalidKeywordValue { keyword: "ZNAXIS", .. })
    ));
}

#[test]
fn compression_header_errors_in_order() {
    let mut h = full_compression_header();
    h.remove("ZCMPTYPE");
    assert!(matches!(
        CompressionHeader::from_header(&h),
        Err(Error::MissingKeyword("ZCMPTYPE"))
    ));
    h.set(int_card("ZCMPTYPE", 1));
    assert!(matches!(
        CompressionHeader::from_header(&h),
        Err(Error::InvalidKeywordValue { keyword: "ZCMPTYPE", .. })
    ));
    h.set(str_card("ZCMPTYPE", "RICE_1"));
    h.set(str_card("ZQUANTIZ", "SOMETHING_ELSE"));
    assert!(matches!(CompressionHeader::from_header(&h), Err(Error::UnsupportedFeature(_))));
    h.set(int_card("ZQUANTIZ", 3));
    assert!(matches!(
        CompressionHeader::from_header(&h),
        Err(Error::InvalidKeywordValue { keyword: "ZQUANTIZ", .. })
    ));
    h.remove("ZQUANTIZ");
    h.remove("ZNAXIS");
    assert!(matches!(
        CompressionHeader::from_header(&h),
        Err(Error::MissingKeyword("ZNAXIS"))
    ));
}

#[test]
fn an_image_with_an_empty_axis_has_no_tiles() {
    let g = geom(&[0, 5], &[2, 2]);
    assert_eq!(g.total_tiles(), 0);
    let g = geom(&[4, 0, 3], &[4, 1, 1]);
    assert_eq!(g.total_tiles(), 0);
}

#[test]
fn unknown_algorithm_names_are_given() {
    let mut h = Header::new();
    h.set(str_card("ZCMPTYPE", "WAVELET_2"));
    match CmpType::from_header(&h) {
        Err(Error::UnsupportedFeature(m)) => assert_eq!(m, "unknown ZCMPTYPE 'WAVELET_2'"),
        other => panic!("unexpected {other:?}"),
    }
    h.set(str_card("ZQUANTIZ", "DITHER_9"));
    match QuantizeMethod::from_header(&h) {
        Err(Error::UnsupportedFeature(m)) => assert_eq!(m, "unknown ZQUANTIZ 'DITHER_9'"),
        other => panic!("unexpected {other:?}"),
    }
}
