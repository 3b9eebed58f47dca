//! Whole-pipeline tests on synthetic FITS files: shape decoding, the
//! linear rescale, Bayer detection and reconstruction, rendering, and the
//! error cases.

use fastfits::cfa::CfaPattern;
use fastfits::demosaic::DemosaicMode;
use fastfits::error::FitsError;
use fastfits::fits::{is_fits_name, ChannelView, FitsImage, Stretch};
use fastfits::sample::SAMPLE_SCALE;

const S: i64 = SAMPLE_SCALE;

fn card(key: &str, value: &str) -> Vec<u8> {
    let mut s = format!("{:<8}= {}", key, value).into_bytes();
    assert!(s.len() <= 80);
    s.resize(80, b' ');
    s
}

fn raw_card(text: &str) -> Vec<u8> {
    let mut s = text.as_bytes().to_vec();
    assert!(s.len() <= 80);
    s.resize(80, b' ');
    s
}

fn header_block(cards: &[Vec<u8>]) -> Vec<u8> {
    let mut out = Vec::new();
    for c in cards {
        out.extend_from_slice(c);
    }
    out.extend_from_slice(&raw_card("END"));
    while out.len() % 2880 != 0 {
        out.push(b' ');
    }
    out
}

fn pad_data(mut data: Vec<u8>) -> Vec<u8> {
    while data.len() % 2880 != 0 {
        data.push(0);
    }
    data
}

/// A 16-bit file with the conventional unsigned convention
/// (`BZERO = 32768`), one or three planes.
fn fits_u16(width: usize, height: usize, planes: usize, extra: &[Vec<u8>], values: &[u16]) -> Vec<
    u8,
> {
    assert_eq!(values.len(), width * height * planes);
    let mut cards = vec![
        card("SIMPLE", "T"),
        card("BITPIX", "16"),
        card(
            "NAXIS",
            if planes == 1 {
                "2"
            } else {
                "3"
            },
        ),
        card("NAXIS1", &format!("{}", width)),
        card("NAXIS2", &format!("{}", height)),
    ];
    if planes != 1 {
        cards.push(card("NAXIS3", &format!("{}", planes)));
    }
    cards.push(card("BZERO", "32768"));
    cards.push(card("BSCALE", "1.0"));
    for c in extra {
        cards.push(c.clone());
    }
    let mut file = header_block(&cards);
    let mut data = Vec::new();
    for &v in values {
        let stored = (v as i32 - 32768) as i16;
        data.extend_from_slice(&stored.to_be_bytes());
    }
    file.extend_from_slice(&pad_data(data));
    file
}

#[test]
fn two_axis_shape_decodes() {
    let vals: Vec<u16> = vec![100u16; 100 * 50];
    let file = fits_u16(100, 50, 1, &[], &vals);
    let img = FitsImage::load(&file, DemosaicMode::Bilinear).unwrap();
    assert_eq!(img.width, 100);
    assert_eq!(img.height, 50);
    assert_eq!(img.channels, 1);
    assert_eq!(img.data.len(), 100 * 50);
    assert_eq!(img.bitdepth_max, 65535 * S);
    assert!(img.data.iter().all(|&v| v == 100 * S));
}

#[test]
fn three_axis_shape_decodes() {
    let vals: Vec<u16> = vec![7u16; 100 * 50 * 3];
    let file = fits_u16(100, 50, 3, &[], &vals);
    let img = FitsImage::load(&file, DemosaicMode::Bilinear).unwrap();
    assert_eq!(img.width, 100);
    assert_eq!(img.height, 50);
    assert_eq!(img.channels, 3);
    assert_eq!(img.data.len(), 100 * 50 * 3);
}

#[test]
fn bscale_bzero_honored() {
    // stored 0 with BZERO=32768 decodes to 32768 physical units
    let vals: Vec<u16> = vec![32768u16; 4];
    let file = fits_u16(2, 2, 1, &[], &vals);
    let img = FitsImage::load(&file, DemosaicMode::Bilinear).unwrap();
    assert!(img.data.iter().all(|&v| v == 32768 * S));
}

#[test]
fn float_samples_decode() {
    let mut cards = vec![
        card("SIMPLE", "T"),
        card("BITPIX", "-32"),
        card("NAXIS", "2"),
        card("NAXIS1", "2"),
        card("NAXIS2", "2"),
    ];
    cards.push(card("OBJECT", "'float test'"));
    let mut file = header_block(&cards);
    let mut data = Vec::new();
    for v in [1.5f32, 2.5f32, f32::NAN, -1.0f32] {
        data.extend_from_slice(&v.to_bits().to_be_bytes());
    }
    file.extend_from_slice(&pad_data(data));
    let img = FitsImage::load(&file, DemosaicMode::Bilinear).unwrap();
    assert_eq!(img.bitdepth_max, 0);
    assert_eq!(img.data[0], 3 * S / 2);
    assert_eq!(img.data[1], 5 * S / 2);
    assert_eq!(img.data[2], 9_223_372_036_854_775_807); // non-finite sentinel
    assert_eq!(img.data[3], -S);
}

#[test]
fn headers_survive_decode() {
    let vals: Vec<u16> = vec![0u16; 4];
    let file = fits_u16(2, 2, 1, &[card("INSTRUME", "'MONOCAM'")], &vals);
    let img = FitsImage::load(&file, DemosaicMode::Bilinear).unwrap();
    assert!(img.headers.iter().any(|(k, v)| k == "INSTRUME" && v == "MONOCAM"));
    // keys ascending
    for w in img.headers.windows(2) {
        assert!(w[0].0 <= w[1].0);
    }
}

#[test]
fn bayer_round_trip_rggb() {
    // An 8x8 RGGB checkerboard mosaic with constant per-color levels:
    // bilinear reconstruction recovers three constant planes.
    let (w, h) = (8usize, 8usize);
    let mut vals: Vec<u16> = Vec::new();
    for y in 0..h {
        for x in 0..w {
            let v = match (y % 2, x % 2) {
                (0, 0) => 1000u16, // R
                (0, 1) => 2000u16, // G
                (1, 0) => 2000u16, // G
                _ => 3000u16,      // B
            };
            vals.push(v);
        }
    }
    let file = fits_u16(w, h, 1, &[card("BAYERPAT", "'RGGB'")], &vals);
    let img = FitsImage::load(&file, DemosaicMode::Bilinear).unwrap();
    assert_eq!(img.channels, 3);
    assert_eq!(img.bitdepth_max, 65535 * S);
    assert_eq!(img.data.len(), 3 * w * h);
    let npix = w * h;
    let tol = 2 * S;
    for i in 0..npix {
        assert!((img.data[i] - 1000 * S).abs() <= tol, "R plane at {}", i);
        assert!((img.data[npix + i] - 2000 * S).abs() <= tol, "G plane at {}", i);
        assert!((img.data[2 * npix + i] - 3000 * S).abs() <= tol, "B plane at {}", i);
    }
}

#[test]
fn bayer_detection_order() {
    // No BAYERPAT, but a color instrument: assumed RGGB, so three channels.
    let vals: Vec<u16> = vec![500u16; 64];
    let file = fits_u16(8, 8, 1, &[card("INSTRUME", "'ZWO ASI2600MC color'")], &vals);
    let img = FitsImage::load(&file, DemosaicMode::Bilinear).unwrap();
    assert_eq!(img.channels, 3);
    // An unknown instrument stays monochrome.
    let file2 = fits_u16(8, 8, 1, &[card("INSTRUME", "'SBIG STF-8300M'")], &vals);
    let img2 = FitsImage::load(&file2, DemosaicMode::Bilinear).unwrap();
    assert_eq!(img2.channels, 1);
    // COLORTYP works like BAYERPAT.
    let file3 = fits_u16(8, 8, 1, &[card("COLORTYP", "'BGGR'")], &vals);
    let img3 = FitsImage::load(&file3, DemosaicMode::Bilinear).unwrap();
    assert_eq!(img3.channels, 3);
}

#[test]
fn detect_bayer_pattern_table() {
    let mk = |k: &str, v: &str| (k.as_bytes().to_vec(), v.as_bytes().to_vec());
    let cards = vec![mk("BAYERPAT", "gbrg")];
    assert_eq!(
        fastfits::cfa::detect_bayer_pattern(&cards),
        Some(CfaPattern::Gbrg)
    );
    let cards = vec![mk("BAYERPAT", "XYZW"), mk("COLORTYP", "GRBG")];
    assert_eq!(
        fastfits::cfa::detect_bayer_pattern(&cards),
        Some(CfaPattern::Grbg)
    );
    let cards = vec![mk("INSTRUME", "My OSC Camera")];
    assert_eq!(
        fastfits::cfa::detect_bayer_pattern(&cards),
        Some(CfaPattern::Rggb)
    );
    let cards = vec![mk("INSTRUME", "Plain mono")];
    assert_eq!(fastfits::cfa::detect_bayer_pattern(&cards), None);
}

#[test]
fn no_image_hdu_is_not_found() {
    let file = header_block(&[card("SIMPLE", "T"), card("NAXIS", "0"), card("BITPIX", "8")]);
    assert!(matches!(
        FitsImage::load(&file, DemosaicMode::Bilinear),
        Err(FitsError::NotFound)
    ));
    assert!(matches!(
        FitsImage::load(&[], DemosaicMode::Bilinear),
        Err(FitsError::NotFound)
    ));
}

#[test]
fn one_axis_is_unsupported() {
    let mut file = header_block(&[
        card("SIMPLE", "T"),
        card("BITPIX", "16"),
        card("NAXIS", "1"),
        card("NAXIS1", "5"),
    ]);
    file.extend_from_slice(&pad_data(vec![0u8; 10]));
    assert!(matches!(
        FitsImage::load(&file, DemosaicMode::Bilinear),
        Err(FitsError::UnsupportedFormat)
    ));
}

#[test]
fn truncated_data_is_file_error() {
    // Header promises 100x50 16-bit samples but no data follows.
    let file = header_block(&[
        card("SIMPLE", "T"),
        card("BITPIX", "16"),
        card("NAXIS", "2"),
        card("NAXIS1", "100"),
        card("NAXIS2", "50"),
    ]);
    assert!(matches!(
        FitsImage::load(&file, DemosaicMode::Bilinear),
        Err(FitsError::FileError)
    ));
}

#[test]
fn bad_bitpix_is_format_error() {
    let mut file = header_block(&[
        card("SIMPLE", "T"),
        card("BITPIX", "17"),
        card("NAXIS", "2"),
        card("NAXIS1", "2"),
        card("NAXIS2", "2"),
    ]);
    file.extend_from_slice(&pad_data(vec![0u8; 16]));
    assert!(matches!(
        FitsImage::load(&file, DemosaicMode::Bilinear),
        Err(FitsError::FormatError)
    ));
}

#[test]
fn rgba_gray_shape_and_alpha() {
    let vals: Vec<u16> = (0..16u16).collect();
    let file = fits_u16(4, 4, 1, &[], &vals);
    let img = FitsImage::load(&file, DemosaicMode::Bilinear).unwrap();
    let rgba = img.to_rgba(Stretch::Linear, ChannelView::Single(0));
    assert_eq!(rgba.len(), 4 * 4 * 4);
    for px in 0..16 {
        assert_eq!(rgba[4 * px + 3], 255);
        assert_eq!(rgba[4 * px], rgba[4 * px + 1]);
        assert_eq!(rgba[4 * px], rgba[4 * px + 2]);
    }
    // darkest pixel renders black, brightest white, under the linear ramp
    assert_eq!(rgba[0], 0);
    assert_eq!(rgba[4 * 15], 255);
}

#[test]
fn rgba_constant_plane_autostretch_is_mid_gray() {
    let vals: Vec<u16> = vec![777u16; 16];
    let file = fits_u16(4, 4, 1, &[], &vals);
    let img = FitsImage::load(&file, DemosaicMode::Bilinear).unwrap();
    let rgba = img.to_rgba(Stretch::AutoStretch, ChannelView::Single(0));
    for px in 0..16 {
        assert_eq!(rgba[4 * px], 128);
        assert_eq!(rgba[4 * px + 3], 255);
    }
}

#[test]
fn rgba_channel_select_clamps() {
    let mut vals: Vec<u16> = vec![0u16; 2 * 2 * 3];
    // plane 2 (blue) brightest
    for i in 8..12 {
        vals[i] = 60000;
    }
    let file = fits_u16(2, 2, 3, &[], &vals);
    let img = FitsImage::load(&file, DemosaicMode::Bilinear).unwrap();
    let composite = img.to_rgba(Stretch::Linear, ChannelView::Rgb);
    assert_eq!(composite.len(), 16);
    // out-of-range channel index clamps to the last plane
    let b1 = img.to_rgba(Stretch::Linear, ChannelView::Single(2));
    let b2 = img.to_rgba(Stretch::Linear, ChannelView::Single(99));
    assert_eq!(b1, b2);
}

#[test]
fn fits_name_filter() {
    assert!(is_fits_name(b"m31.fits"));
    assert!(is_fits_name(b"m31.FIT"));
    assert!(is_fits_name(b"frame.fz"));
    assert!(!is_fits_name(b"notes.txt"));
    assert!(!is_fits_name(b"archive.fits.bak"));
}

#[test]
fn error_messages_exist() {
    assert!(FitsError::NotFound.describe().contains("no image"));
    assert!(FitsError::FormatError.describe().contains("END"));
}

#[test]
fn integer_depths_decode() {
    // 8-bit: raw bytes, full scale 255
    let mut file = header_block(&[
        card("SIMPLE", "T"),
        card("BITPIX", "8"),
        card("NAXIS", "2"),
        card("NAXIS1", "2"),
        card("NAXIS2", "1"),
    ]);
    file.extend_from_slice(&pad_data(vec![5u8, 250u8]));
    let img = FitsImage::load(&file, DemosaicMode::Bilinear).unwrap();
    assert_eq!(img.bitdepth_max, 255 * S);
    assert_eq!(img.data, vec![5 * S, 250 * S]);

    // 32-bit integers, big-endian, signed
    let mut file = header_block(&[
        card("SIMPLE", "T"),
        card("BITPIX", "32"),
        card("NAXIS", "2"),
        card("NAXIS1", "2"),
        card("NAXIS2", "1"),
    ]);
    let mut data = Vec::new();
    data.extend_from_slice(&(-5i32).to_be_bytes());
    data.extend_from_slice(&(70000i32).to_be_bytes());
    file.extend_from_slice(&pad_data(data));
    let img = FitsImage::load(&file, DemosaicMode::Bilinear).unwrap();
    assert_eq!(img.bitdepth_max, 65535 * S);
    assert_eq!(img.data, vec![-5 * S, 70000 * S]);

    // 64-bit integers: full scale unknown
    let mut file = header_block(&[
        card("SIMPLE", "T"),
        card("BITPIX", "64"),
        card("NAXIS", "2"),
        card("NAXIS1", "1"),
        card("NAXIS2", "1"),
    ]);
    file.extend_from_slice(&pad_data(7i64.to_be_bytes().to_vec()));
    let img = FitsImage::load(&file, DemosaicMode::Bilinear).unwrap();
    assert_eq!(img.bitdepth_max, 0);
    assert_eq!(img.data, vec![7 * S]);
}

#[test]
fn fractional_bscale_applies() {
    // BSCALE = 0.5 halves the stored values.
    let mut file = header_block(&[
        card("SIMPLE", "T"),
        card("BITPIX", "16"),
        card("NAXIS", "2"),
        card("NAXIS1", "2"),
        card("NAXIS2", "1"),
        card("BSCALE", "0.5"),
        card("BZERO", "100"),
    ]);
    let mut data = Vec::new();
    data.extend_from_slice(&3i16.to_be_bytes());
    data.extend_from_slice(&(-8i16).to_be_bytes());
    file.extend_from_slice(&pad_data(data));
    let img = FitsImage::load(&file, DemosaicMode::Bilinear).unwrap();
    assert_eq!(img.data, vec![100 * S + 3 * S / 2, 100 * S - 4 * S]);
}

#[test]
fn seven_plane_file_is_unsupported() {
    // channel_count must be 1 or 3; other plane counts are rejected.
    let vals: Vec<u16> = vec![1u16; 4 * 4 * 7];
    let file = fits_u16(4, 4, 7, &[], &vals);
    assert!(matches!(
        FitsImage::load(&file, DemosaicMode::Bilinear),
        Err(FitsError::UnsupportedFormat)
    ));
}

#[test]
fn tiny_mosaic_kernel_bounds() {
    // A 2x2 mosaic is enough for the bilinear kernel but below the cubic
    // kernel's 4x4 minimum.
    let vals: Vec<u16> = vec![1000u16, 2000u16, 2000u16, 3000u16];
    let file = fits_u16(2, 2, 1, &[card("BAYERPAT", "'RGGB'")], &vals);
    let img = FitsImage::load(&file, DemosaicMode::Bilinear).unwrap();
    assert_eq!(img.channels, 3);
    assert!(matches!(
        FitsImage::load(&file, DemosaicMode::Cubic),
        Err(FitsError::Reconstruction)
    ));
}

#[test]
fn bayer_round_trip_rggb_cubic() {
    // The cubic kernel on the same constant-per-color checkerboard also
    // recovers three constant planes.
    let (w, h) = (8usize, 8usize);
    let mut vals: Vec<u16> = Vec::new();
    for y in 0..h {
        for x in 0..w {
            let v = match (y % 2, x % 2) {
                (0, 0) => 1000u16,
                (0, 1) => 2000u16,
                (1, 0) => 2000u16,
                _ => 3000u16,
            };
            vals.push(v);
        }
    }
    let file = fits_u16(w, h, 1, &[card("BAYERPAT", "'RGGB'")], &vals);
    let img = FitsImage::load(&file, DemosaicMode::Cubic).unwrap();
    assert_eq!(img.channels, 3);
    let npix = w * h;
    let tol = 2 * S;
    for i in 0..npix {
        assert!((img.data[i] - 1000 * S).abs() <= tol);
        assert!((img.data[npix + i] - 2000 * S).abs() <= tol);
        assert!((img.data[2 * npix + i] - 3000 * S).abs() <= tol);
    }
}
