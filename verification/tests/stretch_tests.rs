//! Stretch-engine behavior: the midtone transfer function's endpoint
//! identities, table monotonicity, outlier clipping, and the degenerate
//! flat-gray cases.

use fastfits::sample::SAMPLE_SCALE;
use fastfits::stretch::{autostretch_lut, data_min_max, linear_lut, mtf, LUT_SIZE};

const S: i64 = SAMPLE_SCALE;

#[test]
fn mtf_endpoints_all_midtones() {
    // m in {0.01, 0.1, 0.5, 0.9, 0.99}, exact in fixed point
    for m in [S / 100, S / 10, S / 2, 9 * S / 10, 99 * S / 100] {
        assert_eq!(mtf(0, m), 0);
        assert_eq!(mtf(S, m), S);
        assert_eq!(mtf(m, m), S / 2);
    }
}

#[test]
fn mtf_degenerate_midtones() {
    assert_eq!(mtf(S / 2, 0), 0);
    assert_eq!(mtf(S / 2, -5), 0);
    assert_eq!(mtf(S / 2, S), S);
    assert_eq!(mtf(S / 2, S + 7), S);
}

#[test]
fn mtf_clamps_input() {
    assert_eq!(mtf(-3, S / 2), 0);
    assert_eq!(mtf(S + 3, S / 2), S);
}

#[test]
fn mtf_monotone_samples() {
    let m: i64 = S / 4;
    let mut prev: i64 = -1;
    for i in 0..=100 {
        let y = mtf(i * (S / 100), m);
        assert!(y >= prev);
        prev = y;
    }
}

#[test]
fn linear_lut_is_identity_ramp() {
    let lut = linear_lut();
    assert_eq!(lut.len(), LUT_SIZE);
    assert_eq!(lut[0], 0);
    assert_eq!(lut[LUT_SIZE - 1], 255);
    assert_eq!(lut[2048], 128);
    for w in lut.windows(2) {
        assert!(w[0] <= w[1]);
    }
}

#[test]
fn autostretch_monotone_on_ramp() {
    // A non-degenerate ramp plane: no brightness inversion anywhere.
    let bd: i64 = 65535 * S;
    let data: Vec<i64> = (0..10_000i64).map(|i| i * 6 * S).collect();
    let (mn, mx) = data_min_max(&data);
    let lut = autostretch_lut(&data, mn, mx, bd);
    assert_eq!(lut.len(), LUT_SIZE);
    for w in lut.windows(2) {
        assert!(w[0] <= w[1]);
    }
}

#[test]
fn autostretch_clips_outliers() {
    // 0.02% of pixels at 0, the rest at the bit-depth ceiling: the ends
    // of the table are hard-clipped to 0 and 255.
    let bd: i64 = 65535 * S;
    let mut data: Vec<i64> = vec![bd; 10_000];
    data[0] = 0;
    data[1] = 0;
    let (mn, mx) = data_min_max(&data);
    assert_eq!((mn, mx), (0, bd));
    let lut = autostretch_lut(&data, mn, mx, bd);
    assert_eq!(lut[0], 0);
    assert_eq!(lut[LUT_SIZE - 1], 255);
}

#[test]
fn autostretch_constant_plane_is_flat_gray() {
    let v: i64 = 1234 * S;
    let data: Vec<i64> = vec![v; 500];
    let (mn, mx) = data_min_max(&data);
    assert_eq!((mn, mx), (v, v));
    let lut = autostretch_lut(&data, mn, mx, 65535 * S);
    assert_eq!(lut.len(), LUT_SIZE);
    assert!(lut.iter().all(|&e| e == 128));
}

#[test]
fn autostretch_background_maps_to_target() {
    // A plane whose background sits at 10% of full scale: the curve must
    // push the median toward the 10% display level, so the mid-range of
    // the table is far above the linear ramp.
    let bd: i64 = 65535 * S;
    let mut data: Vec<i64> = vec![6553 * S; 9_000];
    for i in 0..1_000usize {
        data.push((30_000 + i as i64) * S);
    }
    let (mn, mx) = data_min_max(&data);
    let lut = autostretch_lut(&data, mn, mx, bd);
    for w in lut.windows(2) {
        assert!(w[0] <= w[1]);
    }
    // the sky background (lowest table region after the clip) stays dark
    assert!(lut[0] <= 26);
    assert_eq!(lut[LUT_SIZE - 1], 255);
}

#[test]
fn min_max_ignores_non_finite() {
    let nf: i64 = 9_223_372_036_854_775_807;
    let data: Vec<i64> = vec![nf, 5 * S, nf, 2 * S, 9 * S];
    assert_eq!(data_min_max(&data), (2 * S, 9 * S));
}

#[test]
fn min_max_empty_range_defaults() {
    let nf: i64 = 9_223_372_036_854_775_807;
    let data: Vec<i64> = vec![nf, nf];
    assert_eq!(data_min_max(&data), (0, S));
}
