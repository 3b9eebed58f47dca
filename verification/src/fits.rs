//! The decoded image and its pipeline: parse a FITS file's bytes into a
//! `FitsImage`, and render it to an RGBA buffer under a stretch mode and
//! channel selection.

use vstd::prelude::*;
use crate::cfa::{detect_bayer_pattern, spec_detect_bayer, CfaPattern};
use crate::demosaic::{
    alg_code, cfa_code, debayer_u16, demosaic_of, spec_plane_sample, spec_u16_le, DemosaicMode,
};
use crate::error::FitsError;
use crate::extract::{
    bytes_per_sample, extract_samples, find_image, samples_to_u16, scale_factors, spec_bitpix,
    spec_bscale_u, spec_bzero_u, spec_find_image, spec_naxis, spec_sample_at, spec_u16_of_sample,
};
use crate::header::{
    axis_val, cards_sorted, cards_to_strings, cards_view, chars_ascii, find_header_int,
    key_bitpix, key_naxis, parse_cards_region, sort_cards, spec_cards_from, strings_bytes,
};
use crate::sample::{plane_wf, MAX_SAMPLE, SAMPLE_SCALE};
use crate::text::subvec;

verus! {

/// Which channel to display.
#[derive(Clone, Copy, Debug, PartialEq, Eq, Structural)]
pub enum ChannelView {
    /// Composite RGB (only meaningful when channels == 3)
    Rgb,
    /// Single channel index (0 = R or the only channel, 1 = G, 2 = B)
    Single(usize),
}

/// Stretch algorithm applied before display.
#[derive(Clone, Copy, Debug, PartialEq, Eq, Structural)]
pub enum Stretch {
    Linear,
    AutoStretch,
}

/// Raw fixed-point pixel data loaded from one FITS image HDU.
///
/// Data layout: planar, `channels` planes each of `width * height`
/// samples, `SAMPLE_SCALE` units per physical unit.
/// Index: `data[channel * width * height + row * width + col]`.
pub struct FitsImage {
    pub width: usize,
    pub height: usize,
    /// 1 = grayscale, 3 = RGB (either debayered or pre-separated)
    pub channels: usize,
    /// Raw pixels in planar order, in `SAMPLE_SCALE` units.
    pub data: Vec<i64>,
    /// FITS header key/value pairs from the image HDU, sorted by key.
    pub headers: Vec<(String, String)>,
    /// Full-scale sample for the image's bit depth (65535 physical units
    /// for 16-bit data); 0 means unknown / floating-point data, and the
    /// autostretch falls back to the data range.
    pub bitdepth_max: i64,
}

impl FitsImage {
    /// The structural invariant every decoded image satisfies.
    pub open spec fn wf(&self) -> bool {
        &&& self.width >= 1
        &&& self.height >= 1
        &&& self.channels >= 1
        &&& self.data@.len() == self.width * self.height * self.channels
        &&& plane_wf(self.data@)
        &&& 0 <= self.bitdepth_max <= MAX_SAMPLE
    }
}

/// The full-scale ceiling implied by `BITPIX`, in sample units: 8-bit and
/// 16-bit data use their nominal maxima, 32-bit integer files are
/// conventionally 16-bit data widened, and anything else (the
/// floating-point depths) means "derive from the data range".
pub open spec fn spec_bitdepth_max(bitpix: int) -> int {
    if bitpix == 8 {
        255 * SAMPLE_SCALE
    } else if bitpix == 16 || bitpix == 32 {
        65535 * SAMPLE_SCALE
    } else {
        0
    }
}

/// Everything the image extractor settles before reading samples.
pub struct DecodePlan {
    /// Header range of the image HDU.
    pub hs: int,
    pub he: int,
    pub width: int,
    pub height: int,
    pub planes: int,
    pub bitpix: int,
    pub bscale_u: int,
    pub bzero_u: int,
}

/// What decoding a FITS file's bytes settles, or why it fails: the first
/// non-degenerate HDU (`NotFound`/`FormatError`/`FileError` from the
/// walk), its axis count restricted to 2 or 3 and its plane count to 1 or
/// 3 (`UnsupportedFormat`), a readable sample depth (`FormatError`), and
/// a data segment that is wholly present (`FileError`).
pub open spec fn spec_decode_plan(h: Seq<u8>) -> Result<DecodePlan, FitsError> {
    match spec_find_image(h, 0) {
        Err(e) => Err(e),
        Ok(se) => {
            let region = h.subrange(se.0, se.1);
            let naxis = spec_naxis(region);
            if naxis != 2 && naxis != 3 {
                Err(FitsError::UnsupportedFormat)
            } else {
                match spec_bitpix(region) {
                    None => Err(FitsError::FormatError),
                    Some(b) => if bytes_per_sample(b as int) == 0 {
                        Err(FitsError::FormatError)
                    } else {
                        let w = axis_val(region, 1);
                        let ht = axis_val(region, 2);
                        let pl = if naxis == 2 {
                            1int
                        } else {
                            axis_val(region, 3)
                        };
                        if pl != 1 && pl != 3 {
                            Err(FitsError::UnsupportedFormat)
                        } else if se.1 + w * ht * pl * bytes_per_sample(b as int) > h.len() {
                            Err(FitsError::FileError)
                        } else {
                            Ok(
                                DecodePlan {
                                    hs: se.0,
                                    he: se.1,
                                    width: w,
                                    height: ht,
                                    planes: pl,
                                    bitpix: b as int,
                                    bscale_u: spec_bscale_u(region),
                                    bzero_u: spec_bzero_u(region),
                                },
                            )
                        }
                    },
                }
            }
        },
    }
}

/// Some sorted arrangement of the HDU's metadata cards names a mosaic
/// pattern: the only way a decode can take the demosaic path.
pub open spec fn spec_mosaic_detected(h: Seq<u8>, p: DecodePlan) -> bool {
    exists|cs: Seq<(Seq<u8>, Seq<u8>)>|
        {
            &&& cs.to_multiset() == spec_cards_from(h, p.hs, p.he).to_multiset()
            &&& cards_sorted(cs)
            &&& #[trigger] spec_detect_bayer(cs) is Some
        }
}

/// The 16-bit mosaic plane the demosaic path hands to the reconstruction.
pub open spec fn spec_mosaic_u16(h: Seq<u8>, p: DecodePlan) -> Seq<u16> {
    Seq::new(
        (p.width * p.height) as nat,
        |i: int| spec_u16_of_sample(spec_sample_at(h, p.he, i, p.bitpix, p.bscale_u, p.bzero_u)),
    )
}

impl FitsImage {
    /// Decode the first image HDU of a FITS file's bytes.
    ///
    /// On success the image satisfies its invariant; its headers are the
    /// HDU's metadata cards, sorted by key; its dimensions are the HDU's
    /// first two axes; and its samples are exactly the decoded and
    /// rescaled stored values — demosaiced into three planes when the
    /// headers mark a single plane as a Bayer mosaic.  Every failure of
    /// the walk, the shape check or the depth check is returned as the
    /// plan says; a `Reconstruction` failure can arise only on the
    /// demosaic path, and only for a mosaic below the selected kernel's
    /// size or beyond addressable memory.
    #[verifier::rlimit(100)]
    #[verifier::spinoff_prover]
    pub fn load(bytes: &[u8], mode: DemosaicMode) -> (r: Result<FitsImage, FitsError>)
        ensures
            match r {
                Ok(img) => {
                    &&& spec_decode_plan(bytes@) is Ok
                    &&& img.wf()
                    &&& {
                        let p = spec_decode_plan(bytes@)->Ok_0;
                        &&& img.width == p.width
                        &&& img.height == p.height
                        &&& cards_sorted(strings_bytes(img.headers@))
                        &&& strings_bytes(img.headers@).to_multiset() == spec_cards_from(
                            bytes@,
                            p.hs,
                            p.he,
                        ).to_multiset()
                        &&& forall|k: int|
                            0 <= k < img.headers@.len() ==> chars_ascii(
                                (#[trigger] img.headers@[k]).0@,
                            ) && chars_ascii(img.headers@[k].1@)
                        &&& {
                            let det = if p.planes == 1 {
                                spec_detect_bayer(strings_bytes(img.headers@))
                            } else {
                                None::<CfaPattern>
                            };
                            match det {
                                None => {
                                    &&& img.channels == p.planes
                                    &&& img.bitdepth_max == spec_bitdepth_max(p.bitpix)
                                    &&& forall|i: int|
                                        0 <= i < img.data@.len() ==> img.data@[i]
                                            == spec_sample_at(bytes@, p.he, i, p.bitpix,
                                            p.bscale_u, p.bzero_u)
                                },
                                Some(cfa) => {
                                    let npix = p.width * p.height;
                                    let rgbb = demosaic_of(
                                        spec_u16_le(spec_mosaic_u16(bytes@, p)),
                                        p.width,
                                        p.height,
                                        cfa_code(cfa),
                                        alg_code(mode),
                                    );
                                    &&& img.channels == 3
                                    &&& img.bitdepth_max == 65535 * SAMPLE_SCALE
                                    &&& rgbb.len() == 6 * npix
                                    &&& forall|idx: int|
                                        0 <= idx < img.data@.len() ==> img.data@[idx]
                                            == spec_plane_sample(rgbb, npix, idx)
                                },
                            }
                        }
                        &&& (img.channels == 1 || img.channels == 3)
                    }
                },
                Err(e) => spec_decode_plan(bytes@) == Err::<DecodePlan, FitsError>(e) || (e
                    == FitsError::Reconstruction && spec_decode_plan(bytes@) is Ok && {
                    let p = spec_decode_plan(bytes@)->Ok_0;
                    &&& p.planes == 1
                    &&& spec_mosaic_detected(bytes@, p)
                    &&& (p.width * p.height > usize::MAX / 6 || (mode == DemosaicMode::Cubic && (
                    p.width < 4 || p.height < 4)) || (mode == DemosaicMode::Bilinear && (p.width
                        < 2 || p.height < 2)))
                }),
            },
            spec_decode_plan(bytes@) is Err ==> r is Err,
            (spec_decode_plan(bytes@) is Ok && spec_decode_plan(bytes@)->Ok_0.planes != 1)
                ==> r is Ok,
            (spec_decode_plan(bytes@) is Ok && !spec_mosaic_detected(
                bytes@,
                spec_decode_plan(bytes@)->Ok_0,
            )) ==> r is Ok,
            (spec_decode_plan(bytes@) is Ok && {
                let p = spec_decode_plan(bytes@)->Ok_0;
                &&& p.width * p.height <= usize::MAX / 6
                &&& ((mode == DemosaicMode::Cubic && p.width >= 4 && p.height >= 4) || (mode
                    == DemosaicMode::Bilinear && p.width >= 2 && p.height >= 2))
            }) ==> r is Ok,
    {
        let (hs, he) = match find_image(bytes) {
            Ok(se) => se,
            Err(e) => {
                return Err(e);
            },
        };
        let region = subvec(bytes, hs, he);
        proof {
            assert(region@ =~= bytes@.subrange(hs as int, he as int));
        }
        // Shape
        let naxis_key_v: Vec<u8> = vec![78u8, 65u8, 88u8, 73u8, 83u8];
        proof {
            assert(naxis_key_v@ =~= key_naxis());
        }
        let naxis: i64 = match find_header_int(region.as_slice(), naxis_key_v.as_slice()) {
            Some(v) => v,
            None => 0,
        };
        if naxis != 2 && naxis != 3 {
            return Err(FitsError::UnsupportedFormat);
        }
        // Depth
        let bitpix_key: Vec<u8> = vec![66u8, 73u8, 84u8, 80u8, 73u8, 88u8];
        proof {
            assert(bitpix_key@ =~= key_bitpix());
        }
        let bitpix: i64 = match find_header_int(region.as_slice(), bitpix_key.as_slice()) {
            Some(b) => b,
            None => {
                return Err(FitsError::FormatError);
            },
        };
        let spb: usize = if bitpix == 8 {
            1
        } else if bitpix == 16 {
            2
        } else if bitpix == 32 || bitpix == -32 {
            4
        } else if bitpix == 64 || bitpix == -64 {
            8
        } else {
            return Err(FitsError::FormatError);
        };
        // Axes; the found HDU is non-degenerate, so each is at least 1.
        proof {
            crate::extract::lemma_find_image_ok(bytes@, 0);
            assert(crate::extract::spec_nondegenerate(region@));
        }
        let wv: u64 = crate::header::axis_val_exec(region.as_slice(), 1);
        let hv: u64 = crate::header::axis_val_exec(region.as_slice(), 2);
        let pv: u64 = if naxis == 2 {
            1
        } else {
            crate::header::axis_val_exec(region.as_slice(), 3)
        };
        proof {
            assert(wv >= 1 && hv >= 1 && pv >= 1);
        }
        if pv != 1 && pv != 3 {
            return Err(FitsError::UnsupportedFormat);
        }
        // Data segment must be wholly present; check in stages so the
        // products stay representable.
        let n: usize = bytes.len();
        proof {
            assert((wv as int) * (hv as int) < 0x1_0000_0000_0000_0000i128
                * 0x1_0000_0000_0000_0000i128) by (nonlinear_arith)
                requires
                    wv < 0x1_0000_0000_0000_0000i128,
                    hv < 0x1_0000_0000_0000_0000i128,
            {}
        }
        let wh: u128 = (wv as u128) * (hv as u128);
        if wh > (n - he) as u128 {
            proof {
                assert(wv as int * hv as int * pv * spb >= wh) by (nonlinear_arith)
                    requires
                        wh == wv as int * hv as int,
                        wv >= 1,
                        hv >= 1,
                        pv >= 1,
                        spb >= 1,
                {}
            }
            return Err(FitsError::FileError);
        }
        proof {
            assert(wh * pv < 0x1_0000_0000_0000_0000i128 * 0x1_0000_0000_0000_0000i128) by (
            nonlinear_arith)
                requires
                    0 <= wh < 0x1_0000_0000_0000_0000i128,
                    0 <= pv < 0x1_0000_0000_0000_0000i128,
            {}
        }
        let whp: u128 = wh * (pv as u128);
        if whp > (n - he) as u128 {
            proof {
                assert(wv as int * hv as int * pv * spb >= whp && whp >= wh && whp >= pv) by (
                nonlinear_arith)
                    requires
                        wh == wv as int * hv as int,
                        whp == wh * pv,
                        wv >= 1,
                        hv >= 1,
                        pv >= 1,
                        spb >= 1,
                {}
            }
            return Err(FitsError::FileError);
        }
        let need: u128 = whp * (spb as u128);
        proof {
            assert(need == wv as int * hv as int * pv * spb && need >= whp && whp >= wh && whp
                >= pv && wh >= wv && wh >= hv) by (nonlinear_arith)
                requires
                    wh == wv as int * hv as int,
                    whp == wh * pv,
                    need == whp * spb,
                    wv >= 1,
                    hv >= 1,
                    pv >= 1,
                    1 <= spb <= 8,
            {}
        }
        if need > (n - he) as u128 {
            return Err(FitsError::FileError);
        }
        let ghost plan = DecodePlan {
            hs: hs as int,
            he: he as int,
            width: wv as int,
            height: hv as int,
            planes: pv as int,
            bitpix: bitpix as int,
            bscale_u: spec_bscale_u(region@),
            bzero_u: spec_bzero_u(region@),
        };
        proof {
            assert(spec_decode_plan(bytes@) == Ok::<DecodePlan, FitsError>(plan));
        }
        // Total sample count fits in memory: each sample is at least one
        // byte of the file.
        let npix_total: usize = whp as usize;
        let npix: usize = (wv as usize) * (hv as usize);
        // Headers
        let cards = sort_cards(parse_cards_region(bytes, hs, he));
        proof {
            crate::header::lemma_cards_from_ascii(bytes@, hs as int, he as int);
            crate::header::lemma_cards_ascii_of_multiset(
                cards_view(cards@),
                spec_cards_from(bytes@, hs as int, he as int),
            );
        }
        let headers = cards_to_strings(&cards);
        // Scale factors
        let (bscale_u, bzero_u) = scale_factors(region.as_slice());
        // Samples
        let samples = extract_samples(bytes, he, npix_total, bitpix, bscale_u, bzero_u);
        // Bayer?
        let det: Option<CfaPattern> = if pv == 1 {
            detect_bayer_pattern(&cards)
        } else {
            None
        };
        proof {
            assert(strings_bytes(headers@) =~= cards_view(cards@));
        }
        match det {
            Some(cfa) => {
                proof {
                    assert(spec_mosaic_detected(bytes@, plan)) by {
                        assert(cards_view(cards@).to_multiset() == spec_cards_from(
                            bytes@,
                            plan.hs,
                            plan.he,
                        ).to_multiset() && cards_sorted(cards_view(cards@)) && spec_detect_bayer(
                            cards_view(cards@),
                        ) is Some);
                    }
                }
                if npix > usize::MAX / 6 {
                    // The demosaic output buffer cannot be addressed.
                    return Err(FitsError::Reconstruction);
                }
                let raw16 = samples_to_u16(samples.as_slice());
                proof {
                    assert(whp == wh) by (nonlinear_arith)
                        requires
                            whp == wh * pv,
                            pv == 1,
                    {}
                    assert(raw16@.len() == spec_mosaic_u16(bytes@, plan).len());
                    assert forall|i: int| 0 <= i < raw16@.len() implies raw16@[i]
                        == spec_mosaic_u16(bytes@, plan)[i] by {
                        assert(raw16@[i] == spec_u16_of_sample(samples@[i]));
                    }
                    assert(raw16@ =~= spec_mosaic_u16(bytes@, plan));
                }
                let planes = match debayer_u16(
                    &raw16,
                    wv as usize,
                    hv as usize,
                    cfa,
                    mode,
                ) {
                    Ok(pl) => pl,
                    Err(e) => {
                        return Err(e);
                    },
                };
                let img = FitsImage {
                    width: wv as usize,
                    height: hv as usize,
                    channels: 3,
                    data: planes,
                    headers,
                    bitdepth_max: 65535 * SAMPLE_SCALE,
                };
                proof {
                    assert(3 * (wv as int * hv as int) == wv as int * hv as int * 3 && 3 * (
                    wv as int * hv as int) == 3 * wv as int * hv as int && 6 * (wv as int
                        * hv as int) == 6 * wv as int * hv as int && (wv as int * hv as int) * 6
                        == 6 * (wv as int * hv as int)) by (nonlinear_arith)
                    {}
                    assert(img.width * img.height * img.channels == wv as int * hv as int
                        * 3) by (nonlinear_arith)
                        requires
                            img.width == wv,
                            img.height == hv,
                            img.channels == 3,
                    {}
                    assert(img.data@.len() == img.width * img.height * img.channels);
                    assert(img.wf());
                    assert(spec_decode_plan(bytes@)->Ok_0 == plan);
                    assert(plan.planes == 1);
                    assert(spec_detect_bayer(strings_bytes(img.headers@)) == Some(cfa));
                    assert(raw16@ == spec_mosaic_u16(bytes@, plan));
                    let rgbb = demosaic_of(
                        spec_u16_le(spec_mosaic_u16(bytes@, plan)),
                        plan.width,
                        plan.height,
                        cfa_code(cfa),
                        alg_code(mode),
                    );
                    assert(rgbb.len() == 6 * (plan.width * plan.height));
                    assert(forall|idx: int|
                        0 <= idx < img.data@.len() ==> img.data@[idx] == spec_plane_sample(
                            rgbb,
                            plan.width * plan.height,
                            idx,
                        ));
                }
                Ok(img)
            },
            None => {
                let bd: i64 = if bitpix == 8 {
                    255 * SAMPLE_SCALE
                } else if bitpix == 16 || bitpix == 32 {
                    65535 * SAMPLE_SCALE
                } else {
                    0
                };
                let img = FitsImage {
                    width: wv as usize,
                    height: hv as usize,
                    channels: pv as usize,
                    data: samples,
                    headers,
                    bitdepth_max: bd,
                };
                proof {
                    assert(whp == wv as int * hv as int * pv) by (nonlinear_arith)
                        requires
                            wh == wv as int * hv as int,
                            whp == wh * pv,
                    {}
                    assert(img.width * img.height * img.channels == wv as int * hv as int
                        * pv) by (nonlinear_arith)
                        requires
                            img.width == wv,
                            img.height == hv,
                            img.channels == pv,
                    {}
                    assert(img.data@.len() == img.width * img.height * img.channels);
                    assert(img.wf());
                    assert(spec_decode_plan(bytes@)->Ok_0 == plan);
                    assert(img.width == plan.width && img.height == plan.height);
                    assert(cards_sorted(strings_bytes(img.headers@)));
                    assert(strings_bytes(img.headers@).to_multiset() == spec_cards_from(
                        bytes@,
                        plan.hs,
                        plan.he,
                    ).to_multiset());
                    assert(img.bitdepth_max == spec_bitdepth_max(plan.bitpix));
                    if pv == 1 {
                        assert(spec_detect_bayer(strings_bytes(img.headers@)) is None);
                    }
                    assert(forall|i: int|
                        0 <= i < img.data@.len() ==> img.data@[i] == spec_sample_at(
                            bytes@,
                            plan.he,
                            i,
                            plan.bitpix,
                            plan.bscale_u,
                            plan.bzero_u,
                        ));
                }
                Ok(img)
            },
        }
    }
}

/// The table index a raw sample selects: its position in the plane's
/// `[min, max]` range under the precomputed affine map, rounded to
/// nearest and clamped into the table; a non-finite sample or an empty
/// range selects entry 0.
pub open spec fn spec_lut_index(v: i64, mn: int, mx: int) -> int {
    if mn >= mx || !crate::sample::sample_is_finite(v) {
        0
    } else {
        let q = (2 * 4095 * (v - mn) + (mx - mn)) / (2 * (mx - mn));
        if q < 0 {
            0
        } else if q > 4095 {
            4095
        } else {
            q
        }
    }
}

/// Entry `i` of the stretch table built for one plane.
pub open spec fn spec_stretch_entry(data: Seq<i64>, stretch: Stretch, bd: int, i: int) -> u8 {
    match stretch {
        Stretch::Linear => crate::stretch::spec_linear_entry(i),
        Stretch::AutoStretch => crate::stretch::spec_autostretch(
            data,
            crate::stretch::spec_data_range(data).0,
            crate::stretch::spec_data_range(data).1,
            bd,
            i,
        ),
    }
}

/// The display level pixel `px` of a plane maps to.
pub open spec fn spec_gray_level(data: Seq<i64>, stretch: Stretch, bd: int, px: int) -> u8 {
    spec_stretch_entry(
        data,
        stretch,
        bd,
        spec_lut_index(
            data[px],
            crate::stretch::spec_data_range(data).0,
            crate::stretch::spec_data_range(data).1,
        ),
    )
}

/// Compute a sample's table index.
fn lut_index_exec(v: i64, mn: i64, mx: i64) -> (r: usize)
    requires
        crate::sample::sample_wf(v),
        -MAX_SAMPLE <= mn <= mx <= MAX_SAMPLE,
    ensures
        r == spec_lut_index(v, mn as int, mx as int),
        r < 4096,
{
    if mn >= mx || v == crate::sample::NON_FINITE {
        return 0;
    }
    let range: i64 = mx - mn;
    if v < mn {
        proof {
            let num = 2 * 4095 * (v as int - mn) + range;
            assert(num < 2 * (range as int)) by (nonlinear_arith)
                requires
                    num == 2 * 4095 * (v as int - mn) + range,
                    v < mn,
                    range > 0,
            {}
            if num >= 0 {
                vstd::arithmetic::div_mod::lemma_basic_div(num, 2 * range as int);
            } else {
                vstd::arithmetic::div_mod::lemma_div_is_ordered(num, -1, 2 * range as int);
                vstd::arithmetic::div_mod::lemma_fundamental_div_mod_converse_div(
                    -1,
                    2 * range as int,
                    -1,
                    2 * range as int - 1,
                );
            }
        }
        return 0;
    }
    let num: i128 = 2 * 4095 * ((v - mn) as i128) + (range as i128);
    let q: i128 = num / (2 * range as i128);
    proof {
        vstd::arithmetic::div_mod::lemma_div_pos_is_pos(num as int, 2 * range as int);
    }
    if q > 4095 {
        4095
    } else {
        proof {
            vstd::arithmetic::div_mod::lemma_div_pos_is_pos(num as int, 2 * range as int);
        }
        q as usize
    }
}

/// Render one plane to gray RGBA bytes: the same stretched level on R, G
/// and B, alpha always 255.
pub fn to_rgba_gray(plane: &[i64], stretch: Stretch, bitdepth_max: i64) -> (r: Vec<u8>)
    requires
        plane_wf(plane@),
        0 <= bitdepth_max <= MAX_SAMPLE,
        4 * plane@.len() <= usize::MAX,
    ensures
        r@.len() == 4 * plane@.len(),
        forall|px: int|
            0 <= px < plane@.len() ==> r@[4 * px] == spec_gray_level(plane@, stretch,
                bitdepth_max as int, px),
        forall|px: int|
            0 <= px < plane@.len() ==> r@[4 * px + 1] == spec_gray_level(plane@, stretch,
                bitdepth_max as int, px),
        forall|px: int|
            0 <= px < plane@.len() ==> r@[4 * px + 2] == spec_gray_level(plane@, stretch,
                bitdepth_max as int, px),
        forall|px: int| 0 <= px < plane@.len() ==> #[trigger] r@[4 * px + 3] == 255,
{
    let (mn, mx) = crate::stretch::data_min_max(plane);
    let lut: Vec<u8> = match stretch {
        Stretch::Linear => crate::stretch::linear_lut(),
        Stretch::AutoStretch => crate::stretch::autostretch_lut(plane, mn, mx, bitdepth_max),
    };
    let n: usize = plane.len();
    let mut out: Vec<u8> = Vec::new();
    let mut px: usize = 0;
    while px < n
        invariant
            px <= n == plane@.len(),
            4 * n <= usize::MAX,
            plane_wf(plane@),
            0 <= bitdepth_max <= MAX_SAMPLE,
            -MAX_SAMPLE <= mn <= mx <= MAX_SAMPLE,
            (mn as int, mx as int) == crate::stretch::spec_data_range(plane@),
            lut@.len() == 4096,
            forall|i: int|
                0 <= i < 4096 ==> lut@[i] == spec_stretch_entry(
                    plane@,
                    stretch,
                    bitdepth_max as int,
                    i,
                ),
            out@.len() == 4 * px,
            forall|k: int|
                0 <= k < px ==> out@[4 * k] == spec_gray_level(plane@, stretch,
                    bitdepth_max as int, k),
            forall|k: int|
                0 <= k < px ==> out@[4 * k + 1] == spec_gray_level(plane@, stretch,
                    bitdepth_max as int, k),
            forall|k: int|
                0 <= k < px ==> out@[4 * k + 2] == spec_gray_level(plane@, stretch,
                    bitdepth_max as int, k),
            forall|k: int| 0 <= k < px ==> #[trigger] out@[4 * k + 3] == 255,
        decreases n - px,
    {
        let idx: usize = lut_index_exec(plane[px], mn, mx);
        let g: u8 = lut[idx];
        out.push(g);
        out.push(g);
        out.push(g);
        out.push(255);
        px += 1;
    }
    out
}

/// Render three planes to RGBA bytes, each channel under its own
/// independently stretched table.
pub fn to_rgba_rgb(
    rp: &[i64],
    gp: &[i64],
    bp: &[i64],
    stretch: Stretch,
    bitdepth_max: i64,
) -> (r: Vec<u8>)
    requires
        plane_wf(rp@),
        plane_wf(gp@),
        plane_wf(bp@),
        rp@.len() == gp@.len() == bp@.len(),
        0 <= bitdepth_max <= MAX_SAMPLE,
        4 * rp@.len() <= usize::MAX,
    ensures
        r@.len() == 4 * rp@.len(),
        forall|px: int|
            0 <= px < rp@.len() ==> r@[4 * px] == spec_gray_level(rp@, stretch,
                bitdepth_max as int, px),
        forall|px: int|
            0 <= px < rp@.len() ==> r@[4 * px + 1] == spec_gray_level(gp@, stretch,
                bitdepth_max as int, px),
        forall|px: int|
            0 <= px < rp@.len() ==> r@[4 * px + 2] == spec_gray_level(bp@, stretch,
                bitdepth_max as int, px),
        forall|px: int| 0 <= px < rp@.len() ==> #[trigger] r@[4 * px + 3] == 255,
{
    let (rmn, rmx) = crate::stretch::data_min_max(rp);
    let (gmn, gmx) = crate::stretch::data_min_max(gp);
    let (bmn, bmx) = crate::stretch::data_min_max(bp);
    let r_lut: Vec<u8> = match stretch {
        Stretch::Linear => crate::stretch::linear_lut(),
        Stretch::AutoStretch => crate::stretch::autostretch_lut(rp, rmn, rmx, bitdepth_max),
    };
    let g_lut: Vec<u8> = match stretch {
        Stretch::Linear => crate::stretch::linear_lut(),
        Stretch::AutoStretch => crate::stretch::autostretch_lut(gp, gmn, gmx, bitdepth_max),
    };
    let b_lut: Vec<u8> = match stretch {
        Stretch::Linear => crate::stretch::linear_lut(),
        Stretch::AutoStretch => crate::stretch::autostretch_lut(bp, bmn, bmx, bitdepth_max),
    };
    let n: usize = rp.len();
    let mut out: Vec<u8> = Vec::new();
    let mut px: usize = 0;
    while px < n
        invariant
            px <= n == rp@.len(),
            rp@.len() == gp@.len() == bp@.len(),
            4 * n <= usize::MAX,
            plane_wf(rp@),
            plane_wf(gp@),
            plane_wf(bp@),
            0 <= bitdepth_max <= MAX_SAMPLE,
            -MAX_SAMPLE <= rmn <= rmx <= MAX_SAMPLE,
            -MAX_SAMPLE <= gmn <= gmx <= MAX_SAMPLE,
            -MAX_SAMPLE <= bmn <= bmx <= MAX_SAMPLE,
            (rmn as int, rmx as int) == crate::stretch::spec_data_range(rp@),
            (gmn as int, gmx as int) == crate::stretch::spec_data_range(gp@),
            (bmn as int, bmx as int) == crate::stretch::spec_data_range(bp@),
            r_lut@.len() == 4096 && g_lut@.len() == 4096 && b_lut@.len() == 4096,
            forall|i: int|
                0 <= i < 4096 ==> r_lut@[i] == spec_stretch_entry(
                    rp@,
                    stretch,
                    bitdepth_max as int,
                    i,
                ),
            forall|i: int|
                0 <= i < 4096 ==> g_lut@[i] == spec_stretch_entry(
                    gp@,
                    stretch,
                    bitdepth_max as int,
                    i,
                ),
            forall|i: int|
                0 <= i < 4096 ==> b_lut@[i] == spec_stretch_entry(
                    bp@,
                    stretch,
                    bitdepth_max as int,
                    i,
                ),
            out@.len() == 4 * px,
            forall|k: int|
                0 <= k < px ==> out@[4 * k] == spec_gray_level(rp@, stretch, bitdepth_max as int,
                    k),
            forall|k: int|
                0 <= k < px ==> out@[4 * k + 1] == spec_gray_level(gp@, stretch,
                    bitdepth_max as int, k),
            forall|k: int|
                0 <= k < px ==> out@[4 * k + 2] == spec_gray_level(bp@, stretch,
                    bitdepth_max as int, k),
            forall|k: int| 0 <= k < px ==> #[trigger] out@[4 * k + 3] == 255,
        decreases n - px,
    {
        let ri: usize = lut_index_exec(rp[px], rmn, rmx);
        let gi: usize = lut_index_exec(gp[px], gmn, gmx);
        let bi: usize = lut_index_exec(bp[px], bmn, bmx);
        out.push(r_lut[ri]);
        out.push(g_lut[gi]);
        out.push(b_lut[bi]);
        out.push(255);
        px += 1;
    }
    out
}

impl FitsImage {
    /// One plane of the planar sample buffer.
    pub open spec fn spec_plane(&self, c: int) -> Seq<i64> {
        self.data@.subrange(
            c * (self.width * self.height),
            (c + 1) * (self.width * self.height),
        )
    }

    /// Which single plane the view shows, or `None` for the composite:
    /// a mono image always shows plane 0; a single-channel selection is
    /// clamped to the channel count; a composite view needs exactly three
    /// channels, anything else falls back to plane 0.
    pub open spec fn spec_view_plane(&self, view: ChannelView) -> Option<int> {
        if self.channels == 1 {
            Some(0int)
        } else if view is Single {
            Some(
                if view->Single_0 < self.channels {
                    view->Single_0 as int
                } else {
                    self.channels - 1
                },
            )
        } else if self.channels == 3 {
            None
        } else {
            Some(0int)
        }
    }

    /// Byte `j` of the RGBA buffer for this image under a stretch mode
    /// and channel selection: alpha is always 255; a gray view writes the
    /// selected plane's level to R, G and B; the composite writes each
    /// channel's own independently stretched level.
    pub open spec fn spec_rgba_byte(&self, stretch: Stretch, view: ChannelView, j: int) -> u8 {
        let px = j / 4;
        let k = j % 4;
        if k == 3 {
            255
        } else {
            match self.spec_view_plane(view) {
                Some(c) => spec_gray_level(
                    self.spec_plane(c),
                    stretch,
                    self.bitdepth_max as int,
                    px,
                ),
                None => spec_gray_level(
                    self.spec_plane(k),
                    stretch,
                    self.bitdepth_max as int,
                    px,
                ),
            }
        }
    }

    /// Build an RGBA byte buffer for display, applying `stretch` and
    /// showing `view`: `width * height * 4` bytes in RGBA order,
    /// top-left origin, alpha always 255.
    pub fn to_rgba(&self, stretch: Stretch, view: ChannelView) -> (r: Vec<u8>)
        requires
            self.wf(),
            4 * (self.width * self.height) <= usize::MAX,
        ensures
            r@.len() == 4 * (self.width * self.height),
            forall|j: int|
                0 <= j < r@.len() ==> #[trigger] r@[j] == self.spec_rgba_byte(stretch, view, j),
    {
        let npix: usize = self.width * self.height;
        let dlen: usize = self.data.len();
        proof {
            assert(dlen == self.data@.len());
            lemma_plane_slices(self);
        }
        let single: Option<usize> = match view {
            ChannelView::Single(c) => {
                if self.channels == 1 {
                    Some(0)
                } else if c < self.channels {
                    Some(c)
                } else {
                    Some(self.channels - 1)
                }
            },
            ChannelView::Rgb => {
                if self.channels == 1 {
                    Some(0)
                } else if self.channels == 3 {
                    None
                } else {
                    Some(0)
                }
            },
        };
        proof {
            assert((single is Some && self.spec_view_plane(view) == Some(single->0 as int)) || (
            single is None && self.spec_view_plane(view) is None));
        }
        match single {
            Some(c2) => {
                proof {
                    lemma_mul_le_both(c2 as int, c2 + 1, self.channels as int, npix as int);
                    crate::sample::lemma_plane_wf_subrange(
                        self.data@,
                        c2 as int * npix,
                        (c2 + 1) * npix,
                    );
                }
                let plane: &[i64] = &self.data.as_slice()[c2 * npix..(c2 + 1) * npix];
                proof {
                    assert((c2 + 1) * npix - c2 as int * npix == npix) by (nonlinear_arith)
                    {}
                }
                let out = to_rgba_gray(plane, stretch, self.bitdepth_max);
                proof {
                    assert(c2 as int * npix == c2 as int * (self.width * self.height) && (c2
                        + 1) * npix == (c2 as int + 1) * (self.width * self.height)) by (
                    nonlinear_arith)
                        requires
                            npix == self.width * self.height,
                    {}
                    assert(plane@ =~= self.spec_plane(c2 as int));
                    assert(out@.len() == 4 * npix);
                    assert(self.spec_view_plane(view) == Some(c2 as int));
                    assert forall|j: int| 0 <= j < out@.len() implies #[trigger] out@[j]
                        == self.spec_rgba_byte(stretch, view, j) by {
                        let px = j / 4;
                        let k = j % 4;
                        vstd::arithmetic::div_mod::lemma_fundamental_div_mod(j, 4);
                        vstd::arithmetic::div_mod::lemma_mod_division_less_than_divisor(j, 4);
                        vstd::arithmetic::div_mod::lemma_div_pos_is_pos(j, 4);
                        assert(j == 4 * px + k && 0 <= k < 4 && 4 * px <= j);
                        assert(px < npix) by (nonlinear_arith)
                            requires
                                4 * px <= j,
                                j < 4 * npix,
                        {}
                        if k == 0 {
                            assert(out@[4 * px] == spec_gray_level(
                                plane@,
                                stretch,
                                self.bitdepth_max as int,
                                px,
                            ));
                        } else if k == 1 {
                            assert(out@[4 * px + 1] == spec_gray_level(
                                plane@,
                                stretch,
                                self.bitdepth_max as int,
                                px,
                            ));
                        } else if k == 2 {
                            assert(out@[4 * px + 2] == spec_gray_level(
                                plane@,
                                stretch,
                                self.bitdepth_max as int,
                                px,
                            ));
                        } else {
                            assert(out@[4 * px + 3] == 255);
                        }
                    }
                }
                out
            },
            None => {
                proof {
                    crate::sample::lemma_plane_wf_subrange(self.data@, 0, npix as int);
                    crate::sample::lemma_plane_wf_subrange(self.data@, npix as int, 2 * npix);
                    crate::sample::lemma_plane_wf_subrange(self.data@, 2 * npix, 3 * npix);
                }
                let rp: &[i64] = &self.data.as_slice()[0..npix];
                let gp: &[i64] = &self.data.as_slice()[npix..2 * npix];
                let bp: &[i64] = &self.data.as_slice()[2 * npix..3 * npix];
                let out = to_rgba_rgb(rp, gp, bp, stretch, self.bitdepth_max);
                proof {
                    assert(0int * (self.width * self.height) == 0 && 1int * (self.width
                        * self.height) == npix && 2int * (self.width * self.height) == 2 * npix
                        && 3int * (self.width * self.height) == 3 * npix) by (nonlinear_arith)
                        requires
                            npix == self.width * self.height,
                    {}
                    assert(rp@ =~= self.spec_plane(0));
                    assert(gp@ =~= self.spec_plane(1));
                    assert(bp@ =~= self.spec_plane(2));
                    assert(out@.len() == 4 * npix);
                    assert(self.spec_view_plane(view) is None);
                    assert forall|j: int| 0 <= j < out@.len() implies #[trigger] out@[j]
                        == self.spec_rgba_byte(stretch, view, j) by {
                        let px = j / 4;
                        let k = j % 4;
                        vstd::arithmetic::div_mod::lemma_fundamental_div_mod(j, 4);
                        vstd::arithmetic::div_mod::lemma_mod_division_less_than_divisor(j, 4);
                        vstd::arithmetic::div_mod::lemma_div_pos_is_pos(j, 4);
                        assert(j == 4 * px + k && 0 <= k < 4 && 4 * px <= j);
                        assert(px < npix) by (nonlinear_arith)
                            requires
                                4 * px <= j,
                                j < 4 * npix,
                        {}
                        if k == 0 {
                            assert(out@[4 * px] == spec_gray_level(
                                rp@,
                                stretch,
                                self.bitdepth_max as int,
                                px,
                            ));
                        } else if k == 1 {
                            assert(out@[4 * px + 1] == spec_gray_level(
                                gp@,
                                stretch,
                                self.bitdepth_max as int,
                                px,
                            ));
                        } else if k == 2 {
                            assert(out@[4 * px + 2] == spec_gray_level(
                                bp@,
                                stretch,
                                self.bitdepth_max as int,
                                px,
                            ));
                        } else {
                            assert(out@[4 * px + 3] == 255);
                        }
                    }
                }
                out
            },
        }
    }
}

/// The planar slices the compositor reads are within the sample buffer.
proof fn lemma_plane_slices(img: &FitsImage)
    requires
        img.wf(),
    ensures
        img.channels * (img.width * img.height) == img.data@.len(),
        img.width * img.height <= img.data@.len(),
        img.channels == 3 ==> 3 * (img.width * img.height) == img.data@.len() && 2 * (img.width
            * img.height) <= img.data@.len(),
{
    let npix = img.width * img.height;
    assert(img.channels * npix == img.width * img.height * img.channels && npix
        <= img.channels * npix && img.channels == 3 ==> (3 * npix == img.channels * npix && 2
        * npix <= 3 * npix)) by (nonlinear_arith)
        requires
            npix == img.width * img.height,
            img.channels >= 1,
            npix >= 0,
    {}
    assert(npix <= img.channels * npix) by (nonlinear_arith)
        requires
            img.channels >= 1,
            npix >= 0,
    {}
}

/// `a <= b` and both at most `m` give `a * n <= b * n <= m * n`.
proof fn lemma_mul_le_both(a: int, b: int, m: int, n: int)
    requires
        0 <= a <= b <= m,
        0 <= n,
    ensures
        a * n <= b * n <= m * n,
{
    assert(a * n <= b * n && b * n <= m * n) by (nonlinear_arith)
        requires
            0 <= a <= b <= m,
            0 <= n,
    {}
}

/// `p` is a suffix of `s`.
pub open spec fn spec_ends_with(s: Seq<u8>, p: Seq<u8>) -> bool {
    p.len() <= s.len() && s.subrange(s.len() - p.len(), s.len() as int) =~= p
}

fn ends_with_bytes(s: &[u8], p: &[u8]) -> (r: bool)
    ensures
        r == spec_ends_with(s@, p@),
{
    let sn: usize = s.len();
    let pn: usize = p.len();
    if pn > sn {
        return false;
    }
    let tail = subvec(s, sn - pn, sn);
    proof {
        assert(tail@ =~= s@.subrange(sn - pn, sn as int));
    }
    crate::text::bytes_eq(tail.as_slice(), p)
}

/// Whether a file name carries one of the FITS extensions `.fits`, `.fit`
/// or `.fz`, case-insensitively; the directory scanner filters by this.
pub open spec fn spec_is_fits_name(name: Seq<u8>) -> bool {
    let u = crate::text::spec_upper(name);
    spec_ends_with(u, seq![46u8, 70u8, 73u8, 84u8, 83u8]) || spec_ends_with(
        u,
        seq![46u8, 70u8, 73u8, 84u8],
    ) || spec_ends_with(u, seq![46u8, 70u8, 90u8])
}

/// Decide whether a file name looks like a FITS file.
pub fn is_fits_name(name: &[u8]) -> (r: bool)
    ensures
        r == spec_is_fits_name(name@),
{
    let u = crate::text::upper_bytes(name);
    let fits_ext: Vec<u8> = vec![46u8, 70u8, 73u8, 84u8, 83u8];
    let fit_ext: Vec<u8> = vec![46u8, 70u8, 73u8, 84u8];
    let fz_ext: Vec<u8> = vec![46u8, 70u8, 90u8];
    ends_with_bytes(u.as_slice(), fits_ext.as_slice()) || ends_with_bytes(
        u.as_slice(),
        fit_ext.as_slice(),
    ) || ends_with_bytes(u.as_slice(), fz_ext.as_slice())
}

} // verus!
