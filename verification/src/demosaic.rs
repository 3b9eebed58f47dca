//! The demosaic engine: reconstruct three RGB planes from a single-plane
//! Bayer mosaic.  The 2D interpolation itself is done by the `bayer`
//! crate; everything around the call — packing the mosaic into its wire
//! form, sizing the output raster, and unpacking the interleaved result
//! into planar fixed-point samples — is verified.

use vstd::prelude::*;
use bayer::{BayerDepth, Demosaic, RasterDepth, RasterMut, CFA};
use crate::cfa::CfaPattern;
use crate::error::FitsError;
use crate::sample::{plane_wf, SAMPLE_SCALE};

verus! {

/// Demosaic quality: bilinear interpolation, or the slower cubic kernel.
#[derive(Clone, Copy, Debug, PartialEq, Eq, Structural)]
pub enum DemosaicMode {
    Bilinear,
    Cubic,
}

/// A numeric stand-in for the CFA order, so the reconstruction's name
/// ranges over plain values.
pub open spec fn cfa_code(c: CfaPattern) -> int {
    match c {
        CfaPattern::Rggb => 0,
        CfaPattern::Bggr => 1,
        CfaPattern::Grbg => 2,
        CfaPattern::Gbrg => 3,
    }
}

/// A numeric stand-in for the algorithm choice.
pub open spec fn alg_code(a: DemosaicMode) -> int {
    match a {
        DemosaicMode::Bilinear => 0,
        DemosaicMode::Cubic => 1,
    }
}

/// The interleaved 16-bit RGB rows that demosaicing a 16-bit
/// little-endian mosaic produces: a function of the mosaic bytes, the
/// raster size, the CFA order and the algorithm alone.
pub uninterp spec fn demosaic_of(bytes: Seq<u8>, width: int, height: int, cfa: int, alg: int) -> Seq<
    u8,
>;

/// Relies on `bayer::run_demosaic` (with `BayerDepth::Depth16LE`) and
/// `bayer::RasterMut::new`, which wraps the caller-sized output buffer:
/// on success the buffer holds the demosaiced interleaved 16-bit RGB
/// rows (as the host lays out 16-bit values, read low byte first
/// downstream), which depend on the listed arguments alone.  The call
/// reads exactly `2 * width * height` mosaic bytes and fails only on a
/// raster smaller than its kernel (4x4 for the cubic kernel, 2x2 for the
/// bilinear one) or on too few bytes, so within those bounds it succeeds;
/// on failure nothing is promised of the buffer's contents.
#[verifier::external_body]
fn run_demosaic_16le(
    bytes: &Vec<u8>,
    width: usize,
    height: usize,
    cfa: CfaPattern,
    alg: DemosaicMode,
    out: &mut Vec<u8>,
) -> (r: bool)
    requires
        1 <= width,
        1 <= height,
        old(out)@.len() == 6 * width * height,
    ensures
        final(out)@.len() == old(out)@.len(),
        r ==> final(out)@ == demosaic_of(
            bytes@,
            width as int,
            height as int,
            cfa_code(cfa),
            alg_code(alg),
        ),
        (alg == DemosaicMode::Cubic && width >= 4 && height >= 4 && bytes@.len() >= 2 * width
            * height) ==> r,
        (alg == DemosaicMode::Bilinear && width >= 2 && height >= 2 && bytes@.len() >= 2 * width
            * height) ==> r,
{
    let c = match cfa {
        CfaPattern::Rggb => CFA::RGGB,
        CfaPattern::Bggr => CFA::BGGR,
        CfaPattern::Grbg => CFA::GRBG,
        CfaPattern::Gbrg => CFA::GBRG,
    };
    let a = if alg == DemosaicMode::Cubic { Demosaic::Cubic } else { Demosaic::Linear };
    let mut dst = RasterMut::new(width, height, RasterDepth::Depth16, out);
    let mut src = std::io::Cursor::new(bytes.as_slice());
    bayer::run_demosaic(&mut src, BayerDepth::Depth16LE, c, a, &mut dst).is_ok()
}

/// The little-endian byte form of a 16-bit plane.
pub open spec fn spec_u16_le(v: Seq<u16>) -> Seq<u8> {
    Seq::new(
        2 * v.len(),
        |j: int|
            if j % 2 == 0 {
                (v[j / 2] % 256) as u8
            } else {
                (v[j / 2] / 256) as u8
            },
    )
}

/// Pack a 16-bit plane into little-endian bytes.
fn u16s_to_le_bytes(v: &[u16]) -> (r: Vec<u8>)
    requires
        2 * v@.len() <= usize::MAX,
    ensures
        r@ =~= spec_u16_le(v@),
{
    let n: usize = v.len();
    let mut r: Vec<u8> = Vec::new();
    let mut i: usize = 0;
    while i < n
        invariant
            i <= n == v@.len(),
            2 * n <= usize::MAX,
            r@.len() == 2 * i,
            forall|k: int| 0 <= k < 2 * i ==> r@[k] == spec_u16_le(v@)[k],
        decreases n - i,
    {
        let x: u16 = v[i];
        r.push((x % 256) as u8);
        r.push((x / 256) as u8);
        i += 1;
    }
    r
}

/// Sample `idx` of the planar fixed-point image that interleaved 16-bit
/// RGB rows unpack to: plane `idx / npix`, pixel `idx % npix`.
pub open spec fn spec_plane_sample(rgb: Seq<u8>, npix: int, idx: int) -> i64 {
    let c = idx / npix;
    let i = idx % npix;
    ((rgb[6 * i + 2 * c] + 256 * rgb[6 * i + 2 * c + 1]) * SAMPLE_SCALE) as i64
}

/// Unpack interleaved little-endian 16-bit RGB rows into three planar
/// fixed-point planes.
fn planes_from_interleaved(rgb: &[u8], npix: usize) -> (r: Vec<i64>)
    requires
        npix >= 1,
        rgb@.len() == 6 * npix,
    ensures
        r@.len() == 3 * npix,
        forall|idx: int| 0 <= idx < 3 * npix ==> r@[idx] == spec_plane_sample(rgb@, npix as int, idx),
        plane_wf(r@),
        forall|idx: int|
            0 <= idx < 3 * npix ==> 0 <= #[trigger] r@[idx] <= 65535 * SAMPLE_SCALE,
{
    let n: usize = rgb.len();
    let mut r: Vec<i64> = Vec::new();
    let mut c: usize = 0;
    while c < 3
        invariant
            c <= 3,
            npix >= 1,
            n == rgb@.len() == 6 * npix,
            r@.len() == c * npix,
            forall|idx: int|
                0 <= idx < c * npix ==> r@[idx] == spec_plane_sample(rgb@, npix as int, idx),
            forall|idx: int|
                0 <= idx < c * npix ==> 0 <= #[trigger] r@[idx] <= 65535 * SAMPLE_SCALE,
        decreases 3 - c,
    {
        let mut i: usize = 0;
        while i < npix
            invariant
                c < 3,
                i <= npix,
                npix >= 1,
                n == rgb@.len() == 6 * npix,
                r@.len() == c * npix + i,
                forall|idx: int|
                    0 <= idx < c * npix + i ==> r@[idx] == spec_plane_sample(rgb@, npix as int, idx),
                forall|idx: int|
                    0 <= idx < c * npix + i ==> 0 <= #[trigger] r@[idx] <= 65535 * SAMPLE_SCALE,
            decreases npix - i,
        {
            proof {
                assert(6 * i + 2 * c + 1 < 6 * npix) by (nonlinear_arith)
                    requires
                        i < npix,
                        c < 3,
                {}
            }
            let lo: u16 = rgb[6 * i + 2 * c] as u16;
            let hi: u16 = rgb[6 * i + 2 * c + 1] as u16;
            let v: i64 = (lo as i64 + 256 * hi as i64) * SAMPLE_SCALE;
            proof {
                let idx = c * npix + i;
                vstd::arithmetic::div_mod::lemma_fundamental_div_mod_converse_div(
                    idx as int,
                    npix as int,
                    c as int,
                    i as int,
                );
                vstd::arithmetic::div_mod::lemma_fundamental_div_mod_converse_mod(
                    idx as int,
                    npix as int,
                    c as int,
                    i as int,
                );
                assert(spec_plane_sample(rgb@, npix as int, idx as int) == v);
            }
            r.push(v);
            i += 1;
        }
        proof {
            assert((c + 1) * npix == c * npix + npix) by (nonlinear_arith)
            {}
        }
        c += 1;
    }
    r
}

/// Reconstruct three planar fixed-point RGB planes from a 16-bit mosaic.
/// The only failure is the reconstruction's refusal of a raster smaller
/// than its kernel: success is owed whenever the mosaic is at least 4x4
/// for the cubic kernel, or 2x2 for the bilinear one.
pub fn debayer_u16(
    raw: &Vec<u16>,
    width: usize,
    height: usize,
    cfa: CfaPattern,
    alg: DemosaicMode,
) -> (r: Result<Vec<i64>, FitsError>)
    requires
        1 <= width,
        1 <= height,
        raw@.len() == width * height,
        width * height * 6 <= usize::MAX,
    ensures
        match r {
            Ok(p) => {
                let rgbb = demosaic_of(
                    spec_u16_le(raw@),
                    width as int,
                    height as int,
                    cfa_code(cfa),
                    alg_code(alg),
                );
                &&& rgbb.len() == 6 * width * height
                &&& p@.len() == 3 * width * height
                &&& forall|idx: int|
                    0 <= idx < p@.len() ==> p@[idx] == spec_plane_sample(
                        rgbb,
                        (width * height) as int,
                        idx,
                    )
                &&& plane_wf(p@)
                &&& forall|idx: int|
                    0 <= idx < p@.len() ==> 0 <= #[trigger] p@[idx] <= 65535 * SAMPLE_SCALE
            },
            Err(e) => e == FitsError::Reconstruction,
        },
        (alg == DemosaicMode::Cubic && width >= 4 && height >= 4) ==> r is Ok,
        (alg == DemosaicMode::Bilinear && width >= 2 && height >= 2) ==> r is Ok,
{
    let npix: usize = width * height;
    proof {
        assert(2 * (width * height) <= 6 * (width * height)) by (nonlinear_arith)
            requires
                width * height >= 0,
        {}
        assert(width * height >= 1) by (nonlinear_arith)
            requires
                width >= 1,
                height >= 1,
        {}
        assert((width * height) * 6 == 6 * width * height && 3 * (width * height) == (3 * width)
            * height) by (nonlinear_arith)
        {}
    }
    let bytes = u16s_to_le_bytes(raw.as_slice());
    proof {
        assert(bytes@.len() == 2 * width * height) by (nonlinear_arith)
            requires
                bytes@.len() == 2 * (width * height),
        {}
    }
    let mut buf: Vec<u8> = Vec::new();
    let total: usize = npix * 6;
    let mut z: usize = 0;
    while z < total
        invariant
            z <= total,
            buf@.len() == z,
        decreases total - z,
    {
        buf.push(0);
        z += 1;
    }
    if run_demosaic_16le(&bytes, width, height, cfa, alg, &mut buf) {
        Ok(planes_from_interleaved(buf.as_slice(), npix))
    } else {
        Err(FitsError::Reconstruction)
    }
}

} // verus!
