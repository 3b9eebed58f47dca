//! The image extractor: find the first HDU with non-empty pixel data,
//! interpret its shape, and decode its raw samples into the fixed-point
//! sample domain, honoring the FITS `BSCALE`/`BZERO` linear rescale.

use vstd::prelude::*;
use crate::error::FitsError;
use crate::header::{
    all_ascii, axis_val, spec_cards_from, spec_data_size, spec_find_header_int, spec_header_end,
    spec_pad_key, spec_parse_card, spec_strip_comment, data_size_exec, find_header_int,
    header_end_exec, key_bitpix, key_naxis,
};
use crate::text::spec_starts_with;
use crate::numparse::{parse_fixed_bytes, spec_parse_fixed};
use crate::sample::{
    f32_sample, f64_sample, plane_wf, sample_is_finite, sample_wf, scaled_float, scaled_int,
    spec_f32_sample, spec_f64_sample, spec_scaled_float, spec_scaled_int, MAX_SAMPLE, NON_FINITE,
    SAMPLE_SCALE,
};
use crate::text::{spec_trim, subvec, trim_bytes};

verus! {

/// The number of axes of the HDU whose header is `region`, from its
/// `NAXIS` card; 0 when absent or unreadable.
pub open spec fn spec_naxis(region: Seq<u8>) -> int {
    match spec_find_header_int(region, key_naxis()) {
        Some(v) => v as int,
        None => 0,
    }
}

/// The `BITPIX` of the HDU whose header is `region`; `None` when absent.
pub open spec fn spec_bitpix(region: Seq<u8>) -> Option<i64> {
    spec_find_header_int(region, key_bitpix())
}

/// Every axis in `1..=naxis` has positive length.
pub open spec fn axes_positive(region: Seq<u8>, naxis: int) -> bool {
    forall|i: int| 1 <= i <= naxis ==> #[trigger] axis_val(region, i) >= 1
}

/// An HDU holds non-empty image data: one to 999 axes, all positive.
pub open spec fn spec_nondegenerate(region: Seq<u8>) -> bool {
    1 <= spec_naxis(region) <= 999 && axes_positive(region, spec_naxis(region))
}

/// The header byte range of the first HDU holding non-empty image data,
/// walking from `off`.  A clean end of file without one is `NotFound`.
pub open spec fn spec_find_image(h: Seq<u8>, off: int) -> Result<(int, int), FitsError>
    decreases h.len() - off,
{
    if off == h.len() {
        Err(FitsError::NotFound)
    } else {
        match spec_header_end(h, off) {
            Err(e) => Err(e),
            Ok(he) => {
                let region = h.subrange(off, he);
                if spec_nondegenerate(region) {
                    Ok((off, he))
                } else {
                    let next = he + spec_data_size(region);
                    if next > h.len() || next <= off {
                        Err(FitsError::FileError)
                    } else {
                        spec_find_image(h, next)
                    }
                }
            },
        }
    }
}

/// Whether the HDU whose header is `region` holds non-empty image data.
fn nondegenerate_exec(region: &[u8]) -> (r: bool)
    ensures
        r == spec_nondegenerate(region@),
{
    let naxis_key_v: Vec<u8> = vec![78u8, 65u8, 88u8, 73u8, 83u8];
    proof {
        assert(naxis_key_v@ =~= key_naxis());
    }
    let naxis: i64 = match find_header_int(region, naxis_key_v.as_slice()) {
        Some(v) => v,
        None => 0,
    };
    if naxis < 1 || naxis > 999 {
        return false;
    }
    let na: u16 = naxis as u16;
    let mut i: u16 = 1;
    while i <= na
        invariant
            1 <= i <= na + 1,
            1 <= na <= 999,
            na == spec_naxis(region@),
            forall|k: int| 1 <= k < i ==> #[trigger] axis_val(region@, k) >= 1,
        decreases na + 1 - i,
    {
        if crate::header::axis_val_exec(region, i) == 0 {
            return false;
        }
        i += 1;
    }
    true
}

/// Find the header range of the first image-bearing HDU.
pub fn find_image(h: &[u8]) -> (r: Result<(usize, usize), FitsError>)
    ensures
        match r {
            Ok(se) => spec_find_image(h@, 0) == Ok::<(int, int), FitsError>(
                (se.0 as int, se.1 as int),
            ) && se.0 < se.1 <= h@.len(),
            Err(e) => spec_find_image(h@, 0) == Err::<(int, int), FitsError>(e),
        },
{
    let n: usize = h.len();
    let mut off: usize = 0;
    loop
        invariant
            off <= n == h@.len(),
            spec_find_image(h@, 0) == spec_find_image(h@, off as int),
        decreases n - off,
    {
        if off == n {
            return Err(FitsError::NotFound);
        }
        let he: usize = match header_end_exec(h, off) {
            Ok(e) => e,
            Err(x) => {
                return Err(x);
            },
        };
        let region = subvec(h, off, he);
        proof {
            assert(region@ =~= h@.subrange(off as int, he as int));
        }
        if nondegenerate_exec(region.as_slice()) {
            return Ok((off, he));
        }
        let skip: u128 = data_size_exec(region.as_slice());
        if skip > (n - he) as u128 {
            return Err(FitsError::FileError);
        }
        off = he + (skip as usize);
    }
}

/// Bytes per stored sample for each `BITPIX`; 0 marks an invalid one.
pub open spec fn bytes_per_sample(bitpix: int) -> int {
    if bitpix == 8 {
        1
    } else if bitpix == 16 {
        2
    } else if bitpix == 32 || bitpix == -32 {
        4
    } else if bitpix == 64 || bitpix == -64 {
        8
    } else {
        0
    }
}

/// Big-endian unsigned value of `k` bytes at `p`.
pub open spec fn be_val(h: Seq<u8>, p: int, k: int) -> int
    decreases k,
{
    if k <= 0 || p < 0 || p + k > h.len() {
        0
    } else {
        be_val(h, p, k - 1) * 256 + h[p + k - 1]
    }
}

/// The sample that position `i` of the data segment at `base` decodes to:
/// the stored big-endian value (two's complement for the integer forms,
/// IEEE 754 for the floating forms) under the linear rescale.
pub open spec fn spec_sample_at(
    h: Seq<u8>,
    base: int,
    i: int,
    bitpix: int,
    bscale_u: int,
    bzero_u: int,
) -> i64 {
    let k = bytes_per_sample(bitpix);
    let p = base + i * k;
    let u = be_val(h, p, k);
    if bitpix == 8 {
        spec_scaled_int(u, bscale_u, bzero_u)
    } else if bitpix == 16 {
        let st = if u >= 0x8000 {
            u - 0x10000
        } else {
            u
        };
        spec_scaled_int(st, bscale_u, bzero_u)
    } else if bitpix == 32 {
        let st = if u >= 0x8000_0000 {
            u - 0x1_0000_0000
        } else {
            u
        };
        spec_scaled_int(st, bscale_u, bzero_u)
    } else if bitpix == 64 {
        let st = if u >= 0x8000_0000_0000_0000 {
            u - 0x1_0000_0000_0000_0000
        } else {
            u
        };
        spec_scaled_int(st, bscale_u, bzero_u)
    } else if bitpix == -32 {
        spec_scaled_float(spec_f32_sample(u as u32), bscale_u, bzero_u)
    } else {
        spec_scaled_float(spec_f64_sample(u as u64), bscale_u, bzero_u)
    }
}

/// Big-endian read of `k <= 8` bytes.
fn be_val_exec(h: &[u8], p: usize, k: usize) -> (r: u64)
    requires
        1 <= k <= 8,
        p + k <= h@.len(),
    ensures
        r == be_val(h@, p as int, k as int),
{
    let n: usize = h.len();
    let mut r: u64 = 0;
    let mut j: usize = 0;
    proof {
        lemma_be_val_bound(h@, p as int, 0);
    }
    while j < k
        invariant
            j <= k <= 8,
            n == h@.len(),
            p + k <= n,
            r == be_val(h@, p as int, j as int),
            r < pow256(j as int),
        decreases k - j,
    {
        proof {
            lemma_be_val_bound(h@, p as int, j + 1);
            assert(pow256(8) == 0x1_0000_0000_0000_0000) by {
                reveal_with_fuel(pow256, 9);
            }
            lemma_pow256_monotone(j + 1, 8);
        }
        r = r * 256 + (h[p + j] as u64);
        j += 1;
    }
    r
}

/// `256^k`.
pub open spec fn pow256(k: int) -> int
    decreases k,
{
    if k <= 0 {
        1
    } else {
        256 * pow256(k - 1)
    }
}

proof fn lemma_pow256_monotone(a: int, b: int)
    requires
        0 <= a <= b,
    ensures
        1 <= pow256(a) <= pow256(b),
    decreases b,
{
    if a < b {
        lemma_pow256_monotone(a, b - 1);
    } else if b > 0 {
        lemma_pow256_monotone(a - 1, b - 1);
    }
}

proof fn lemma_be_val_bound(h: Seq<u8>, p: int, k: int)
    requires
        0 <= p,
        p + k <= h.len(),
    ensures
        0 <= be_val(h, p, k) < pow256(k),
    decreases k,
{
    if k <= 0 {
    } else {
        lemma_be_val_bound(h, p, k - 1);
        assert(be_val(h, p, k - 1) * 256 + h[p + k - 1] < pow256(k)) by (nonlinear_arith)
            requires
                0 <= be_val(h, p, k - 1) < pow256(k - 1),
                pow256(k) == 256 * pow256(k - 1),
                0 <= h[p + k - 1] < 256,
        {}
        assert(be_val(h, p, k - 1) * 256 >= 0) by (nonlinear_arith)
            requires
                be_val(h, p, k - 1) >= 0,
        {}
    }
}

/// Decode sample `i` of the data segment.
fn sample_at_exec(h: &[u8], base: usize, i: usize, bitpix: i64, bscale_u: i64, bzero_u: i64) -> (r:
    i64)
    requires
        bytes_per_sample(bitpix as int) >= 1,
        base + (i + 1) * bytes_per_sample(bitpix as int) <= h@.len(),
        -MAX_SAMPLE <= bscale_u <= MAX_SAMPLE,
        -MAX_SAMPLE <= bzero_u <= MAX_SAMPLE,
    ensures
        r == spec_sample_at(h@, base as int, i as int, bitpix as int, bscale_u as int,
            bzero_u as int),
        sample_wf(r),
{
    let k: usize = if bitpix == 8 {
        1
    } else if bitpix == 16 {
        2
    } else if bitpix == 32 || bitpix == -32 {
        4
    } else {
        8
    };
    let hn: usize = h.len();
    proof {
        assert(base + i * k + k <= hn) by (nonlinear_arith)
            requires
                base + (i + 1) * k <= hn,
        {}
        assert(i * k >= 0) by (nonlinear_arith)
            requires
                i >= 0,
                k >= 1,
        {}
    }
    let p: usize = base + i * k;
    let u: u64 = be_val_exec(h, p, k);
    proof {
        lemma_be_val_bound(h@, p as int, k as int);
        assert(pow256(1) == 256 && pow256(2) == 0x10000 && pow256(4) == 0x1_0000_0000 && pow256(8)
            == 0x1_0000_0000_0000_0000) by {
            reveal_with_fuel(pow256, 9);
        }
    }
    if bitpix == 8 {
        scaled_int(u as i64, bscale_u, bzero_u)
    } else if bitpix == 16 {
        let st: i64 = if u >= 0x8000 {
            u as i64 - 0x10000
        } else {
            u as i64
        };
        scaled_int(st, bscale_u, bzero_u)
    } else if bitpix == 32 {
        let st: i64 = if u >= 0x8000_0000 {
            u as i64 - 0x1_0000_0000
        } else {
            u as i64
        };
        scaled_int(st, bscale_u, bzero_u)
    } else if bitpix == 64 {
        let st: i64 = if u >= 0x8000_0000_0000_0000 {
            ((u as i128) - 0x1_0000_0000_0000_0000i128) as i64
        } else {
            u as i64
        };
        scaled_int(st, bscale_u, bzero_u)
    } else if bitpix == -32 {
        scaled_float(f32_sample(u as u32), bscale_u, bzero_u)
    } else {
        scaled_float(f64_sample(u), bscale_u, bzero_u)
    }
}

/// Decode `npix` samples of the data segment at `base` into the
/// fixed-point sample domain.
pub fn extract_samples(
    h: &[u8],
    base: usize,
    npix: usize,
    bitpix: i64,
    bscale_u: i64,
    bzero_u: i64,
) -> (r: Vec<i64>)
    requires
        bytes_per_sample(bitpix as int) >= 1,
        base + npix * bytes_per_sample(bitpix as int) <= h@.len(),
        -MAX_SAMPLE <= bscale_u <= MAX_SAMPLE,
        -MAX_SAMPLE <= bzero_u <= MAX_SAMPLE,
    ensures
        r@.len() == npix,
        forall|i: int|
            0 <= i < npix ==> r@[i] == spec_sample_at(h@, base as int, i, bitpix as int,
                bscale_u as int, bzero_u as int),
        plane_wf(r@),
{
    let mut r: Vec<i64> = Vec::new();
    let mut i: usize = 0;
    while i < npix
        invariant
            i <= npix,
            bytes_per_sample(bitpix as int) >= 1,
            base + npix * bytes_per_sample(bitpix as int) <= h@.len(),
            -MAX_SAMPLE <= bscale_u <= MAX_SAMPLE,
            -MAX_SAMPLE <= bzero_u <= MAX_SAMPLE,
            r@.len() == i,
            forall|k: int|
                0 <= k < i ==> r@[k] == spec_sample_at(h@, base as int, k, bitpix as int,
                    bscale_u as int, bzero_u as int),
            forall|k: int| 0 <= k < i ==> crate::sample::sample_wf(#[trigger] r@[k]),
        decreases npix - i,
    {
        proof {
            assert((i + 1) * bytes_per_sample(bitpix as int) <= npix * bytes_per_sample(
                bitpix as int,
            )) by (nonlinear_arith)
                requires
                    i + 1 <= npix,
                    bytes_per_sample(bitpix as int) >= 1,
            {}
        }
        let v: i64 = sample_at_exec(h, base, i, bitpix, bscale_u, bzero_u);
        r.push(v);
        i += 1;
    }
    r
}

/// The raw value text of the first record with the padded key and a `= `
/// value field, comment stripped and trimmed; like the integer lookup, a
/// matching non-ASCII record fails it.
pub open spec fn spec_find_value_from(h: Seq<u8>, kp: Seq<u8>, c: int) -> Option<Seq<u8>>
    decreases h.len() - c * 80,
{
    if c < 0 || (c + 1) * 80 > h.len() {
        None
    } else {
        let rec = h.subrange(c * 80, c * 80 + 80);
        if spec_starts_with(rec, kp) {
            if !all_ascii(rec) {
                None
            } else if rec[8] == 61 && rec[9] == 32 {
                Some(spec_trim(spec_strip_comment(spec_trim(rec.skip(10)))))
            } else {
                spec_find_value_from(h, kp, c + 1)
            }
        } else {
            spec_find_value_from(h, kp, c + 1)
        }
    }
}

/// The value text of keyword `key` in raw header bytes.
pub open spec fn spec_find_header_value(h: Seq<u8>, key: Seq<u8>) -> Option<Seq<u8>> {
    spec_find_value_from(h, spec_pad_key(key), 0)
}

proof fn lemma_find_value_none_long_key(h: Seq<u8>, kp: Seq<u8>, c: int)
    requires
        kp.len() > 80,
    ensures
        spec_find_value_from(h, kp, c) is None,
    decreases h.len() - c * 80,
{
    if c >= 0 && (c + 1) * 80 <= h.len() {
        lemma_find_value_none_long_key(h, kp, c + 1);
    }
}

/// Look up the raw value text of a keyword.
pub fn find_header_value(header_bytes: &[u8], key: &[u8]) -> (r: Option<Vec<u8>>)
    ensures
        match r {
            Some(v) => spec_find_header_value(header_bytes@, key@) == Some(v@),
            None => spec_find_header_value(header_bytes@, key@) is None,
        },
{
    let kp = crate::header::pad_key_exec(key);
    let n: usize = header_bytes.len();
    if kp.len() > 80 {
        proof {
            lemma_find_value_none_long_key(header_bytes@, kp@, 0);
        }
        return None;
    }
    let full: usize = n / 80;
    let mut c: usize = 0;
    while c < full
        invariant
            n == header_bytes@.len(),
            full == n / 80,
            kp@ =~= spec_pad_key(key@),
            kp@.len() <= 80,
            c <= full,
            spec_find_value_from(header_bytes@, kp@, 0) == spec_find_value_from(
                header_bytes@,
                kp@,
                c as int,
            ),
        decreases full - c,
    {
        assert((c + 1) * 80 <= n) by (nonlinear_arith)
            requires
                c < full,
                full == n / 80,
                n >= 0,
        {}
        let base: usize = c * 80;
        let rec = subvec(header_bytes, base, base + 80);
        proof {
            assert(rec@ =~= header_bytes@.subrange(c as int * 80, c as int * 80 + 80));
        }
        if crate::text::starts_with_bytes(rec.as_slice(), kp.as_slice()) {
            if !crate::header::all_ascii_exec(rec.as_slice()) {
                return None;
            }
            if rec[8] == 61 && rec[9] == 32 {
                let tail = subvec(rec.as_slice(), 10, 80);
                proof {
                    assert(tail@ =~= rec@.skip(10));
                }
                let t1 = trim_bytes(tail.as_slice());
                let stripped = crate::header::strip_fits_comment(t1.as_slice());
                let t2 = trim_bytes(stripped.as_slice());
                return Some(t2);
            }
        }
        c += 1;
    }
    proof {
        assert((c as int + 1) * 80 > n) by (nonlinear_arith)
            requires
                c == n / 80,
                n >= 0,
        {}
    }
    None
}

/// `BSCALE` as bytes.
pub open spec fn key_bscale() -> Seq<u8> {
    seq![66u8, 83u8, 67u8, 65u8, 76u8, 69u8]
}

/// `BZERO` as bytes.
pub open spec fn key_bzero() -> Seq<u8> {
    seq![66u8, 90u8, 69u8, 82u8, 79u8]
}

/// The `BSCALE` factor in sample units: the card's value when it parses
/// as a FITS real, 1.0 otherwise or when absent.
pub open spec fn spec_bscale_u(region: Seq<u8>) -> int {
    match spec_find_header_value(region, key_bscale()) {
        Some(v) => match spec_parse_fixed(v) {
            Some(x) => x as int,
            None => SAMPLE_SCALE as int,
        },
        None => SAMPLE_SCALE as int,
    }
}

/// The `BZERO` offset in sample units: the card's value when it parses as
/// a FITS real, 0.0 otherwise or when absent.
pub open spec fn spec_bzero_u(region: Seq<u8>) -> int {
    match spec_find_header_value(region, key_bzero()) {
        Some(v) => match spec_parse_fixed(v) {
            Some(x) => x as int,
            None => 0,
        },
        None => 0,
    }
}

/// Read the linear-rescale factors from a header region.
pub fn scale_factors(region: &[u8]) -> (r: (i64, i64))
    ensures
        r.0 == spec_bscale_u(region@),
        r.1 == spec_bzero_u(region@),
        -MAX_SAMPLE <= r.0 <= MAX_SAMPLE,
        -MAX_SAMPLE <= r.1 <= MAX_SAMPLE,
{
    let bscale_key: Vec<u8> = vec![66u8, 83u8, 67u8, 65u8, 76u8, 69u8];
    proof {
        assert(bscale_key@ =~= key_bscale());
    }
    let bscale_u: i64 = match find_header_value(region, bscale_key.as_slice()) {
        Some(v) => match parse_fixed_bytes(v.as_slice()) {
            Some(x) => x,
            None => SAMPLE_SCALE,
        },
        None => SAMPLE_SCALE,
    };
    let bzero_key: Vec<u8> = vec![66u8, 90u8, 69u8, 82u8, 79u8];
    proof {
        assert(bzero_key@ =~= key_bzero());
    }
    let bzero_u: i64 = match find_header_value(region, bzero_key.as_slice()) {
        Some(v) => match parse_fixed_bytes(v.as_slice()) {
            Some(x) => x,
            None => 0,
        },
        None => 0,
    };
    proof {
        lemma_parse_fixed_range(region@);
    }
    (bscale_u, bzero_u)
}

proof fn lemma_parse_fixed_range(region: Seq<u8>)
    ensures
        -MAX_SAMPLE <= spec_bscale_u(region) <= MAX_SAMPLE,
        -MAX_SAMPLE <= spec_bzero_u(region) <= MAX_SAMPLE,
{
    match spec_find_header_value(region, key_bscale()) {
        Some(v) => {
            crate::numparse::lemma_parse_fixed_bounded(v);
        },
        None => {
        },
    }
    match spec_find_header_value(region, key_bzero()) {
        Some(v) => {
            crate::numparse::lemma_parse_fixed_bounded(v);
        },
        None => {
        },
    }
}

/// The display sample a raw sample rounds to in 16-bit space, for the
/// demosaic path: nearest integer, clamped into `0..=65535`; a non-finite
/// sample counts as 0.
pub open spec fn spec_u16_of_sample(s: i64) -> u16 {
    if !sample_is_finite(s) {
        0
    } else {
        let q = (s + SAMPLE_SCALE / 2) / (SAMPLE_SCALE as int);
        if q < 0 {
            0
        } else if q > 65535 {
            65535
        } else {
            q as u16
        }
    }
}

/// Round samples into a 16-bit plane for demosaicing.
pub fn samples_to_u16(data: &[i64]) -> (r: Vec<u16>)
    requires
        plane_wf(data@),
    ensures
        r@.len() == data@.len(),
        forall|i: int| 0 <= i < data@.len() ==> r@[i] == spec_u16_of_sample(#[trigger] data@[i]),
{
    let n: usize = data.len();
    let mut r: Vec<u16> = Vec::new();
    let mut i: usize = 0;
    while i < n
        invariant
            i <= n == data@.len(),
            plane_wf(data@),
            r@.len() == i,
            forall|k: int| 0 <= k < i ==> r@[k] == spec_u16_of_sample(#[trigger] data@[k]),
        decreases n - i,
    {
        let s: i64 = data[i];
        let v: u16 = if s == NON_FINITE {
            0
        } else if s < 0 {
            proof {
                if s + SAMPLE_SCALE / 2 >= 0 {
                    vstd::arithmetic::div_mod::lemma_basic_div(
                        s as int + SAMPLE_SCALE / 2,
                        SAMPLE_SCALE as int,
                    );
                } else {
                    vstd::arithmetic::div_mod::lemma_div_is_ordered(
                        s as int + SAMPLE_SCALE / 2,
                        -1,
                        SAMPLE_SCALE as int,
                    );
                    vstd::arithmetic::div_mod::lemma_fundamental_div_mod_converse_div(
                        -1,
                        SAMPLE_SCALE as int,
                        -1,
                        SAMPLE_SCALE as int - 1,
                    );
                }
            }
            0
        } else {
            let q: i64 = (s + SAMPLE_SCALE / 2) / SAMPLE_SCALE;
            proof {
                vstd::arithmetic::div_mod::lemma_div_pos_is_pos(
                    s as int + SAMPLE_SCALE / 2,
                    SAMPLE_SCALE as int,
                );
            }
            if q > 65535 {
                65535
            } else {
                q as u16
            }
        };
        r.push(v);
        i += 1;
    }
    r
}

/// What a successful image search guarantees of the HDU it found.
pub proof fn lemma_find_image_ok(h: Seq<u8>, off: int)
    ensures
        match spec_find_image(h, off) {
            Ok(se) => spec_header_end(h, se.0) == Ok::<int, FitsError>(se.1)
                && spec_nondegenerate(h.subrange(se.0, se.1)),
            Err(e) => true,
        },
    decreases h.len() - off,
{
    if off == h.len() {
    } else {
        match spec_header_end(h, off) {
            Err(e) => {
            },
            Ok(he) => {
                let region = h.subrange(off, he);
                if spec_nondegenerate(region) {
                } else {
                    let next = he + spec_data_size(region);
                    if next > h.len() || next <= off {
                    } else {
                        lemma_find_image_ok(h, next);
                    }
                }
            },
        }
    }
}

} // verus!
