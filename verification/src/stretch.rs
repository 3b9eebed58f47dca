//! The stretch engine: lookup tables mapping raw pixel values to display
//! brightness.
//!
//! Two modes: a linear identity ramp, and the histogram/MTF autostretch
//! that renders the sky background at a fixed display fraction.  All
//! arithmetic is exact fixed-point integer arithmetic over `sample` units,
//! so every formula here is proved, including that the autostretch table
//! never inverts brightness.

use vstd::prelude::*;
use crate::sample::{sample_is_finite, plane_wf, MAX_SAMPLE, SAMPLE_SCALE};

verus! {

/// Entries in a stretch lookup table.
pub const LUT_SIZE: usize = 4096;

/// Bins in the histograms behind percentile and median estimates.
pub const BINS: usize = 4096;

/// The display fraction the sky background is mapped to, in `SAMPLE_SCALE`
/// units (10%).
pub const TARGET_BG: i64 = 100_000;

/// Numerator of the low outlier percentile (0.02%), over `PCTILE_DEN`.
pub const LOW_PCTILE_NUM: u64 = 2;

/// Numerator of the high outlier percentile (99.98%), over `PCTILE_DEN`.
pub const HIGH_PCTILE_NUM: u64 = 9998;

/// Denominator of the percentile fractions.
pub const PCTILE_DEN: u64 = 10_000;

/// The histogram bin of sample `v` over the range `[lo, hi]`: proportional
/// position, truncated, clamped into `0 .. BINS`.
pub open spec fn bin_of(v: int, lo: int, hi: int) -> int {
    if v <= lo {
        0
    } else if v >= hi {
        (BINS - 1) as int
    } else {
        ((v - lo) * (BINS - 1)) / (hi - lo)
    }
}

/// How many finite samples of `data` fall in bins `0 ..= b` over `[lo, hi]`.
pub open spec fn count_le_bin(data: Seq<i64>, lo: int, hi: int, b: int) -> int
    decreases data.len(),
{
    if data.len() == 0 {
        0
    } else {
        count_le_bin(data.drop_last(), lo, hi, b) + if sample_is_finite(data.last())
            && bin_of(data.last() as int, lo, hi) <= b {
            1int
        } else {
            0int
        }
    }
}

/// How many finite samples `data` holds.
pub open spec fn count_finite(data: Seq<i64>) -> int
    decreases data.len(),
{
    if data.len() == 0 {
        0
    } else {
        count_finite(data.drop_last()) + if sample_is_finite(data.last()) {
            1int
        } else {
            0int
        }
    }
}

/// The least bin whose cumulative count reaches `target`, scanning from
/// `b`; the last bin if none does.
pub open spec fn least_bin_reaching(data: Seq<i64>, lo: int, hi: int, target: int, b: int) -> int
    decreases (BINS - b),
{
    if b < 0 || b >= (BINS - 1) as int {
        (BINS - 1) as int
    } else if count_le_bin(data, lo, hi, b) >= target {
        b
    } else {
        least_bin_reaching(data, lo, hi, target, b + 1)
    }
}

/// `ceil(count * num / den)`.
pub open spec fn pct_target(count: int, num: int, den: int) -> int {
    (count * num + (den - 1)) / den
}

/// The bin of the `num/den` percentile of `data`'s finite samples over
/// `[0, bd]`; the last bin when no sample is finite.
pub open spec fn spec_percentile_bin(data: Seq<i64>, bd: int, num: int) -> int {
    let count = count_finite(data);
    if count == 0 {
        (BINS - 1) as int
    } else {
        least_bin_reaching(data, 0, bd, pct_target(count, num, PCTILE_DEN as int), 0)
    }
}

/// The bin of the median of `data`'s finite samples, histogrammed over
/// `[lo, hi]`; the mid bin when the range is empty or no sample is finite.
pub open spec fn spec_median_bin(data: Seq<i64>, lo: int, hi: int) -> int {
    let count = count_finite(data);
    if count == 0 || lo >= hi {
        (BINS / 2) as int
    } else {
        least_bin_reaching(data, lo, hi, (count + 1) / 2, 0)
    }
}

/// The midtone transfer function in `SAMPLE_SCALE` units:
/// `MTF(x, m) = (m - 1) x / ((2 m - 1) x - m)` over `[0, 1]`, with the
/// endpoint and degenerate-midtone guards.
pub open spec fn spec_mtf(x: int, m: int) -> int {
    let s = SAMPLE_SCALE as int;
    if x <= 0 {
        0
    } else if x >= s {
        s
    } else if m <= 0 {
        0
    } else if m >= s {
        s
    } else {
        // numerator and denominator of the real formula, both negated to
        // stay nonnegative: (1 - m) x / (m + (1 - 2 m) x)  [times s]
        ((s - m) * x * s) / ((m * s + (s - 2 * m) * x))
    }
}

/// The midtone parameter that sends `x_bg` to `TARGET_BG`, from the
/// closed-form inverse of the MTF, in `SAMPLE_SCALE` units.
pub open spec fn spec_solve_midtone(x_bg: int) -> int {
    let s = SAMPLE_SCALE as int;
    let t = TARGET_BG as int;
    (x_bg * (s - t) * s) / (t * s + x_bg * s - 2 * x_bg * t)
}

/// `0 <= a` and `a <= b * c` give `0 <= a / b <= c`.
proof fn lemma_div_in_range(a: int, b: int, c: int)
    requires
        0 <= a,
        0 < b,
        0 <= c,
        a <= b * c,
    ensures
        0 <= a / b <= c,
{
    vstd::arithmetic::div_mod::lemma_div_pos_is_pos(a, b);
    vstd::arithmetic::div_mod::lemma_div_is_ordered(a, b * c, b);
    vstd::arithmetic::div_mod::lemma_div_multiples_vanish(c, b);
}

/// Quotients of nonnegative fractions are ordered as the fractions are:
/// `n1 / d1 <= n2 / d2` when `n1 * d2 <= n2 * d1`.
proof fn lemma_div_frac_le(n1: int, d1: int, n2: int, d2: int)
    requires
        0 <= n1,
        0 < d1,
        0 <= n2,
        0 < d2,
        n1 * d2 <= n2 * d1,
    ensures
        n1 / d1 <= n2 / d2,
{
    let q = n1 / d1;
    vstd::arithmetic::div_mod::lemma_div_pos_is_pos(n1, d1);
    vstd::arithmetic::div_mod::lemma_fundamental_div_mod(n1, d1);
    vstd::arithmetic::div_mod::lemma_mod_division_less_than_divisor(n1, d1);
    assert(q * d1 <= n1);
    assert(q * d1 * d2 <= n1 * d2) by (nonlinear_arith)
        requires
            q * d1 <= n1,
            d2 > 0,
    {}
    assert((q * d2) * d1 <= n2 * d1) by (nonlinear_arith)
        requires
            q * d1 * d2 <= n1 * d2,
            n1 * d2 <= n2 * d1,
    {}
    assert(q * d2 <= n2) by (nonlinear_arith)
        requires
            (q * d2) * d1 <= n2 * d1,
            d1 > 0,
    {}
    vstd::arithmetic::div_mod::lemma_div_is_ordered(q * d2, n2, d2);
    vstd::arithmetic::div_mod::lemma_div_multiples_vanish(q, d2);
    assert((d2 * q) / d2 == q);
    assert(q * d2 == d2 * q) by (nonlinear_arith)
    {}
}

/// Midtone transfer function, exact in fixed point.
pub fn mtf(x: i64, m: i64) -> (r: i64)
    ensures
        r == spec_mtf(x as int, m as int),
        0 <= r <= SAMPLE_SCALE,
{
    let s: i64 = SAMPLE_SCALE;
    if x <= 0 {
        return 0;
    }
    if x >= s {
        return s;
    }
    if m <= 0 {
        return 0;
    }
    if m >= s {
        return s;
    }
    proof {
        assert(0 < (s - m) * x <= s * s) by (nonlinear_arith)
            requires
                0 < m < s,
                0 < x < s,
        {}
        assert(0 < m * s + (s - 2 * m) * x <= 2 * s * s && (s - m) * x <= m * s + (s - 2 * m)
            * x) by (nonlinear_arith)
            requires
                0 < m < s,
                0 < x < s,
        {}
    }
    let num: i64 = (s - m) * x;
    let den: i64 = m * s + (s - 2 * m) * x;
    proof {
        assert(num * s <= s * s * s) by (nonlinear_arith)
            requires
                0 <= num <= s * s,
                s > 0,
        {}
        assert(num * s <= den * s) by (nonlinear_arith)
            requires
                num <= den,
                s >= 0,
        {}
        lemma_div_in_range((num * s) as int, den as int, s as int);
    }
    num * s / den
}

/// How many finite samples of `data` fall exactly in bin `b`.
pub open spec fn count_in_bin(data: Seq<i64>, lo: int, hi: int, b: int) -> int
    decreases data.len(),
{
    if data.len() == 0 {
        0
    } else {
        count_in_bin(data.drop_last(), lo, hi, b) + if sample_is_finite(data.last())
            && bin_of(data.last() as int, lo, hi) == b {
            1int
        } else {
            0int
        }
    }
}

proof fn lemma_bin_of_range(v: int, lo: int, hi: int)
    requires
        lo < hi,
    ensures
        0 <= bin_of(v, lo, hi) < BINS,
{
    if lo < v < hi {
        assert((v - lo) * (BINS - 1) <= (hi - lo) * (BINS - 1)) by (nonlinear_arith)
            requires
                v - lo <= hi - lo,
        {}
        lemma_div_in_range((v - lo) * (BINS - 1), hi - lo, (BINS - 1) as int);
    }
}

proof fn lemma_count_le_split(data: Seq<i64>, lo: int, hi: int, b: int)
    ensures
        count_le_bin(data, lo, hi, b) == count_le_bin(data, lo, hi, b - 1) + count_in_bin(
            data,
            lo,
            hi,
            b,
        ),
    decreases data.len(),
{
    if data.len() > 0 {
        lemma_count_le_split(data.drop_last(), lo, hi, b);
    }
}

proof fn lemma_count_le_low(data: Seq<i64>, lo: int, hi: int, b: int)
    requires
        lo < hi,
        b < 0,
    ensures
        count_le_bin(data, lo, hi, b) == 0,
    decreases data.len(),
{
    if data.len() > 0 {
        lemma_count_le_low(data.drop_last(), lo, hi, b);
        lemma_bin_of_range(data.last() as int, lo, hi);
    }
}

proof fn lemma_count_le_full(data: Seq<i64>, lo: int, hi: int, b: int)
    requires
        lo < hi,
        b >= BINS - 1,
    ensures
        count_le_bin(data, lo, hi, b) == count_finite(data),
    decreases data.len(),
{
    if data.len() > 0 {
        lemma_count_le_full(data.drop_last(), lo, hi, b);
        lemma_bin_of_range(data.last() as int, lo, hi);
    }
}

proof fn lemma_counts_bounded(data: Seq<i64>, lo: int, hi: int, b: int)
    ensures
        0 <= count_finite(data) <= data.len(),
        0 <= count_le_bin(data, lo, hi, b) <= count_finite(data),
        0 <= count_in_bin(data, lo, hi, b) <= count_finite(data),
    decreases data.len(),
{
    if data.len() > 0 {
        lemma_counts_bounded(data.drop_last(), lo, hi, b);
    }
}

/// Histogram of `data`'s finite samples over `[lo, hi]`, and their count.
fn build_hist(data: &[i64], lo: i64, hi: i64) -> (r: (Vec<u64>, u64))
    requires
        plane_wf(data@),
        -MAX_SAMPLE <= lo < hi <= MAX_SAMPLE,
    ensures
        r.0@.len() == BINS,
        forall|b: int| 0 <= b < BINS ==> r.0@[b] == count_in_bin(data@, lo as int, hi as int, b),
        r.1 == count_finite(data@),
        r.1 <= data@.len(),
{
    let n: usize = data.len();
    let mut hist: Vec<u64> = Vec::new();
    let mut z: usize = 0;
    while z < BINS
        invariant
            z <= BINS,
            hist@.len() == z,
            forall|b: int| 0 <= b < z ==> hist@[b] == 0,
        decreases BINS - z,
    {
        hist.push(0);
        z += 1;
    }
    let mut count: u64 = 0;
    let mut i: usize = 0;
    proof {
        assert(data@.take(0) =~= Seq::<i64>::empty());
    }
    while i < n
        invariant
            i <= n == data@.len(),
            plane_wf(data@),
            -MAX_SAMPLE <= lo < hi <= MAX_SAMPLE,
            hist@.len() == BINS,
            forall|b: int|
                0 <= b < BINS ==> hist@[b] == count_in_bin(data@.take(i as int), lo as int, hi as int, b),
            count == count_finite(data@.take(i as int)),
            count <= i,
        decreases n - i,
    {
        let v: i64 = data[i];
        let ghost prefix = data@.take(i as int);
        proof {
            assert(data@.take(i + 1).drop_last() =~= prefix);
            assert(data@.take(i + 1).last() == data@[i as int]);
            lemma_counts_bounded(prefix, lo as int, hi as int, 0);
        }
        if v != crate::sample::NON_FINITE {
            let b: usize = if v <= lo {
                0
            } else if v >= hi {
                BINS - 1
            } else {
                proof {
                    assert((v - lo) * (BINS - 1) <= (hi - lo) * (BINS - 1)) by (nonlinear_arith)
                        requires
                            v - lo <= hi - lo,
                    {}
                    lemma_div_in_range((v - lo) as int * (BINS - 1), (hi - lo) as int, (
                    BINS - 1) as int);
                }
                (((v - lo) * (BINS as i64 - 1)) / (hi - lo)) as usize
            };
            proof {
                assert(b == bin_of(v as int, lo as int, hi as int));
                lemma_counts_bounded(prefix, lo as int, hi as int, b as int);
            }
            let old_hb: u64 = hist[b];
            proof {
                assert(old_hb <= count);
            }
            hist.set(b, old_hb + 1);
            count += 1;
        }
        i += 1;
    }
    proof {
        assert(data@.take(n as int) =~= data@);
    }
    (hist, count)
}

/// Scan the histogram for the least bin whose cumulative count reaches
/// `target`.
fn scan_hist(hist: &Vec<u64>, ghost_data: Ghost<Seq<i64>>, lo: i64, hi: i64, target: u64) -> (r:
    usize)
    requires
        hist@.len() == BINS,
        -MAX_SAMPLE <= lo < hi <= MAX_SAMPLE,
        count_finite(ghost_data@) <= 0xFFFF_FFFF_FFFF_FFFF,
        forall|b: int|
            0 <= b < BINS ==> hist@[b] == count_in_bin(ghost_data@, lo as int, hi as int, b),
    ensures
        r < BINS,
        r == least_bin_reaching(ghost_data@, lo as int, hi as int, target as int, 0),
{
    if target == 0 {
        proof {
            lemma_count_le_split(ghost_data@, lo as int, hi as int, 0);
            lemma_counts_bounded(ghost_data@, lo as int, hi as int, 0);
            lemma_count_le_low(ghost_data@, lo as int, hi as int, -1);
        }
        return 0;
    }
    let mut cum: u64 = 0;
    let mut b: usize = 0;
    proof {
        lemma_count_le_low(ghost_data@, lo as int, hi as int, -1);
    }
    while b < BINS - 1
        invariant
            b <= BINS - 1,
            hist@.len() == BINS,
            -MAX_SAMPLE <= lo < hi <= MAX_SAMPLE,
            forall|bb: int|
                0 <= bb < BINS ==> hist@[bb] == count_in_bin(ghost_data@, lo as int, hi as int, bb),
            count_finite(ghost_data@) <= 0xFFFF_FFFF_FFFF_FFFF,
            cum == count_le_bin(ghost_data@, lo as int, hi as int, b - 1),
            cum < target,
            least_bin_reaching(ghost_data@, lo as int, hi as int, target as int, 0)
                == least_bin_reaching(ghost_data@, lo as int, hi as int, target as int, b as int),
        decreases BINS - b,
    {
        proof {
            lemma_count_le_split(ghost_data@, lo as int, hi as int, b as int);
            lemma_counts_bounded(ghost_data@, lo as int, hi as int, b as int);
        }
        let cum2: u64 = cum + hist[b];
        if cum2 >= target {
            return b;
        }
        cum = cum2;
        b += 1;
    }
    b
}

/// The bin of the `num / PCTILE_DEN` percentile of the plane's finite
/// samples, histogrammed over `[0, bd]` (bit-depth-normalised space).
pub fn percentile_bin(data: &[i64], bd: i64, num: u64) -> (r: usize)
    requires
        plane_wf(data@),
        0 < bd <= MAX_SAMPLE,
        num <= PCTILE_DEN,
    ensures
        r < BINS,
        r == spec_percentile_bin(data@, bd as int, num as int),
{
    let (hist, count) = build_hist(data, 0, bd);
    if count == 0 {
        return BINS - 1;
    }
    proof {
        assert((count as int * num + (PCTILE_DEN - 1)) / (PCTILE_DEN as int) <= count) by (
        nonlinear_arith)
            requires
                count >= 1,
                num <= PCTILE_DEN,
                PCTILE_DEN == 10000u64,
        {}
        assert((count as int * num + (PCTILE_DEN - 1)) / (PCTILE_DEN as int) >= 0) by (
        nonlinear_arith)
            requires
                count >= 1,
                num >= 0,
                PCTILE_DEN == 10000u64,
        {}
    }
    let target: u64 = (((count as u128) * (num as u128) + (PCTILE_DEN as u128 - 1))
        / (PCTILE_DEN as u128)) as u64;
    proof {
        assert(target == pct_target(count as int, num as int, PCTILE_DEN as int));
        lemma_counts_bounded(data@, 0, bd as int, 0);
    }
    scan_hist(&hist, Ghost(data@), 0, bd, target)
}

/// The bin of the median of the plane's finite samples, histogrammed over
/// `[lo, hi]`; the mid bin for a degenerate range.
pub fn median_bin(data: &[i64], lo: i64, hi: i64) -> (r: usize)
    requires
        plane_wf(data@),
        -MAX_SAMPLE <= lo <= MAX_SAMPLE,
        -MAX_SAMPLE <= hi <= MAX_SAMPLE,
    ensures
        r < BINS,
        r == spec_median_bin(data@, lo as int, hi as int),
{
    if lo >= hi {
        return BINS / 2;
    }
    let (hist, count) = build_hist(data, lo, hi);
    if count == 0 {
        return BINS / 2;
    }
    let half: u64 = count - count / 2;
    proof {
        vstd::arithmetic::div_mod::lemma_fundamental_div_mod(count as int, 2);
        assert(half == (count as int + 1) / 2);
        lemma_counts_bounded(data@, lo as int, hi as int, 0);
    }
    scan_hist(&hist, Ghost(data@), lo, hi, half)
}

/// The least finite sample, or one past the saturation bound if none.
pub open spec fn spec_plane_min(data: Seq<i64>) -> int
    decreases data.len(),
{
    if data.len() == 0 {
        MAX_SAMPLE + 1
    } else {
        let rest = spec_plane_min(data.drop_last());
        if sample_is_finite(data.last()) && data.last() < rest {
            data.last() as int
        } else {
            rest
        }
    }
}

/// The greatest finite sample, or one below the negated bound if none.
pub open spec fn spec_plane_max(data: Seq<i64>) -> int
    decreases data.len(),
{
    if data.len() == 0 {
        -MAX_SAMPLE - 1
    } else {
        let rest = spec_plane_max(data.drop_last());
        if sample_is_finite(data.last()) && data.last() > rest {
            data.last() as int
        } else {
            rest
        }
    }
}

/// The `[min, max]` range the lookup tables cover: the finite samples'
/// range, or `[0, 1]` (in sample units) for a plane with none.
pub open spec fn spec_data_range(data: Seq<i64>) -> (int, int) {
    if spec_plane_min(data) > spec_plane_max(data) {
        (0, SAMPLE_SCALE as int)
    } else {
        (spec_plane_min(data), spec_plane_max(data))
    }
}

/// Minimum and maximum over the finite samples; `(0, 1)` in sample units
/// when there is none.
pub fn data_min_max(data: &[i64]) -> (r: (i64, i64))
    requires
        plane_wf(data@),
    ensures
        (r.0 as int, r.1 as int) == spec_data_range(data@),
        -MAX_SAMPLE <= r.0 <= r.1 <= MAX_SAMPLE,
{
    let n: usize = data.len();
    let mut mn: i64 = MAX_SAMPLE + 1;
    let mut mx: i64 = -MAX_SAMPLE - 1;
    let mut i: usize = 0;
    proof {
        assert(data@.take(0) =~= Seq::<i64>::empty());
    }
    while i < n
        invariant
            i <= n == data@.len(),
            plane_wf(data@),
            mn == spec_plane_min(data@.take(i as int)),
            mx == spec_plane_max(data@.take(i as int)),
            -MAX_SAMPLE <= mn <= MAX_SAMPLE + 1,
            -MAX_SAMPLE - 1 <= mx <= MAX_SAMPLE,
        decreases n - i,
    {
        let v: i64 = data[i];
        proof {
            assert(data@.take(i + 1).drop_last() =~= data@.take(i as int));
            assert(data@.take(i + 1).last() == data@[i as int]);
        }
        if v != crate::sample::NON_FINITE {
            if v < mn {
                mn = v;
            }
            if v > mx {
                mx = v;
            }
        }
        i += 1;
    }
    proof {
        assert(data@.take(n as int) =~= data@);
    }
    if mn > mx {
        (0, SAMPLE_SCALE)
    } else {
        (mn, mx)
    }
}

/// Solve for the midtone that maps `x_bg` to the target background.
pub fn solve_midtone(x_bg: i64) -> (r: i64)
    requires
        1 <= x_bg <= SAMPLE_SCALE - 1,
    ensures
        r == spec_solve_midtone(x_bg as int),
        0 <= r < SAMPLE_SCALE,
{
    let s: i64 = SAMPLE_SCALE;
    let t: i64 = TARGET_BG;
    proof {
        assert(0 <= x_bg * (s - t) * s <= s * s * s) by (nonlinear_arith)
            requires
                1 <= x_bg <= s - 1,
                s == 1_000_000i64,
                t == 100_000i64,
        {}
        assert(0 < t * s + x_bg * s - 2 * x_bg * t <= 2 * s * s) by (nonlinear_arith)
            requires
                1 <= x_bg <= s - 1,
                s == 1_000_000i64,
                t == 100_000i64,
        {}
        assert(x_bg * (s - t) * s < (t * s + x_bg * s - 2 * x_bg * t) * s) by (nonlinear_arith)
            requires
                1 <= x_bg <= s - 1,
                s == 1_000_000i64,
                t == 100_000i64,
        {}
    }
    let num: i64 = x_bg * (s - t) * s;
    let den: i64 = t * s + x_bg * s - 2 * x_bg * t;
    proof {
        vstd::arithmetic::div_mod::lemma_div_pos_is_pos(num as int, den as int);
        vstd::arithmetic::div_mod::lemma_multiply_divide_lt(num as int, den as int, s as int);
    }
    num / den
}

/// The background level in `SAMPLE_SCALE` units: the low percentile plus
/// the median's position inside the inlier span, clamped away from the
/// exact endpoints so the midtone solve stays well-conditioned.
pub open spec fn spec_background(data: Seq<i64>, bd: int) -> int {
    let s = SAMPLE_SCALE as int;
    let b1 = (BINS - 1) as int;
    let lo = spec_percentile_bin(data, bd, LOW_PCTILE_NUM as int);
    let hi = spec_percentile_bin(data, bd, HIGH_PCTILE_NUM as int);
    let eff_min = lo * bd / b1;
    let eff_max = hi * bd / b1;
    let med = spec_median_bin(data, eff_min, eff_max);
    let span_u = (eff_max - eff_min) * s / bd;
    let x = lo * s / b1 + med * span_u / b1;
    if x < 1 {
        1
    } else if x > s - 1 {
        s - 1
    } else {
        x
    }
}

/// One entry of the autostretch table: the pixel value the entry stands
/// for, normalised by the bit-depth ceiling, clipped at the outlier
/// percentiles and passed through the midtone transfer function.
pub open spec fn spec_autostretch_entry(
    i: int,
    data_min: int,
    data_max: int,
    bd: int,
    lo_bin: int,
    hi_bin: int,
    m: int,
) -> u8 {
    let s = SAMPLE_SCALE as int;
    let b1 = (BINS - 1) as int;
    let v = data_min + (i * (data_max - data_min)) / (LUT_SIZE - 1);
    let x = if v <= 0 {
        0
    } else if v >= bd {
        s
    } else {
        v * s / bd
    };
    let lo_u = lo_bin * s / b1;
    let hi_u = hi_bin * s / b1;
    if x <= lo_u {
        0
    } else if x >= hi_u {
        255
    } else {
        ((spec_mtf(x, m) * 510 + s) / (2 * s)) as u8
    }
}

/// The whole autostretch outcome for one entry, the degenerate flat
/// mid-gray cases included.
pub open spec fn spec_autostretch(
    data: Seq<i64>,
    data_min: int,
    data_max: int,
    bitdepth_max: int,
    i: int,
) -> u8 {
    let bd = if bitdepth_max > 0 {
        bitdepth_max
    } else {
        data_max
    };
    if data_max == data_min || bd <= 0 {
        128
    } else {
        let lo = spec_percentile_bin(data, bd, LOW_PCTILE_NUM as int);
        let hi = spec_percentile_bin(data, bd, HIGH_PCTILE_NUM as int);
        if hi <= lo {
            128
        } else {
            spec_autostretch_entry(
                i,
                data_min,
                data_max,
                bd,
                lo,
                hi,
                spec_solve_midtone(spec_background(data, bd)),
            )
        }
    }
}

/// `spec_mtf` stays within `[0, SAMPLE_SCALE]`.
pub proof fn lemma_mtf_range(x: int, m: int)
    ensures
        0 <= spec_mtf(x, m) <= SAMPLE_SCALE,
{
    let s = SAMPLE_SCALE as int;
    if 0 < x < s && 0 < m < s {
        assert(0 < (s - m) * x <= s * s) by (nonlinear_arith)
            requires
                0 < m < s,
                0 < x < s,
        {}
        assert(0 < m * s + (s - 2 * m) * x && (s - m) * x <= m * s + (s - 2 * m) * x) by (
        nonlinear_arith)
            requires
                0 < m < s,
                0 < x < s,
        {}
        assert((s - m) * x * s <= (m * s + (s - 2 * m) * x) * s) by (nonlinear_arith)
            requires
                (s - m) * x <= m * s + (s - 2 * m) * x,
                s > 0,
        {}
        lemma_div_in_range((s - m) * x * s, m * s + (s - 2 * m) * x, s);
    }
}

/// The midtone transfer function never decreases in its input: the heart
/// of the no-brightness-inversion property of the autostretch table.
pub proof fn lemma_mtf_monotone(x1: int, x2: int, m: int)
    requires
        x1 <= x2,
    ensures
        spec_mtf(x1, m) <= spec_mtf(x2, m),
{
    let s = SAMPLE_SCALE as int;
    lemma_mtf_range(x1, m);
    lemma_mtf_range(x2, m);
    if 0 < m < s {
        if x1 <= 0 {
        } else if x1 >= s {
            // x2 >= s as well; both map to s
        } else if x2 >= s {
            // spec_mtf(x1, m) <= s == spec_mtf(x2, m)
        } else {
            // both interior
            let n1 = (s - m) * x1 * s;
            let d1 = m * s + (s - 2 * m) * x1;
            let n2 = (s - m) * x2 * s;
            let d2 = m * s + (s - 2 * m) * x2;
            assert(0 <= n1 && 0 < d1 && 0 <= n2 && 0 < d2) by (nonlinear_arith)
                requires
                    0 < m < s,
                    0 < x1 < s,
                    0 < x2 < s,
                    n1 == (s - m) * x1 * s,
                    d1 == m * s + (s - 2 * m) * x1,
                    n2 == (s - m) * x2 * s,
                    d2 == m * s + (s - 2 * m) * x2,
            {}
            // n1 d2 <= n2 d1 reduces to m s x1 <= m s x2
            assert(n1 * d2 <= n2 * d1) by (nonlinear_arith)
                requires
                    0 < m < s,
                    0 < x1 < s,
                    0 < x2 < s,
                    x1 <= x2,
                    n1 == (s - m) * x1 * s,
                    d1 == m * s + (s - 2 * m) * x1,
                    n2 == (s - m) * x2 * s,
                    d2 == m * s + (s - 2 * m) * x2,
            {}
            lemma_div_frac_le(n1, d1, n2, d2);
        }
    }
}

/// The endpoint identities of the midtone transfer function: 0 maps to 0,
/// 1 maps to 1, and the midtone itself maps exactly to one half, for every
/// midtone strictly inside (0, 1).
pub proof fn lemma_mtf_endpoints(m: int)
    requires
        0 < m < SAMPLE_SCALE,
    ensures
        spec_mtf(0, m) == 0,
        spec_mtf(SAMPLE_SCALE as int, m) == SAMPLE_SCALE,
        spec_mtf(m, m) == SAMPLE_SCALE / 2,
{
    let s = SAMPLE_SCALE as int;
    let num = (s - m) * m * s;
    let den = m * s + (s - 2 * m) * m;
    assert(den == 2 * m * (s - m) && den > 0) by (nonlinear_arith)
        requires
            0 < m < s,
            den == m * s + (s - 2 * m) * m,
    {}
    assert(num == den * (s / 2)) by (nonlinear_arith)
        requires
            0 < m < s,
            num == (s - m) * m * s,
            den == 2 * m * (s - m),
            s == 1_000_000,
    {}
    vstd::arithmetic::div_mod::lemma_div_multiples_vanish(s / 2, den);
    assert(den * (s / 2) / den == s / 2);
}

proof fn lemma_entry_aux_bounds(x: int, m: int)
    ensures
        0 <= (spec_mtf(x, m) * 510 + SAMPLE_SCALE) / (2 * SAMPLE_SCALE) <= 255,
{
    let s = SAMPLE_SCALE as int;
    lemma_mtf_range(x, m);
    let y = spec_mtf(x, m);
    vstd::arithmetic::div_mod::lemma_div_pos_is_pos(y * 510 + s, 2 * s);
    vstd::arithmetic::div_mod::lemma_multiply_divide_lt(y * 510 + s, 2 * s, 256);
}

/// An autostretch table never inverts brightness: entries never decrease
/// in the input index.
pub proof fn lemma_autostretch_entry_monotone(
    i: int,
    j: int,
    data_min: int,
    data_max: int,
    bd: int,
    lo_bin: int,
    hi_bin: int,
    m: int,
)
    requires
        0 <= i <= j < LUT_SIZE,
        data_min <= data_max,
        0 < bd,
    ensures
        spec_autostretch_entry(i, data_min, data_max, bd, lo_bin, hi_bin, m)
            <= spec_autostretch_entry(j, data_min, data_max, bd, lo_bin, hi_bin, m),
{
    let s = SAMPLE_SCALE as int;
    let range = data_max - data_min;
    let l1 = (LUT_SIZE - 1) as int;
    // the represented pixel values are ordered
    assert(i * range <= j * range) by (nonlinear_arith)
        requires
            i <= j,
            range >= 0,
    {}
    vstd::arithmetic::div_mod::lemma_div_is_ordered(i * range, j * range, l1);
    let vi = data_min + (i * range) / l1;
    let vj = data_min + (j * range) / l1;
    assert(vi <= vj);
    // the normalised positions are ordered and within [0, s]
    let xi = if vi <= 0 {
        0int
    } else if vi >= bd {
        s
    } else {
        vi * s / bd
    };
    let xj = if vj <= 0 {
        0int
    } else if vj >= bd {
        s
    } else {
        vj * s / bd
    };
    assert(0 <= xi <= s && 0 <= xj <= s && xi <= xj) by {
        if 0 < vi < bd {
            assert(vi * s <= bd * s) by (nonlinear_arith)
                requires
                    vi <= bd,
                    s > 0,
            {}
            lemma_div_in_range(vi * s, bd, s);
        }
        if 0 < vj < bd {
            assert(vj * s <= bd * s) by (nonlinear_arith)
                requires
                    vj <= bd,
                    s > 0,
            {}
            lemma_div_in_range(vj * s, bd, s);
        }
        if 0 < vi < bd && 0 < vj < bd {
            assert(vi * s <= vj * s) by (nonlinear_arith)
                requires
                    vi <= vj,
                    s > 0,
            {}
            vstd::arithmetic::div_mod::lemma_div_is_ordered(vi * s, vj * s, bd);
        }
    }
    // entries follow the ordered positions
    let lo_u = lo_bin * s / ((BINS - 1) as int);
    let hi_u = hi_bin * s / ((BINS - 1) as int);
    if xi <= lo_u {
        lemma_entry_aux_bounds(xj, m);
    } else if xi >= hi_u {
        assert(xj >= hi_u);
    } else {
        lemma_entry_aux_bounds(xi, m);
        lemma_entry_aux_bounds(xj, m);
        if xj < hi_u {
            lemma_mtf_monotone(xi, xj, m);
            vstd::arithmetic::div_mod::lemma_div_is_ordered(
                spec_mtf(xi, m) * 510 + s,
                spec_mtf(xj, m) * 510 + s,
                2 * s,
            );
        }
    }
}

/// The linear stretch table entry: an identity ramp from 0 to 255,
/// rounded to nearest.
pub open spec fn spec_linear_entry(i: int) -> u8 {
    ((i * 510 + (LUT_SIZE - 1) as int) / (2 * (LUT_SIZE - 1) as int)) as u8
}

/// The linear stretch table: entry `i` maps proportionally from 0 to 255.
pub fn linear_lut() -> (r: Vec<u8>)
    ensures
        r@.len() == LUT_SIZE,
        forall|i: int| 0 <= i < LUT_SIZE ==> r@[i] == spec_linear_entry(i),
{
    let mut r: Vec<u8> = Vec::new();
    let mut i: usize = 0;
    while i < LUT_SIZE
        invariant
            i <= LUT_SIZE,
            r@.len() == i,
            forall|k: int| 0 <= k < i ==> r@[k] == spec_linear_entry(k),
        decreases LUT_SIZE - i,
    {
        proof {
            vstd::arithmetic::div_mod::lemma_div_pos_is_pos(i as int * 510 + 4095, 8190);
            vstd::arithmetic::div_mod::lemma_multiply_divide_lt(i as int * 510 + 4095, 8190, 256);
        }
        let e: u8 = ((i * 510 + (LUT_SIZE - 1)) / (2 * (LUT_SIZE - 1))) as u8;
        r.push(e);
        i += 1;
    }
    r
}

/// Build the autostretch lookup table for one plane, Siril-style: clip the
/// outlier percentiles, estimate the background median, solve the midtone
/// so the background lands at `TARGET_BG`, and fill the table over the
/// plane's own value range.  A degenerate plane (no range, no ceiling, or
/// percentiles that meet) yields a flat mid-gray table.
pub fn autostretch_lut(data: &[i64], data_min: i64, data_max: i64, bitdepth_max: i64) -> (r: Vec<
    u8,
>)
    requires
        plane_wf(data@),
        -MAX_SAMPLE <= data_min <= data_max <= MAX_SAMPLE,
        0 <= bitdepth_max <= MAX_SAMPLE,
    ensures
        r@.len() == LUT_SIZE,
        forall|i: int|
            0 <= i < LUT_SIZE ==> r@[i] == spec_autostretch(
                data@,
                data_min as int,
                data_max as int,
                bitdepth_max as int,
                i,
            ),
        data_min == data_max ==> forall|i: int| 0 <= i < LUT_SIZE ==> r@[i] == 128,
        forall|i: int, j: int| 0 <= i <= j < LUT_SIZE ==> r@[i] <= r@[j],
{
    let s: i64 = SAMPLE_SCALE;
    let b1: i64 = (BINS - 1) as i64;
    let bd: i64 = if bitdepth_max > 0 {
        bitdepth_max
    } else {
        data_max
    };
    if data_max == data_min || bd <= 0 {
        return flat_lut(128);
    }
    let lo_bin: usize = percentile_bin(data, bd, LOW_PCTILE_NUM);
    let hi_bin: usize = percentile_bin(data, bd, HIGH_PCTILE_NUM);
    if hi_bin <= lo_bin {
        return flat_lut(128);
    }
    // background level
    proof {
        assert(lo_bin as int * bd <= b1 as int * bd) by (nonlinear_arith)
            requires
                lo_bin < 4096,
                b1 == 4095i64,
                bd > 0,
        {}
        assert(hi_bin as int * bd <= b1 as int * bd) by (nonlinear_arith)
            requires
                hi_bin < 4096,
                b1 == 4095i64,
                bd > 0,
        {}
        lemma_div_in_range(lo_bin as int * bd, b1 as int, bd as int);
        lemma_div_in_range(hi_bin as int * bd, b1 as int, bd as int);
        assert(lo_bin as int * bd <= hi_bin as int * bd) by (nonlinear_arith)
            requires
                lo_bin <= hi_bin,
                bd > 0,
        {}
        vstd::arithmetic::div_mod::lemma_div_is_ordered(
            lo_bin as int * bd,
            hi_bin as int * bd,
            b1 as int,
        );
    }
    let eff_min: i64 = (lo_bin as i64) * bd / b1;
    let eff_max: i64 = (hi_bin as i64) * bd / b1;
    let med: usize = median_bin(data, eff_min, eff_max);
    proof {
        assert((eff_max - eff_min) as int * s <= bd as int * s) by (nonlinear_arith)
            requires
                0 <= eff_max - eff_min <= bd,
                s > 0,
        {}
        lemma_div_in_range((eff_max - eff_min) as int * s, bd as int, s as int);
    }
    let span_u: i64 = ((eff_max - eff_min) as i128 * s as i128 / bd as i128) as i64;
    proof {
        assert(lo_bin as int * s <= b1 as int * s) by (nonlinear_arith)
            requires
                lo_bin < 4096,
                b1 == 4095i64,
                s > 0,
        {}
        lemma_div_in_range(lo_bin as int * s, b1 as int, s as int);
        assert(med as int * span_u <= b1 as int * s) by (nonlinear_arith)
            requires
                med < 4096,
                b1 == 4095i64,
                0 <= span_u <= s,
        {}
        lemma_div_in_range(med as int * span_u, b1 as int, s as int);
    }
    let x_raw: i64 = (lo_bin as i64) * s / b1 + (med as i64) * span_u / b1;
    let x_bg: i64 = if x_raw < 1 {
        1
    } else if x_raw > s - 1 {
        s - 1
    } else {
        x_raw
    };
    proof {
        assert(x_bg == spec_background(data@, bd as int));
    }
    let m: i64 = solve_midtone(x_bg);
    let lo_u: i64 = (lo_bin as i64) * s / b1;
    proof {
        assert(hi_bin as int * s <= b1 as int * s) by (nonlinear_arith)
            requires
                hi_bin < 4096,
                b1 == 4095i64,
                s > 0,
        {}
        lemma_div_in_range(hi_bin as int * s, b1 as int, s as int);
    }
    let hi_u: i64 = (hi_bin as i64) * s / b1;
    let range: i64 = data_max - data_min;
    let mut r: Vec<u8> = Vec::new();
    let mut i: usize = 0;
    while i < LUT_SIZE
        invariant
            i <= LUT_SIZE,
            r@.len() == i,
            plane_wf(data@),
            -MAX_SAMPLE <= data_min < data_max <= MAX_SAMPLE,
            0 <= bitdepth_max <= MAX_SAMPLE,
            0 < bd <= MAX_SAMPLE,
            bd == if bitdepth_max > 0 { bitdepth_max as int } else { data_max as int },
            s == SAMPLE_SCALE,
            b1 == 4095i64,
            range == data_max - data_min,
            lo_bin < 4096 && hi_bin < 4096 && lo_bin < hi_bin,
            lo_bin == spec_percentile_bin(data@, bd as int, LOW_PCTILE_NUM as int),
            hi_bin == spec_percentile_bin(data@, bd as int, HIGH_PCTILE_NUM as int),
            m == spec_solve_midtone(spec_background(data@, bd as int)),
            0 <= m < s,
            lo_u == lo_bin as int * s / b1 as int,
            hi_u == hi_bin as int * s / b1 as int,
            forall|k: int|
                0 <= k < i ==> r@[k] == spec_autostretch_entry(
                    k,
                    data_min as int,
                    data_max as int,
                    bd as int,
                    lo_bin as int,
                    hi_bin as int,
                    m as int,
                ),
        decreases LUT_SIZE - i,
    {
        proof {
            assert(0 <= i as int * range <= 4095 * range) by (nonlinear_arith)
                requires
                    0 <= i < 4096,
                    range >= 0,
            {}
            lemma_div_in_range(i as int * range, 4095, range as int);
        }
        let v: i64 = data_min + (i as i64) * range / b1;
        let x: i64 = if v <= 0 {
            0
        } else if v >= bd {
            s
        } else {
            proof {
                assert(v as int * s <= bd as int * s) by (nonlinear_arith)
                    requires
                        0 < v <= bd,
                        s > 0,
                {}
                lemma_div_in_range(v as int * s, bd as int, s as int);
            }
            ((v as i128) * (s as i128) / (bd as i128)) as i64
        };
        let e: u8 = if x <= lo_u {
            0
        } else if x >= hi_u {
            255
        } else {
            let y: i64 = mtf(x, m);
            proof {
                lemma_entry_aux_bounds(x as int, m as int);
            }
            ((y * 510 + s) / (2 * s)) as u8
        };
        r.push(e);
        i += 1;
    }
    proof {
        assert forall|a: int, b: int| 0 <= a <= b < LUT_SIZE implies r@[a] <= r@[b] by {
            lemma_autostretch_entry_monotone(
                a,
                b,
                data_min as int,
                data_max as int,
                bd as int,
                lo_bin as int,
                hi_bin as int,
                m as int,
            );
        }
    }
    r
}

/// A table holding the same level everywhere.
fn flat_lut(level: u8) -> (r: Vec<u8>)
    ensures
        r@.len() == LUT_SIZE,
        forall|i: int| 0 <= i < LUT_SIZE ==> r@[i] == level,
{
    let mut r: Vec<u8> = Vec::new();
    let mut i: usize = 0;
    while i < LUT_SIZE
        invariant
            i <= LUT_SIZE,
            r@.len() == i,
            forall|k: int| 0 <= k < i ==> r@[k] == level,
        decreases LUT_SIZE - i,
    {
        r.push(level);
        i += 1;
    }
    r
}

} // verus!
