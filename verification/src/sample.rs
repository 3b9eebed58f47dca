//! The fixed-point sample domain.
//!
//! A pixel value `v` (a real number in the FITS file's physical units) is
//! carried as the integer `v * SAMPLE_SCALE`, truncated toward zero and
//! saturated to `[-MAX_SAMPLE, MAX_SAMPLE]`.  A non-finite value (NaN or
//! an infinity in a floating-point FITS file) is carried as the sentinel
//! `NON_FINITE`, which every statistic of the pipeline excludes.

use vstd::prelude::*;

verus! {

/// Fixed-point scale: one physical unit is this many sample units.
pub const SAMPLE_SCALE: i64 = 1_000_000;

/// Largest magnitude a finite sample can carry (10^9 physical units).
pub const MAX_SAMPLE: i64 = 1_000_000_000_000_000;

/// Sentinel for a non-finite pixel value; outside the finite range.
pub const NON_FINITE: i64 = 9_223_372_036_854_775_807;

/// A sample is finite when it is not the non-finite sentinel.
pub open spec fn sample_is_finite(s: i64) -> bool {
    s != NON_FINITE
}

/// A well-formed sample: either the sentinel or a saturated finite value.
pub open spec fn sample_wf(s: i64) -> bool {
    s == NON_FINITE || (-MAX_SAMPLE <= s <= MAX_SAMPLE)
}

/// Every sample of a plane is well-formed.
pub open spec fn plane_wf(data: Seq<i64>) -> bool {
    forall|i: int| 0 <= i < data.len() ==> sample_wf(#[trigger] data[i])
}

/// A contiguous part of a well-formed plane is well-formed.
pub proof fn lemma_plane_wf_subrange(data: Seq<i64>, a: int, b: int)
    requires
        plane_wf(data),
        0 <= a <= b <= data.len(),
    ensures
        plane_wf(data.subrange(a, b)),
{
    assert forall|i: int| 0 <= i < b - a implies sample_wf(#[trigger] data.subrange(a, b)[i]) by {
        assert(data.subrange(a, b)[i] == data[a + i]);
    }
}

} // verus!



verus! {

/// Two to the `k`-th power.
pub open spec fn pow2i(k: int) -> int
    decreases k,
{
    if k <= 0 {
        1
    } else {
        2 * pow2i(k - 1)
    }
}

proof fn lemma_pow2i_monotone(a: int, b: int)
    requires
        0 <= a <= b,
    ensures
        1 <= pow2i(a) <= pow2i(b),
    decreases b,
{
    if a < b {
        lemma_pow2i_monotone(a, b - 1);
    } else if b > 0 {
        lemma_pow2i_monotone(a - 1, b - 1);
    }
}

proof fn lemma_pow2i_add(a: int, b: int)
    requires
        0 <= a,
        0 <= b,
    ensures
        pow2i(a + b) == pow2i(a) * pow2i(b),
    decreases b,
{
    if b > 0 {
        lemma_pow2i_add(a, b - 1);
        assert(pow2i(a) * pow2i(b) == 2 * (pow2i(a) * pow2i(b - 1))) by (nonlinear_arith)
            requires
                pow2i(b) == 2 * pow2i(b - 1),
        {}
    }
}

proof fn lemma_pow2i_73()
    ensures
        pow2i(73) == 0x2000000000000000000,
{
    assert(pow2i(37) == 0x2000000000) by {
        reveal_with_fuel(pow2i, 38);
    }
    assert(pow2i(36) == 0x1000000000) by {
        reveal_with_fuel(pow2i, 37);
    }
    lemma_pow2i_add(37, 36);
}

/// `2^k` for small `k`.
fn pow2_u128(k: usize) -> (r: u128)
    requires
        k <= 73,
    ensures
        r == pow2i(k as int),
        r >= 1,
{
    let mut r: u128 = 1;
    let mut i: usize = 0;
    proof {
        lemma_pow2i_73();
        lemma_pow2i_monotone(0, k as int);
    }
    while i < k
        invariant
            i <= k <= 73,
            r == pow2i(i as int),
            pow2i(73) == 0x2000000000000000000,
        decreases k - i,
    {
        proof {
            lemma_pow2i_monotone(i + 1, 73);
        }
        r = r * 2;
        i += 1;
    }
    proof {
        lemma_pow2i_monotone(0, k as int);
    }
    r
}

/// The magnitude, in `SAMPLE_SCALE` units and truncated, of
/// `mant * 2^(-shift)`.
pub open spec fn float_mag(mant: int, shift: int) -> int {
    if shift >= 0 {
        (mant * SAMPLE_SCALE) / pow2i(shift)
    } else {
        mant * SAMPLE_SCALE * pow2i(-shift)
    }
}

/// The magnitude saturated to the sample bound, negated by `sign`.
pub open spec fn signed_sat(sign: int, mag: int) -> i64 {
    let sat = if mag > MAX_SAMPLE {
        MAX_SAMPLE as int
    } else {
        mag
    };
    if sign == 1 {
        (-sat) as i64
    } else {
        sat as i64
    }
}

/// The sample an IEEE 754 single-precision bit pattern stands for, in
/// `SAMPLE_SCALE` units: `(-1)^sign * mant * 2^(exp - 150)` truncated and
/// saturated; NaN and the infinities give the non-finite sentinel.
pub open spec fn spec_f32_sample(bits: u32) -> i64 {
    let sign = bits as int / 0x8000_0000;
    let exp = (bits as int % 0x8000_0000) / 0x0080_0000;
    let frac = bits as int % 0x0080_0000;
    if exp == 255 {
        NON_FINITE
    } else {
        let mant = if exp == 0 {
            frac
        } else {
            frac + 0x0080_0000
        };
        let shift = if exp == 0 {
            149
        } else {
            150 - exp
        };
        signed_sat(sign, float_mag(mant, shift))
    }
}

/// The sample an IEEE 754 double-precision bit pattern stands for, in
/// `SAMPLE_SCALE` units, like `spec_f32_sample` with `2^(exp - 1075)`.
pub open spec fn spec_f64_sample(bits: u64) -> i64 {
    let sign = bits as int / 0x8000_0000_0000_0000;
    let exp = (bits as int % 0x8000_0000_0000_0000) / 0x0010_0000_0000_0000;
    let frac = bits as int % 0x0010_0000_0000_0000;
    if exp == 2047 {
        NON_FINITE
    } else {
        let mant = if exp == 0 {
            frac
        } else {
            frac + 0x0010_0000_0000_0000
        };
        let shift = if exp == 0 {
            1074
        } else {
            1075 - exp
        };
        signed_sat(sign, float_mag(mant, shift))
    }
}

/// Decode an IEEE 754 single-precision bit pattern into a sample.
#[verifier::rlimit(60)]
#[verifier::spinoff_prover]
pub fn f32_sample(bits: u32) -> (r: i64)
    ensures
        r == spec_f32_sample(bits),
        sample_wf(r),
{
    let sign: u32 = bits / 0x8000_0000;
    let exp: u32 = (bits % 0x8000_0000) / 0x0080_0000;
    let frac: u32 = bits % 0x0080_0000;
    if exp == 255 {
        return NON_FINITE;
    }
    let mant: u64 = if exp == 0 {
        frac as u64
    } else {
        frac as u64 + 0x0080_0000
    };
    proof {
        assert(mant as int * SAMPLE_SCALE <= 0x0100_0000i64 * 1_000_000);
    }
    let ms: u64 = mant * SAMPLE_SCALE as u64;
    let mag: u64 = if exp >= 150 || exp == 0 {
        // shift >= 0: divide
        let shift: u32 = if exp == 0 {
            149
        } else {
            exp - 150
        };
        // careful: for exp >= 150 the true shift is 150 - exp <= 0
        if exp >= 150 {
            // shift here is exp - 150, the left-shift amount
            if exp - 150 >= 7 {
                proof {
                    lemma_pow2i_monotone(7, exp as int - 150);
                    assert(pow2i(7) == 128) by {
                        reveal_with_fuel(pow2i, 8);
                    }
                    assert(mant * SAMPLE_SCALE * pow2i(exp as int - 150) > MAX_SAMPLE) by (
                    nonlinear_arith)
                        requires
                            mant >= 0x0080_0000u64,
                            SAMPLE_SCALE == 1_000_000i64,
                            MAX_SAMPLE == 1_000_000_000_000_000i64,
                            pow2i(exp as int - 150) >= pow2i(7),
                            pow2i(7) == 128,
                    {}
                }
                MAX_SAMPLE as u64 + 1
            } else {
                let p: u128 = pow2_u128((exp - 150) as usize);
                proof {
                    assert(pow2i(exp as int - 150) <= 64) by {
                        lemma_pow2i_monotone(exp as int - 150, 6);
                        assert(pow2i(6) == 64) by {
                            reveal_with_fuel(pow2i, 7);
                        }
                    }
                    assert(ms as int * pow2i(exp as int - 150) <= ms * 64) by (nonlinear_arith)
                        requires
                            pow2i(exp as int - 150) <= 64,
                            ms >= 0,
                    {}
                }
                let w: u128 = (ms as u128) * p;
                if w > MAX_SAMPLE as u128 {
                    MAX_SAMPLE as u64 + 1
                } else {
                    w as u64
                }
            }
        } else {
            // exp == 0: subnormal, shift 149
            proof {
                lemma_pow2i_monotone(44, 149);
                assert(pow2i(44) == 0x1000_0000_0000) by {
                    reveal_with_fuel(pow2i, 45);
                }
                vstd::arithmetic::div_mod::lemma_basic_div(ms as int, pow2i(149));
            }
            0
        }
    } else {
        // 0 < exp < 150: shift = 150 - exp in 1..=149, divide
        let shift: u32 = 150 - exp;
        if shift >= 44 {
            proof {
                lemma_pow2i_monotone(44, shift as int);
                assert(pow2i(44) == 0x1000_0000_0000) by {
                    reveal_with_fuel(pow2i, 45);
                }
                vstd::arithmetic::div_mod::lemma_basic_div(ms as int, pow2i(shift as int));
            }
            0
        } else {
            let p: u128 = pow2_u128(shift as usize);
            proof {
                vstd::arithmetic::div_mod::lemma_div_pos_is_pos(ms as int, pow2i(shift as int));
                vstd::arithmetic::div_mod::lemma_div_nonincreasing(ms as int, pow2i(shift as int));
            }
            ((ms as u128) / p) as u64
        }
    };
    let sat: i64 = if mag > MAX_SAMPLE as u64 {
        MAX_SAMPLE
    } else {
        mag as i64
    };
    if sign == 1 {
        -sat
    } else {
        sat
    }
}

/// Decode an IEEE 754 double-precision bit pattern into a sample.
pub fn f64_sample(bits: u64) -> (r: i64)
    ensures
        r == spec_f64_sample(bits),
        sample_wf(r),
{
    let sign: u64 = bits / 0x8000_0000_0000_0000;
    let exp: u64 = (bits % 0x8000_0000_0000_0000) / 0x0010_0000_0000_0000;
    let frac: u64 = bits % 0x0010_0000_0000_0000;
    if exp == 2047 {
        return NON_FINITE;
    }
    let mant: u64 = if exp == 0 {
        frac
    } else {
        frac + 0x0010_0000_0000_0000
    };
    let ms: u128 = (mant as u128) * (SAMPLE_SCALE as u128);
    proof {
        assert(ms <= 0x0020_0000_0000_0000u128 * 1_000_000);
    }
    let mag: u64 = if exp > 1075 {
        // shift < 0: the magnitude is at least 2^52 physical units
        proof {
            lemma_pow2i_monotone(0, 1075 - exp as int + 2000);
        }
        proof {
            lemma_pow2i_monotone(1, exp as int - 1075);
            assert(mant * SAMPLE_SCALE * pow2i(exp as int - 1075) > MAX_SAMPLE) by (
            nonlinear_arith)
                requires
                    mant >= 0x0010_0000_0000_0000u64,
                    SAMPLE_SCALE == 1_000_000i64,
                    MAX_SAMPLE == 1_000_000_000_000_000i64,
                    pow2i(exp as int - 1075) >= 1,
            {}
        }
        MAX_SAMPLE as u64 + 1
    } else {
        // shift = 1075 - exp (or 1074 for subnormals), in 0..=1074
        let shift: u64 = if exp == 0 {
            1074
        } else {
            1075 - exp
        };
        if shift >= 73 {
            proof {
                lemma_pow2i_monotone(73, shift as int);
                assert(pow2i(73) == 0x2000000000000000000) by {
                    reveal_with_fuel(pow2i, 74);
                }
                vstd::arithmetic::div_mod::lemma_basic_div(ms as int, pow2i(shift as int));
            }
            0
        } else {
            let p: u128 = pow2_u128(shift as usize);
            proof {
                vstd::arithmetic::div_mod::lemma_div_pos_is_pos(ms as int, pow2i(shift as int));
                vstd::arithmetic::div_mod::lemma_div_nonincreasing(ms as int, pow2i(shift as int));
            }
            let q: u128 = (ms as u128) / p;
            if q > MAX_SAMPLE as u128 {
                MAX_SAMPLE as u64 + 1
            } else {
                q as u64
            }
        }
    };
    let sat: i64 = if mag > MAX_SAMPLE as u64 {
        MAX_SAMPLE
    } else {
        mag as i64
    };
    if sign == 1 {
        -sat
    } else {
        sat
    }
}

} // verus!

verus! {

/// Saturate a value into the finite sample range.
pub open spec fn clamp_sample(v: int) -> i64 {
    if v > MAX_SAMPLE {
        MAX_SAMPLE
    } else if v < -MAX_SAMPLE {
        (-MAX_SAMPLE) as i64
    } else {
        v as i64
    }
}

/// The sample of a stored integer under the FITS linear rescale
/// `value = stored * BSCALE + BZERO`, with the scale and offset already in
/// `SAMPLE_SCALE` units.
pub open spec fn spec_scaled_int(stored: int, bscale_u: int, bzero_u: int) -> i64 {
    clamp_sample(stored * bscale_u + bzero_u)
}

/// The sample of a stored floating-point value (already in sample units,
/// or the non-finite sentinel) under the same rescale.
pub open spec fn spec_scaled_float(su: i64, bscale_u: int, bzero_u: int) -> i64 {
    if !sample_is_finite(su) {
        NON_FINITE
    } else {
        clamp_sample((su * bscale_u) / (SAMPLE_SCALE as int) + bzero_u)
    }
}

/// Floor division of a product by `SAMPLE_SCALE`, via magnitudes so that
/// only unsigned division is needed.
fn floor_div_scale(a: i128) -> (r: i128)
    requires
        -1_000_000_000_000_000i128 * 1_000_000_000_000_000 <= a <= 1_000_000_000_000_000i128
            * 1_000_000_000_000_000,
    ensures
        r == a as int / (SAMPLE_SCALE as int),
{
    let s: u128 = SAMPLE_SCALE as u128;
    if a >= 0 {
        let qm: u128 = (a as u128) / s;
        proof {
            vstd::arithmetic::div_mod::lemma_div_pos_is_pos(a as int, s as int);
            vstd::arithmetic::div_mod::lemma_div_nonincreasing(a as int, s as int);
        }
        qm as i128
    } else {
        let p: u128 = (-a) as u128;
        let qm: u128 = p / s;
        let rem: u128 = p % s;
        proof {
            vstd::arithmetic::div_mod::lemma_fundamental_div_mod(p as int, s as int);
            vstd::arithmetic::div_mod::lemma_mod_division_less_than_divisor(p as int, s as int);
            vstd::arithmetic::div_mod::lemma_div_pos_is_pos(p as int, s as int);
            vstd::arithmetic::div_mod::lemma_div_nonincreasing(p as int, s as int);
            if rem != 0 {
                assert(a as int == (-(qm as int) - 1) * (s as int) + (s as int - rem)) by (
                nonlinear_arith)
                    requires
                        p == qm * s + rem,
                        a == -(p as int),
                {}
                vstd::arithmetic::div_mod::lemma_fundamental_div_mod_converse_div(
                    a as int,
                    s as int,
                    -(qm as int) - 1,
                    s as int - rem,
                );
            } else {
                assert(a as int == (-(qm as int)) * (s as int) + 0) by (nonlinear_arith)
                    requires
                        p == qm * s + rem,
                        rem == 0,
                        a == -(p as int),
                {}
                vstd::arithmetic::div_mod::lemma_fundamental_div_mod_converse_div(
                    a as int,
                    s as int,
                    -(qm as int),
                    0,
                );
            }
        }
        if rem != 0 {
            -(qm as i128) - 1
        } else {
            -(qm as i128)
        }
    }
}

/// Apply the linear rescale to a stored integer sample.
pub fn scaled_int(stored: i64, bscale_u: i64, bzero_u: i64) -> (r: i64)
    requires
        -MAX_SAMPLE <= bscale_u <= MAX_SAMPLE,
        -MAX_SAMPLE <= bzero_u <= MAX_SAMPLE,
    ensures
        r == spec_scaled_int(stored as int, bscale_u as int, bzero_u as int),
        sample_wf(r),
        sample_is_finite(r),
{
    proof {
        assert(-0x8000_0000_0000_0000i128 * 1_000_000_000_000_000 <= stored as int * bscale_u
            <= 0x8000_0000_0000_0000i128 * 1_000_000_000_000_000) by (nonlinear_arith)
            requires
                -0x8000_0000_0000_0000i128 <= stored <= 0x7FFF_FFFF_FFFF_FFFFi128,
                -1_000_000_000_000_000i64 <= bscale_u <= 1_000_000_000_000_000i64,
        {}
    }
    let v: i128 = (stored as i128) * (bscale_u as i128) + (bzero_u as i128);
    if v > MAX_SAMPLE as i128 {
        MAX_SAMPLE
    } else if v < -MAX_SAMPLE as i128 {
        -MAX_SAMPLE
    } else {
        v as i64
    }
}

/// Apply the linear rescale to a decoded floating-point sample.
pub fn scaled_float(su: i64, bscale_u: i64, bzero_u: i64) -> (r: i64)
    requires
        sample_wf(su),
        -MAX_SAMPLE <= bscale_u <= MAX_SAMPLE,
        -MAX_SAMPLE <= bzero_u <= MAX_SAMPLE,
    ensures
        r == spec_scaled_float(su, bscale_u as int, bzero_u as int),
        sample_wf(r),
{
    if su == NON_FINITE {
        return NON_FINITE;
    }
    proof {
        assert(-1_000_000_000_000_000i128 * 1_000_000_000_000_000 <= su as int * bscale_u
            <= 1_000_000_000_000_000i128 * 1_000_000_000_000_000) by (nonlinear_arith)
            requires
                -1_000_000_000_000_000i64 <= su <= 1_000_000_000_000_000i64,
                -1_000_000_000_000_000i64 <= bscale_u <= 1_000_000_000_000_000i64,
        {}
    }
    let prod: i128 = (su as i128) * (bscale_u as i128);
    let q: i128 = floor_div_scale(prod);
    proof {
        vstd::arithmetic::div_mod::lemma_div_is_ordered(
            -1_000_000_000_000_000i128 * 1_000_000_000_000_000,
            prod as int,
            SAMPLE_SCALE as int,
        );
        vstd::arithmetic::div_mod::lemma_div_is_ordered(
            prod as int,
            1_000_000_000_000_000i128 * 1_000_000_000_000_000,
            SAMPLE_SCALE as int,
        );
    }
    let v: i128 = q + (bzero_u as i128);
    if v > MAX_SAMPLE as i128 {
        MAX_SAMPLE
    } else if v < -MAX_SAMPLE as i128 {
        -MAX_SAMPLE
    } else {
        v as i64
    }
}

} // verus!
