//! Verified parsing of the numeric notations found in FITS header values:
//! plain integers (as `str::parse::<i64>` accepts them) and fixed-point
//! decimal/exponent reals, evaluated in `sample` units.

use vstd::prelude::*;
use crate::sample::{MAX_SAMPLE, SAMPLE_SCALE};

verus! {

pub open spec fn is_digit(b: u8) -> bool {
    48 <= b <= 57
}

pub open spec fn all_digits(s: Seq<u8>) -> bool {
    forall|i: int| 0 <= i < s.len() ==> is_digit(#[trigger] s[i])
}

/// Value of a digit string, most significant first.
pub open spec fn digits_val(s: Seq<u8>) -> int
    decreases s.len(),
{
    if s.len() == 0 {
        0
    } else {
        digits_val(s.drop_last()) * 10 + (s.last() - 48)
    }
}

proof fn lemma_digits_val_nonneg(s: Seq<u8>)
    requires
        all_digits(s),
    ensures
        digits_val(s) >= 0,
    decreases s.len(),
{
    if s.len() > 0 {
        lemma_digits_val_nonneg(s.drop_last());
    }
}

proof fn lemma_digits_val_prefix(s: Seq<u8>, k: int)
    requires
        all_digits(s),
        0 <= k <= s.len(),
    ensures
        digits_val(s.take(k)) <= digits_val(s),
    decreases s.len(),
{
    if k == s.len() {
        assert(s.take(k) =~= s);
    } else {
        let t = s.drop_last();
        assert(all_digits(t));
        assert(s.take(k) =~= t.take(k));
        lemma_digits_val_prefix(t, k);
        lemma_digits_val_nonneg(t);
    }
}

/// What `str::parse::<i64>` returns on this byte string: an optional sign,
/// then at least one digit, and a value that fits `i64`.
pub open spec fn spec_parse_i64(s: Seq<u8>) -> Option<i64> {
    let neg = s.len() > 0 && s[0] == 45;
    let ds = if s.len() > 0 && (s[0] == 43 || s[0] == 45) {
        s.drop_first()
    } else {
        s
    };
    if ds.len() == 0 || !all_digits(ds) {
        None
    } else if neg {
        if -digits_val(ds) >= i64::MIN {
            Some((-digits_val(ds)) as i64)
        } else {
            None
        }
    } else {
        if digits_val(ds) <= i64::MAX {
            Some(digits_val(ds) as i64)
        } else {
            None
        }
    }
}

/// Accumulate a digit string's value, stopping with `None` as soon as it
/// exceeds `bound` (`bound` is at most `2^63`).
fn digits_to_u64(ds: &[u8], bound: u64) -> (r: Option<u64>)
    requires
        9 <= bound <= 9223372036854775808u64,
    ensures
        match r {
            Some(v) => all_digits(ds@) ==> (v == digits_val(ds@) && v <= bound),
            None => !all_digits(ds@) || digits_val(ds@) > bound,
        },
        r is Some ==> all_digits(ds@),
{
    let n: usize = ds.len();
    if n == 0 {
        assert(ds@.take(0) =~= ds@);
        return Some(0);
    }
    let mut acc: u64 = 0;
    let mut i: usize = 0;
    while i < n
        invariant
            0 < n == ds@.len(),
            i <= n,
            9 <= bound <= 9223372036854775808u64,
            all_digits(ds@.take(i as int)),
            acc == digits_val(ds@.take(i as int)),
            acc <= bound,
        decreases n - i,
    {
        let b: u8 = ds[i];
        if b < 48 || b > 57 {
            assert(!all_digits(ds@));
            return None;
        }
        let d: u64 = (b - 48) as u64;
        assert(all_digits(ds@.take(i + 1))) by {
            assert(forall|k: int| 0 <= k < i + 1 ==> ds@.take(i + 1)[k] == ds@[k]);
        }
        assert(digits_val(ds@.take(i + 1)) == acc * 10 + d) by {
            assert(ds@.take(i + 1).drop_last() =~= ds@.take(i as int));
            assert(ds@.take(i + 1).last() == ds@[i as int]);
        }
        if acc > (bound - d) / 10 {
            assert(acc * 10 + d > bound) by (nonlinear_arith)
                requires
                    acc > (bound - d) / 10,
                    d <= bound,
                    bound <= 9223372036854775808u64,
            {}
            proof {
                if all_digits(ds@) {
                    lemma_digits_val_prefix(ds@, i + 1);
                }
            }
            // Either a later byte is not a digit, or the full value exceeds
            // the bound; both give None.
            assert(all_digits(ds@) ==> digits_val(ds@) > bound);
            return None;
        }
        assert(acc * 10 + d <= bound) by (nonlinear_arith)
            requires
                acc <= (bound - d) / 10,
                d <= 9,
                d <= bound,
                bound <= 9223372036854775808u64,
        {}
        acc = acc * 10 + d;
        i += 1;
    }
    assert(ds@.take(n as int) =~= ds@);
    Some(acc)
}

/// `str::parse::<i64>` on a byte string.
pub fn parse_i64_bytes(s: &[u8]) -> (r: Option<i64>)
    ensures
        r == spec_parse_i64(s@),
{
    let n: usize = s.len();
    if n == 0 {
        return None;
    }
    let b0: u8 = s[0];
    let neg: bool = b0 == 45;
    let signed: bool = b0 == 43 || b0 == 45;
    let ds = if signed {
        crate::text::subvec(s, 1, n)
    } else {
        crate::text::subvec(s, 0, n)
    };
    proof {
        if signed {
            assert(ds@ =~= s@.drop_first());
        } else {
            assert(ds@ =~= s@);
        }
    }
    if ds.len() == 0 {
        return None;
    }
    let bound: u64 = if neg {
        9223372036854775808u64
    } else {
        9223372036854775807u64
    };
    match digits_to_u64(ds.as_slice(), bound) {
        None => {
            proof {
                if all_digits(ds@) {
                    lemma_digits_val_nonneg(ds@);
                }
            }
            None
        },
        Some(v) => {
            proof {
                lemma_digits_val_nonneg(ds@);
            }
            if neg {
                if v == 9223372036854775808u64 {
                    Some(i64::MIN)
                } else {
                    Some(-(v as i64))
                }
            } else {
                Some(v as i64)
            }
        },
    }
}

/// Number of consecutive ASCII digits starting at position `i`.
pub open spec fn digit_run(s: Seq<u8>, i: int) -> int
    decreases s.len() - i,
{
    if 0 <= i < s.len() && is_digit(s[i]) {
        1 + digit_run(s, i + 1)
    } else {
        0
    }
}

proof fn lemma_digit_run_range(s: Seq<u8>, i: int)
    requires
        0 <= i <= s.len(),
    ensures
        0 <= digit_run(s, i) <= s.len() - i,
        forall|k: int| i <= k < i + digit_run(s, i) ==> is_digit(#[trigger] s[k]),
        i + digit_run(s, i) < s.len() ==> !is_digit(s[i + digit_run(s, i)]),
    decreases s.len() - i,
{
    if i < s.len() && is_digit(s[i]) {
        lemma_digit_run_range(s, i + 1);
    }
}

/// Length of the digit run starting at `i`.
fn digit_run_exec(s: &[u8], i: usize) -> (r: usize)
    requires
        i <= s@.len(),
    ensures
        r == digit_run(s@, i as int),
        i + r <= s@.len(),
{
    proof {
        lemma_digit_run_range(s@, i as int);
    }
    let n: usize = s.len();
    let mut j: usize = i;
    while j < n && 48 <= s[j] && s[j] <= 57
        invariant
            i <= j <= n == s@.len(),
            digit_run(s@, i as int) == (j - i) + digit_run(s@, j as int),
            forall|k: int| i <= k < j ==> is_digit(#[trigger] s@[k]),
        decreases n - j,
    {
        j += 1;
    }
    proof {
        lemma_digit_run_range(s@, j as int);
    }
    j - i
}

/// Ten to the `k`-th power.
pub open spec fn pow10(k: int) -> int
    decreases k,
{
    if k <= 0 {
        1
    } else {
        10 * pow10(k - 1)
    }
}

proof fn lemma_pow10_monotone(a: int, b: int)
    requires
        0 <= a <= b,
    ensures
        1 <= pow10(a) <= pow10(b),
    decreases b,
{
    if a < b {
        lemma_pow10_monotone(a, b - 1);
    } else if b > 0 {
        lemma_pow10_monotone(a - 1, b - 1);
    }
}

/// `10^k` for small `k`.
fn pow10_u128(k: usize) -> (r: u128)
    requires
        k <= 33,
    ensures
        r == pow10(k as int),
        r >= 1,
{
    let mut r: u128 = 1;
    let mut i: usize = 0;
    proof {
        lemma_pow10_monotone(0, k as int);
        assert(pow10(33) == 1_000_000_000_000_000_000_000_000_000_000_000) by {
            reveal_with_fuel(pow10, 34);
        }
    }
    while i < k
        invariant
            i <= k <= 33,
            r == pow10(i as int),
            pow10(33) == 1_000_000_000_000_000_000_000_000_000_000_000,
        decreases k - i,
    {
        proof {
            lemma_pow10_monotone(i + 1, 33);
        }
        r = r * 10;
        i += 1;
    }
    proof {
        lemma_pow10_monotone(0, k as int);
    }
    r
}

/// The value, in `SAMPLE_SCALE` units and truncated toward zero, of a
/// mantissa `mant >= 0` scaled by `10^scale_pow`, saturated to the sample
/// range and negated when `neg`.
pub open spec fn fixed_units(neg: bool, mant: int, scale_pow: int) -> i64 {
    let mag = if scale_pow >= 0 {
        mant * pow10(scale_pow)
    } else {
        mant / pow10(-scale_pow)
    };
    let sat = if mag > MAX_SAMPLE {
        MAX_SAMPLE as int
    } else {
        mag
    };
    if neg {
        (-sat) as i64
    } else {
        sat as i64
    }
}

/// What a FITS real or integer constant denotes, in `SAMPLE_SCALE` units,
/// truncated toward zero and saturated to `[-MAX_SAMPLE, MAX_SAMPLE]`.
///
/// The accepted notation is an optional sign, digits with an optional
/// decimal point (at least one digit overall), and an optional exponent
/// marked `e`, `E`, `d` or `D`.  A mantissa of more than 17 digits or an
/// exponent of more than 2 digits is treated as unparseable, like any
/// malformed text.
pub open spec fn spec_parse_fixed(s: Seq<u8>) -> Option<i64> {
    if s.len() == 0 {
        None
    } else {
        let neg = s[0] == 45;
        let i0 = if s[0] == 43 || s[0] == 45 {
            1int
        } else {
            0int
        };
        let ipl = digit_run(s, i0);
        let i1 = i0 + ipl;
        let dot = i1 < s.len() && s[i1] == 46;
        let fpl = if dot {
            digit_run(s, i1 + 1)
        } else {
            0int
        };
        let i2 = if dot {
            i1 + 1 + fpl
        } else {
            i1
        };
        if ipl + fpl == 0 || ipl + fpl > 17 {
            None
        } else {
            let mant = digits_val(
                s.subrange(i0, i1) + if dot {
                    s.subrange(i1 + 1, i2)
                } else {
                    Seq::empty()
                },
            );
            if i2 == s.len() {
                Some(fixed_units(neg, mant, 6 - fpl))
            } else if s[i2] == 101 || s[i2] == 69 || s[i2] == 100 || s[i2] == 68 {
                let eneg = i2 + 1 < s.len() && s[i2 + 1] == 45;
                let i3 = if i2 + 1 < s.len() && (s[i2 + 1] == 43 || s[i2 + 1] == 45) {
                    i2 + 2
                } else {
                    i2 + 1
                };
                let edl = digit_run(s, i3);
                if edl == 0 || edl > 2 || i3 + edl != s.len() {
                    None
                } else {
                    let e = digits_val(s.subrange(i3, i3 + edl));
                    let se = if eneg {
                        -e
                    } else {
                        e
                    };
                    Some(fixed_units(neg, mant, 6 + se - fpl))
                }
            } else {
                None
            }
        }
    }
}

/// Compute `fixed_units(neg, mant, scale_pow)` for an in-range mantissa.
fn fixed_units_exec(neg: bool, mant: u64, scale_pow: i64) -> (r: i64)
    requires
        mant < 100_000_000_000_000_000u64,
        -130 <= scale_pow <= 130,
    ensures
        r == fixed_units(neg, mant as int, scale_pow as int),
{
    let mag: i64 = if mant == 0 {
        proof {
            if scale_pow < 0 {
                lemma_pow10_monotone(0, -scale_pow as int);
                vstd::arithmetic::div_mod::lemma_basic_div(0, pow10(-scale_pow as int));
            }
        }
        0
    } else if scale_pow >= 16 {
        proof {
            lemma_pow10_monotone(16, scale_pow as int);
            assert(pow10(16) == 10_000_000_000_000_000) by {
                reveal_with_fuel(pow10, 17);
            }
            assert(mant * pow10(scale_pow as int) >= 1 * pow10(16)) by (nonlinear_arith)
                requires
                    mant >= 1,
                    pow10(scale_pow as int) >= pow10(16),
                    pow10(16) >= 1,
            {}
        }
        MAX_SAMPLE
    } else if scale_pow >= 0 {
        let p: u128 = pow10_u128(scale_pow as usize);
        proof {
            lemma_pow10_monotone(scale_pow as int, 15);
            assert(mant * p <= 100_000_000_000_000_000u128 * pow10(15)) by (nonlinear_arith)
                requires
                    mant <= 100_000_000_000_000_000u64,
                    p <= pow10(15),
                    p >= 1,
                    mant >= 0,
            {}
            assert(pow10(15) == 1_000_000_000_000_000) by {
                reveal_with_fuel(pow10, 16);
            }
        }
        let m: u128 = (mant as u128) * p;
        if m > MAX_SAMPLE as u128 {
            MAX_SAMPLE
        } else {
            m as i64
        }
    } else {
        let kk: usize = (-scale_pow) as usize;
        if kk >= 18 {
            proof {
                lemma_pow10_monotone(18, kk as int);
                assert(pow10(18) == 1_000_000_000_000_000_000) by {
                    reveal_with_fuel(pow10, 19);
                }
                assert(mant as int / pow10(kk as int) == 0) by {
                    vstd::arithmetic::div_mod::lemma_basic_div(
                        mant as int,
                        pow10(kk as int),
                    );
                }
            }
            0
        } else {
            let p: u128 = pow10_u128(kk);
            let m: u128 = (mant as u128) / p;
            proof {
                assert(m <= mant as u128) by (nonlinear_arith)
                    requires
                        p >= 1,
                        m == mant as u128 / p,
                {}
            }
            if m > MAX_SAMPLE as u128 {
                MAX_SAMPLE
            } else {
                m as i64
            }
        }
    };
    if neg {
        -mag
    } else {
        mag
    }
}

/// Parse a FITS real constant into `SAMPLE_SCALE` units.
#[verifier::rlimit(100)]
#[verifier::spinoff_prover]
pub fn parse_fixed_bytes(s: &[u8]) -> (r: Option<i64>)
    ensures
        r == spec_parse_fixed(s@),
{
    let n: usize = s.len();
    if n == 0 {
        return None;
    }
    let b0: u8 = s[0];
    let neg: bool = b0 == 45;
    let i0: usize = if b0 == 43 || b0 == 45 {
        1
    } else {
        0
    };
    let ipl: usize = digit_run_exec(s, i0);
    let i1: usize = i0 + ipl;
    let dot: bool = i1 < n && s[i1] == 46;
    let fpl: usize = if dot {
        digit_run_exec(s, i1 + 1)
    } else {
        0
    };
    let i2: usize = if dot {
        i1 + 1 + fpl
    } else {
        i1
    };
    if ipl + fpl == 0 || ipl + fpl > 17 {
        return None;
    }
    // Gather the mantissa digits.
    let mut mant_digits = crate::text::subvec(s, i0, i1);
    if dot {
        let fd = crate::text::subvec(s, i1 + 1, i2);
        let mut k: usize = 0;
        while k < fd.len()
            invariant
                k <= fd@.len(),
                mant_digits@ =~= s@.subrange(i0 as int, i1 as int) + fd@.subrange(0, k as int),
            decreases fd@.len() - k,
        {
            mant_digits.push(fd[k]);
            k += 1;
        }
        proof {
            assert(fd@.subrange(0, fd@.len() as int) =~= fd@);
        }
    } else {
        proof {
            assert(mant_digits@ =~= s@.subrange(i0 as int, i1 as int) + Seq::<u8>::empty());
        }
    }
    proof {
        lemma_digit_run_range(s@, i0 as int);
        if dot {
            lemma_digit_run_range(s@, i1 + 1);
        }
        assert(all_digits(mant_digits@));
    }
    let mant: u64 = match digits_to_u64(mant_digits.as_slice(), 9223372036854775808u64) {
        Some(v) => v,
        None => {
            proof {
                lemma_digits_17_small(mant_digits@);
            }
            // unreachable: at most 17 digits always fit
            return None;
        },
    };
    proof {
        lemma_digits_17_small(mant_digits@);
    }
    if i2 == n {
        return Some(fixed_units_exec(neg, mant, 6 - fpl as i64));
    }
    let m: u8 = s[i2];
    if m == 101 || m == 69 || m == 100 || m == 68 {
        let eneg: bool = i2 + 1 < n && s[i2 + 1] == 45;
        let i3: usize = if i2 + 1 < n && (s[i2 + 1] == 43 || s[i2 + 1] == 45) {
            i2 + 2
        } else {
            i2 + 1
        };
        let edl: usize = digit_run_exec(s, i3);
        if edl == 0 || edl > 2 || i3 + edl != n {
            return None;
        }
        proof {
            lemma_digit_run_range(s@, i3 as int);
        }
        let e: u64 = if edl == 1 {
            proof {
                lemma_digits_val_small(s@.subrange(i3 as int, i3 + 1));
            }
            (s[i3] - 48) as u64
        } else {
            proof {
                lemma_digits_val_small(s@.subrange(i3 as int, i3 + 2));
            }
            (s[i3] - 48) as u64 * 10 + (s[i3 + 1] - 48) as u64
        };
        let se: i64 = if eneg {
            -(e as i64)
        } else {
            e as i64
        };
        assert(e == digits_val(s@.subrange(i3 as int, i3 + edl)));
        assert(mant == digits_val(
            s@.subrange(i0 as int, i1 as int) + if dot {
                s@.subrange(i1 as int + 1, i2 as int)
            } else {
                Seq::<u8>::empty()
            },
        ));
        assert(spec_parse_fixed(s@) == Some(
            fixed_units(neg, mant as int, 6 + se - fpl as int),
        ));
        Some(fixed_units_exec(neg, mant, 6 + se - fpl as i64))
    } else {
        None
    }
}

proof fn lemma_digits_val_small(s: Seq<u8>)
    requires
        1 <= s.len() <= 2,
    ensures
        s.len() == 1 ==> digits_val(s) == s[0] - 48,
        s.len() == 2 ==> digits_val(s) == (s[0] - 48) * 10 + (s[1] - 48),
{
    reveal_with_fuel(digits_val, 3);
    if s.len() == 1 {
        assert(s.drop_last() =~= Seq::<u8>::empty());
    } else {
        assert(s.drop_last() =~= seq![s[0]]);
        assert(s.drop_last().drop_last() =~= Seq::<u8>::empty());
        assert(s.drop_last().last() == s[0]);
    }
}

proof fn lemma_digits_17_small(s: Seq<u8>)
    requires
        all_digits(s),
        s.len() <= 17,
    ensures
        digits_val(s) < 100_000_000_000_000_000,
    decreases s.len(),
{
    lemma_digits_17_small_rec(s, 17);
    assert(pow10(17) == 100_000_000_000_000_000) by {
        reveal_with_fuel(pow10, 18);
    }
}

proof fn lemma_digits_17_small_rec(s: Seq<u8>, cap: int)
    requires
        all_digits(s),
        0 <= s.len() <= cap,
    ensures
        digits_val(s) < pow10(cap),
    decreases s.len(),
{
    lemma_pow10_monotone(0, cap);
    if s.len() == 0 {
    } else {
        let t = s.drop_last();
        assert(all_digits(t));
        lemma_digits_17_small_rec(t, cap - 1);
        assert(digits_val(t) * 10 + (s.last() - 48) < pow10(cap)) by (nonlinear_arith)
            requires
                digits_val(t) < pow10(cap - 1),
                s.last() - 48 <= 9,
                pow10(cap) == 10 * pow10(cap - 1),
        {}
    }
}

proof fn lemma_fixed_units_range(neg: bool, mant: int, scale_pow: int)
    requires
        mant >= 0,
    ensures
        -MAX_SAMPLE <= fixed_units(neg, mant, scale_pow) <= MAX_SAMPLE,
{
    if scale_pow >= 0 {
        lemma_pow10_monotone(0, scale_pow);
        assert(mant * pow10(scale_pow) >= 0) by (nonlinear_arith)
            requires
                mant >= 0,
                pow10(scale_pow) >= 1,
        {}
    } else {
        lemma_pow10_monotone(0, -scale_pow);
        vstd::arithmetic::div_mod::lemma_div_pos_is_pos(mant, pow10(-scale_pow));
    }
}

/// A parsed FITS real always lies within the saturated sample range.
pub proof fn lemma_parse_fixed_bounded(s: Seq<u8>)
    ensures
        match spec_parse_fixed(s) {
            Some(x) => -MAX_SAMPLE <= x <= MAX_SAMPLE,
            None => true,
        },
{
    if s.len() > 0 {
        let i0 = if s[0] == 43 || s[0] == 45 {
            1int
        } else {
            0int
        };
        lemma_digit_run_range(s, i0);
        let ipl = digit_run(s, i0);
        let i1 = i0 + ipl;
        let dot = i1 < s.len() && s[i1] == 46;
        if dot {
            lemma_digit_run_range(s, i1 + 1);
        }
        let fpl = if dot {
            digit_run(s, i1 + 1)
        } else {
            0int
        };
        let i2 = if dot {
            i1 + 1 + fpl
        } else {
            i1
        };
        if 0 < ipl + fpl <= 17 {
            let md = s.subrange(i0, i1) + if dot {
                s.subrange(i1 + 1, i2)
            } else {
                Seq::empty()
            };
            assert(all_digits(md)) by {
                assert(forall|k: int|
                    0 <= k < md.len() ==> md[k] == if k < ipl {
                        s[i0 + k]
                    } else {
                        s[i1 + 1 + (k - ipl)]
                    });
            }
            lemma_digits_val_nonneg(md);
            let neg = s[0] == 45;
            lemma_fixed_units_range(neg, digits_val(md), 6 - fpl);
            if i2 < s.len() && (s[i2] == 101 || s[i2] == 69 || s[i2] == 100 || s[i2] == 68) {
                let eneg = i2 + 1 < s.len() && s[i2 + 1] == 45;
                let i3 = if i2 + 1 < s.len() && (s[i2 + 1] == 43 || s[i2 + 1] == 45) {
                    i2 + 2
                } else {
                    i2 + 1
                };
                let edl = digit_run(s, i3);
                if edl >= 1 && edl <= 2 && i3 + edl == s.len() {
                    let e = digits_val(s.subrange(i3, i3 + edl));
                    let se = if eneg {
                        -e
                    } else {
                        e
                    };
                    lemma_fixed_units_range(neg, digits_val(md), 6 + se - fpl);
                }
            }
        }
    }
}

} // verus!
