//! A compressed distribution over non-negative integer observations.
//!
//! Buckets are grouped by power-of-two range. Values below
//! `2^(grouping_power + 1)` each get a bucket of width one; every later
//! power-of-two range `[2^k, 2^(k+1))` is split into `2^grouping_power`
//! linearly spaced sub-buckets. Relative error is therefore bounded by
//! about `2^-grouping_power` while memory grows with
//! `max_value_power * 2^grouping_power`, not with the value range.
//!
//! Observations at or beyond `2^max_value_power` are clamped into the top
//! bucket: they are always counted, never silently dropped.

use vstd::prelude::*;
use vstd::arithmetic::power2::{
    pow2, lemma_pow2_adds, lemma_pow2_pos, lemma_pow2_strictly_increases, lemma_pow2_unfold,
    lemma2_to64,
};
use vstd::arithmetic::div_mod::{
    lemma_fundamental_div_mod, lemma_fundamental_div_mod_converse_div, lemma_div_pos_is_pos,
    lemma_div_is_ordered, lemma_multiply_divide_lt,
};
use vstd::arithmetic::mul::{lemma_mul_inequality, lemma_mul_strict_inequality};
use crate::counter::sum_of;

verus! {

/// Largest grouping power the implementation accepts; it caps the bucket
/// table at a few tens of millions of entries, so that the table length
/// always fits a machine word.
pub const MAX_GROUPING_POWER: u8 = 20;

/// A histogram configuration is usable when the grouping power lies below
/// the value width, the width fits 64-bit observations, and the grouping
/// power stays within the implementation bound on table size.
pub open spec fn valid_config(grouping_power: int, max_value_power: int) -> bool {
    0 <= grouping_power
        && grouping_power < max_value_power
        && max_value_power <= 64
        && grouping_power <= MAX_GROUPING_POWER
}

/// Number of buckets a valid configuration allocates: `2^(p+1)` width-one
/// buckets for the linear range plus `2^p` sub-buckets for each of the
/// `w - p - 1` remaining power-of-two ranges, i.e. `(w - p + 1) * 2^p`.
pub open spec fn spec_bucket_count(grouping_power: int, max_value_power: int) -> int {
    (max_value_power - grouping_power + 1) * pow2(grouping_power as nat)
}

/// Floor of the base-two logarithm; zero for values below two.
pub open spec fn spec_log2(v: int) -> int
    decreases v,
{
    if v <= 1 {
        0
    } else {
        1 + spec_log2(v / 2)
    }
}

/// `spec_log2` is the exponent `h` with `2^h <= v < 2^(h+1)`.
pub proof fn lemma_log2_bounds(v: int)
    requires
        v >= 1,
    ensures
        0 <= spec_log2(v),
        pow2(spec_log2(v) as nat) <= v < pow2((spec_log2(v) + 1) as nat),
    decreases v,
{
    if v <= 1 {
        lemma2_to64();
    } else {
        lemma_log2_bounds(v / 2);
        let h = spec_log2(v / 2);
        lemma_fundamental_div_mod(v, 2);
        lemma_pow2_unfold((h + 1) as nat);
        lemma_pow2_unfold((h + 2) as nat);
    }
}

/// The exponent bracketing a value as a power of two is unique.
pub proof fn lemma_log2_unique(v: int, h: int)
    requires
        v >= 1,
        h >= 0,
        pow2(h as nat) <= v < pow2((h + 1) as nat),
    ensures
        spec_log2(v) == h,
{
    let l = spec_log2(v);
    lemma_log2_bounds(v);
    if l < h {
        lemma_pow2_strictly_increases((l + 1) as nat, (h + 1) as nat);
        assert(pow2((l + 1) as nat) <= pow2(h as nat)) by {
            if l + 1 < h {
                lemma_pow2_strictly_increases((l + 1) as nat, h as nat);
            }
        }
    }
    if l > h {
        assert(pow2((h + 1) as nat) <= pow2(l as nat)) by {
            if h + 1 < l {
                lemma_pow2_strictly_increases((h + 1) as nat, l as nat);
            }
        }
    }
}

/// Index of the bucket an observation falls into, for a configuration with
/// grouping power `p` and value width `w`. Small values index their own
/// width-one bucket; a value in a later power-of-two range `[2^h, 2^(h+1))`
/// keeps its top `p + 1` significant bits; values at or past `2^w` clamp
/// into the top bucket.
pub open spec fn spec_bucket_index(p: int, w: int, v: u64) -> int {
    let h = spec_log2(v as int);
    if (v as int) < pow2((p + 1) as nat) {
        v as int
    } else if h >= w {
        spec_bucket_count(p, w) - 1
    } else {
        (h - p) * pow2(p as nat) + (v as int) / pow2((h - p) as nat) as int
    }
}

/// Lowest observation mapped into bucket `i`: the inverse image of
/// `spec_bucket_index` starts at this value.
pub open spec fn spec_bucket_low(p: int, w: int, i: int) -> int {
    if i < pow2((p + 1) as nat) {
        i
    } else {
        let g = i / pow2(p as nat) as int;
        let h = g + p - 1;
        pow2(h as nat) + (i % pow2(p as nat) as int) * pow2((h - p) as nat)
    }
}

/// Every observation lands inside the bucket table of its configuration.
pub proof fn lemma_bucket_index_in_range(p: int, w: int, v: u64)
    requires
        valid_config(p, w),
    ensures
        0 <= spec_bucket_index(p, w, v) < spec_bucket_count(p, w),
{
    lemma_pow2_pos(p as nat);
    let pp = pow2(p as nat) as int;
    assert(2 * pp <= (w - p + 1) * pp) by {
        lemma_mul_inequality(2, w - p + 1, pp);
    }
    if (v as int) < pow2((p + 1) as nat) {
        lemma_pow2_unfold((p + 1) as nat);
    } else {
        lemma_pow2_unfold((p + 1) as nat);
        assert(v >= 1);
        let h = spec_log2(v as int);
        lemma_log2_bounds(v as int);
        assert(h > p) by {
            if h <= p {
                assert(pow2((h + 1) as nat) <= pow2((p + 1) as nat)) by {
                    if h + 1 < p + 1 {
                        lemma_pow2_strictly_increases((h + 1) as nat, (p + 1) as nat);
                    }
                }
            }
        }
        if h >= w {
            // the clamped top bucket exists because the table is non-empty
        } else {
            let d = (h - p) as nat;
            lemma_pow2_pos(d);
            // v / 2^(h-p) < 2^(p+1) because v < 2^(h+1) = 2^(h-p) * 2^(p+1)
            assert((v as int) < pow2(d) * pow2((p + 1) as nat)) by {
                lemma_pow2_adds(d, (p + 1) as nat);
            }
            lemma_multiply_divide_lt(v as int, pow2(d) as int, pow2((p + 1) as nat) as int);
            lemma_div_pos_is_pos(v as int, pow2(d) as int);
            // (h - p) * 2^p + 2^(p+1) == (h - p + 2) * 2^p <= (w - p + 1) * 2^p
            assert((h - p) * pp + 2 * pp == (h - p + 2) * pp) by (nonlinear_arith);
            assert((h - p + 2) * pp <= (w - p + 1) * pp) by {
                lemma_mul_inequality(h - p + 2, w - p + 1, pp);
            }
            assert((h - p) * pp >= 0) by {
                lemma_mul_inequality(0, h - p, pp);
            }
        }
    }
}

/// Law: an observation at the top of the configured value range — the
/// boundary value `2^w - 1` or anything beyond it — lands in the top
/// bucket; it is counted there, never discarded.
pub proof fn lemma_top_of_range_in_top_bucket(p: int, w: int, v: u64)
    requires
        valid_config(p, w),
        pow2(w as nat) - 1 <= v as int,
    ensures
        spec_bucket_index(p, w, v) == spec_bucket_count(p, w) - 1,
{
    lemma_pow2_pos(p as nat);
    lemma_pow2_pos(w as nat);
    let pp = pow2(p as nat) as int;
    lemma_pow2_unfold((p + 1) as nat);
    assert(pow2((p + 1) as nat) <= pow2(w as nat)) by {
        if p + 1 < w {
            lemma_pow2_strictly_increases((p + 1) as nat, w as nat);
        }
    }
    assert(v >= 1);
    let h = spec_log2(v as int);
    lemma_log2_bounds(v as int);
    if (v as int) >= pow2(w as nat) {
        // clamped: h >= w
        assert(h >= w) by {
            if h < w {
                assert(pow2((h + 1) as nat) <= pow2(w as nat)) by {
                    if h + 1 < w {
                        lemma_pow2_strictly_increases((h + 1) as nat, w as nat);
                    }
                }
            }
        }
        assert((v as int) >= pow2((p + 1) as nat));
    } else {
        // v == 2^w - 1 exactly
        assert(v as int == pow2(w as nat) - 1);
        if w == p + 1 {
            assert((v as int) < pow2((p + 1) as nat));
            assert(spec_bucket_count(p, w) == 2 * pp) by {
                lemma_mul_inequality(2, 2, pp);
            }
        } else {
            assert((v as int) >= pow2((p + 1) as nat)) by {
                lemma_pow2_strictly_increases((p + 1) as nat, w as nat);
            }
            assert(h == w - 1) by {
                lemma_pow2_unfold(w as nat);
                lemma_log2_unique(v as int, w - 1);
            }
            let d = (h - p) as nat;
            lemma_pow2_pos(d);
            let dd = pow2(d) as int;
            // 2^w - 1 == (2^(p+1) - 1) * 2^d + (2^d - 1)
            assert(pow2(w as nat) == dd * pow2((p + 1) as nat)) by {
                lemma_pow2_adds(d, (p + 1) as nat);
            }
            assert(v as int == (pow2((p + 1) as nat) - 1) * dd + (dd - 1)) by (nonlinear_arith)
                requires
                    v as int == pow2(w as nat) - 1,
                    pow2(w as nat) == dd * pow2((p + 1) as nat),
            ;
            lemma_fundamental_div_mod_converse_div(
                v as int,
                dd,
                pow2((p + 1) as nat) - 1,
                dd - 1,
            );
            assert((v as int) / dd == pow2((p + 1) as nat) - 1);
            assert((h - p) * pp + (2 * pp - 1) == (w - p + 1) * pp - 1) by (nonlinear_arith)
                requires
                    h == w - 1,
            ;
        }
    }
}

/// Taking the floor logarithm preserves order.
pub proof fn lemma_log2_monotone(a: int, b: int)
    requires
        1 <= a <= b,
    ensures
        spec_log2(a) <= spec_log2(b),
{
    let ha = spec_log2(a);
    let hb = spec_log2(b);
    lemma_log2_bounds(a);
    lemma_log2_bounds(b);
    if ha > hb {
        assert(pow2((hb + 1) as nat) <= pow2(ha as nat)) by {
            if hb + 1 < ha {
                lemma_pow2_strictly_increases((hb + 1) as nat, ha as nat);
            }
        }
    }
}

/// Law: bucketing respects the order of observations — a larger value
/// never lands in an earlier bucket. Together with the boundary law below,
/// this is what makes the snapshot a distribution ordered by value.
pub proof fn lemma_bucket_index_monotone(p: int, w: int, v1: u64, v2: u64)
    requires
        valid_config(p, w),
        v1 <= v2,
    ensures
        spec_bucket_index(p, w, v1) <= spec_bucket_index(p, w, v2),
{
    lemma_pow2_pos(p as nat);
    let pp = pow2(p as nat) as int;
    lemma_pow2_unfold((p + 1) as nat);
    lemma_bucket_index_in_range(p, w, v1);
    lemma_bucket_index_in_range(p, w, v2);
    if (v2 as int) < pow2((p + 1) as nat) {
        // both in the linear range
    } else if (v1 as int) < pow2((p + 1) as nat) {
        // v1 linear, v2 beyond: every index beyond the linear range is at
        // least 2^(p+1), and the clamped top index is too
        assert(v2 >= 1);
        let h2 = spec_log2(v2 as int);
        lemma_log2_bounds(v2 as int);
        assert(h2 > p) by {
            if h2 <= p {
                assert(pow2((h2 + 1) as nat) <= pow2((p + 1) as nat)) by {
                    if h2 + 1 < p + 1 {
                        lemma_pow2_strictly_increases((h2 + 1) as nat, (p + 1) as nat);
                    }
                }
            }
        }
        if h2 >= w {
            // top bucket: (w - p + 1) * 2^p - 1 >= 2^(p+1) - 1 > v1 - 1
            assert(2 * pp <= (w - p + 1) * pp) by {
                lemma_mul_inequality(2, w - p + 1, pp);
            }
        } else {
            let d = (h2 - p) as nat;
            lemma_pow2_pos(d);
            // v2 / 2^(h2-p) >= 2^p, since v2 >= 2^h2 = 2^(h2-p) * 2^p
            assert(pow2(h2 as nat) == pow2(d) * pow2(p as nat)) by {
                lemma_pow2_adds(d, p as nat);
            }
            assert((v2 as int) / pow2(d) as int >= pp) by {
                lemma_div_is_ordered(pow2(h2 as nat) as int, v2 as int, pow2(d) as int);
                lemma_fundamental_div_mod_converse_div(pow2(d) as int * pp, pow2(d) as int, pp, 0);
            }
            assert((h2 - p) * pp >= 1 * pp) by {
                lemma_mul_inequality(1, h2 - p, pp);
            }
        }
    } else {
        // both beyond the linear range
        assert(v1 >= 1);
        let h1 = spec_log2(v1 as int);
        let h2 = spec_log2(v2 as int);
        lemma_log2_bounds(v1 as int);
        lemma_log2_bounds(v2 as int);
        lemma_log2_monotone(v1 as int, v2 as int);
        assert(h1 > p) by {
            if h1 <= p {
                assert(pow2((h1 + 1) as nat) <= pow2((p + 1) as nat)) by {
                    if h1 + 1 < p + 1 {
                        lemma_pow2_strictly_increases((h1 + 1) as nat, (p + 1) as nat);
                    }
                }
            }
        }
        if h1 >= w {
            // both clamp into the top bucket
        } else if h2 >= w {
            // v2 clamps to the greatest index; v1's index is in range
        } else {
            let d1 = (h1 - p) as nat;
            let d2 = (h2 - p) as nat;
            lemma_pow2_pos(d1);
            lemma_pow2_pos(d2);
            if h1 == h2 {
                lemma_div_is_ordered(v1 as int, v2 as int, pow2(d1) as int);
            } else {
                // index(v1) < (h1 - p + 2) * 2^p <= (h2 - p + 1) * 2^p <= index(v2)
                assert((v1 as int) < pow2(d1) * pow2((p + 1) as nat)) by {
                    lemma_pow2_adds(d1, (p + 1) as nat);
                }
                lemma_multiply_divide_lt(v1 as int, pow2(d1) as int, pow2((p + 1) as nat) as int);
                assert((h1 - p) * pp + 2 * pp == (h1 - p + 2) * pp) by (nonlinear_arith);
                assert((h1 - p + 2) * pp <= (h2 - p + 1) * pp) by {
                    lemma_mul_inequality(h1 - p + 2, h2 - p + 1, pp);
                }
                assert(pow2(h2 as nat) == pow2(d2) * pow2(p as nat)) by {
                    lemma_pow2_adds(d2, p as nat);
                }
                assert((v2 as int) / pow2(d2) as int >= pp) by {
                    lemma_div_is_ordered(pow2(h2 as nat) as int, v2 as int, pow2(d2) as int);
                    lemma_fundamental_div_mod_converse_div(
                        pow2(d2) as int * pp,
                        pow2(d2) as int,
                        pp,
                        0,
                    );
                }
                assert((h2 - p) * pp + pp == (h2 - p + 1) * pp) by (nonlinear_arith);
            }
        }
    }
}

/// Law: bucket boundaries strictly increase with the bucket position, so a
/// snapshot's rows are ordered by value.
pub proof fn lemma_bucket_low_strictly_increasing(p: int, w: int, i: int, j: int)
    requires
        valid_config(p, w),
        0 <= i < j < spec_bucket_count(p, w),
    ensures
        spec_bucket_low(p, w, i) < spec_bucket_low(p, w, j),
{
    lemma_bucket_low_in_own_bucket(p, w, i);
    lemma_bucket_low_in_own_bucket(p, w, j);
    let vi = spec_bucket_low(p, w, i) as u64;
    let vj = spec_bucket_low(p, w, j) as u64;
    if vi >= vj {
        lemma_bucket_index_monotone(p, w, vj, vi);
    }
}

/// Law: the lower boundary reported for a bucket is the least observation
/// mapped into it — recording exactly that value lands in that bucket. So
/// the (boundary, count) pairs of a snapshot determine the distribution's
/// shape without further bucket arithmetic.
pub proof fn lemma_bucket_low_in_own_bucket(p: int, w: int, i: int)
    requires
        valid_config(p, w),
        0 <= i < spec_bucket_count(p, w),
    ensures
        0 <= spec_bucket_low(p, w, i) <= u64::MAX,
        spec_bucket_index(p, w, spec_bucket_low(p, w, i) as u64) == i,
{
    lemma_pow2_pos(p as nat);
    let pp = pow2(p as nat) as int;
    lemma_pow2_unfold((p + 1) as nat);
    if i < pow2((p + 1) as nat) {
        assert(pow2((p + 1) as nat) <= pow2(21) && pow2(21) == 0x200000) by {
            lemma2_to64();
            if p + 1 < 21 {
                lemma_pow2_strictly_increases((p + 1) as nat, 21);
            }
        }
        assert(spec_log2(i) <= p) by {
            if i >= 1 {
                lemma_log2_bounds(i);
                if spec_log2(i) > p {
                    assert(pow2((p + 1) as nat) <= pow2(spec_log2(i) as nat)) by {
                        if p + 1 < spec_log2(i) {
                            lemma_pow2_strictly_increases((p + 1) as nat, spec_log2(i) as nat);
                        }
                    }
                }
            }
        }
    } else {
        let g = i / pp;
        let h = g + p - 1;
        let rem = i % pp;
        let d = (h - p) as nat;
        let dd = pow2(d) as int;
        let low = spec_bucket_low(p, w, i);
        // bounds on the sub-bucket group: 2 <= g <= w - p
        lemma_fundamental_div_mod(i, pp);
        assert(g >= 2) by {
            lemma_fundamental_div_mod_converse_div(2 * pp, pp, 2, 0);
            lemma_div_is_ordered(2 * pp, i, pp);
        }
        assert(g <= w - p) by {
            assert(i < pp * (w - p + 1)) by {
                lemma_mul_inequality(w - p + 1, w - p + 1, pp);
            }
            lemma_multiply_divide_lt(i, pp, w - p + 1);
        }
        lemma_pow2_pos(d);
        // low lies in [2^h, 2^(h+1)), so its exponent is h
        assert(pow2((h + 1) as nat) == 2 * pow2(h as nat)) by {
            lemma_pow2_unfold((h + 1) as nat);
        }
        assert(pow2(h as nat) == pp * dd) by {
            lemma_pow2_adds(p as nat, d);
        }
        assert(rem * dd < pp * dd) by {
            lemma_mul_strict_inequality(rem, pp, dd);
        }
        assert(rem * dd >= 0) by {
            lemma_mul_inequality(0, rem, dd);
        }
        assert(low == pow2(h as nat) + rem * dd);
        assert(low >= pow2((p + 1) as nat)) by {
            if p + 1 < h {
                lemma_pow2_strictly_increases((p + 1) as nat, h as nat);
            }
        }
        assert(low <= u64::MAX) by {
            assert(pow2((h + 1) as nat) <= pow2(64)) by {
                if h + 1 < 64 {
                    lemma_pow2_strictly_increases((h + 1) as nat, 64);
                }
            }
            lemma2_to64();
            vstd::arithmetic::power2::lemma2_to64_rest();
        }
        lemma_log2_unique(low, h);
        // the main mapping applies: h < w
        assert(h <= w - 1);
        // low / 2^(h-p) == 2^p + rem, exactly
        assert(low == dd * (pow2(p as nat) + rem) + 0) by (nonlinear_arith)
            requires
                low == pp * dd + rem * dd,
                pp == pow2(p as nat) as int,
        ;
        lemma_fundamental_div_mod_converse_div(low, dd, pow2(p as nat) as int + rem, 0);
        // (h - p) * 2^p + 2^p + rem == g * 2^p + rem == i
        assert((h - p) * pp + (pp + rem) == g * pp + rem) by (nonlinear_arith)
            requires
                h == g + p - 1,
        ;
        assert(g * pp + rem == i) by {
            lemma_fundamental_div_mod(i, pp);
        }
    }
}

/// Computes `2^e` on machine words.
fn pow2_u64(e: u64) -> (r: u64)
    requires
        e <= 63,
    ensures
        r as int == pow2(e as nat),
{
    let mut k: u64 = 0;
    let mut r: u64 = 1;
    proof {
        lemma2_to64();
        vstd::arithmetic::power2::lemma2_to64_rest();
    }
    while k < e
        invariant
            k <= e <= 63,
            r as int == pow2(k as nat),
            pow2(64) == 0x10000000000000000,
        decreases e - k,
    {
        proof {
            lemma_pow2_unfold((k + 1) as nat);
            lemma_pow2_strictly_increases((k + 1) as nat, 64);
        }
        r = r * 2;
        k = k + 1;
    }
    r
}

/// Computes the floor of the base-two logarithm of a positive value.
fn floor_log2(v: u64) -> (h: u64)
    requires
        v >= 1,
    ensures
        h as int == spec_log2(v as int),
        h <= 63,
{
    let mut x: u64 = v;
    let mut h: u64 = 0;
    proof {
        lemma2_to64();
        vstd::arithmetic::power2::lemma2_to64_rest();
    }
    while x >= 2
        invariant
            x >= 1,
            h <= 63,
            spec_log2(v as int) == h + spec_log2(x as int),
            pow2(h as nat) * (x as int) <= v as int,
            pow2(64) == 0x10000000000000000,
        decreases x,
    {
        proof {
            lemma_fundamental_div_mod(x as int, 2);
            lemma_pow2_unfold((h + 1) as nat);
            lemma_pow2_pos(h as nat);
            let xh = x as int / 2;
            assert(pow2((h + 1) as nat) * xh == pow2(h as nat) * (2 * xh)) by (nonlinear_arith)
                requires
                    pow2((h + 1) as nat) == 2 * pow2(h as nat),
            ;
            assert(pow2(h as nat) * (2 * xh) <= pow2(h as nat) * (x as int)) by {
                vstd::arithmetic::mul::lemma_mul_left_inequality(
                    pow2(h as nat) as int,
                    2 * xh,
                    x as int,
                );
            }
            // h + 1 stays within range: 2^(h+1) <= 2^h * x <= v < 2^64
            assert(pow2((h + 1) as nat) <= pow2(h as nat) * (x as int)) by {
                vstd::arithmetic::mul::lemma_mul_left_inequality(
                    pow2(h as nat) as int,
                    2,
                    x as int,
                );
            }
            if h + 1 > 63 {
                assert(pow2(64) <= pow2((h + 1) as nat)) by {
                    if h + 1 > 64 {
                        lemma_pow2_strictly_increases(64, (h + 1) as nat);
                    }
                }
            }
        }
        x = x / 2;
        h = h + 1;
    }
    h
}

/// A distribution of `u64` observations over log-linear buckets.
pub struct Histogram {
    grouping_power: u8,
    max_value_power: u8,
    buckets: Vec<u64>,
}

impl Histogram {
    /// The configured grouping power.
    pub closed spec fn spec_grouping_power(&self) -> int {
        self.grouping_power as int
    }

    /// The configured maximum value width, in bits.
    pub closed spec fn spec_max_value_power(&self) -> int {
        self.max_value_power as int
    }

    /// The per-bucket observation counts, as seen by contracts.
    pub closed spec fn counts(&self) -> Seq<u64> {
        self.buckets@
    }

    /// Total number of recorded observations: the sum over all buckets.
    pub open spec fn total_observations(&self) -> int {
        sum_of(self.counts())
    }

    /// The configuration is valid and the bucket table has exactly the
    /// length the configuration calls for. Constructors establish this and
    /// every method preserves it.
    pub open spec fn well_formed(&self) -> bool {
        valid_config(self.spec_grouping_power(), self.spec_max_value_power())
            && self.counts().len() == spec_bucket_count(
            self.spec_grouping_power(),
            self.spec_max_value_power(),
        )
    }

    /// Builds an empty histogram for the given resolution and value width,
    /// or returns `None` exactly when the configuration is invalid.
    pub fn new(grouping_power: u8, max_value_power: u8) -> (r: Option<Histogram>)
        ensures
            r is Some <==> valid_config(grouping_power as int, max_value_power as int),
            r is Some ==> r.unwrap().well_formed(),
            r is Some ==> r.unwrap().spec_grouping_power() == grouping_power as int,
            r is Some ==> r.unwrap().spec_max_value_power() == max_value_power as int,
            r is Some ==> r.unwrap().total_observations() == 0,
            r is Some ==> forall|j: int|
                0 <= j < r.unwrap().counts().len() ==> r.unwrap().counts()[j] == 0,
    {
        if grouping_power < max_value_power && max_value_power <= 64
            && grouping_power <= MAX_GROUPING_POWER {
            let p = grouping_power as u64;
            let w = max_value_power as u64;
            let pp = pow2_u64(p);
            proof {
                lemma2_to64();
                assert(pow2(p as nat) <= pow2(20)) by {
                    if p < 20 {
                        lemma_pow2_strictly_increases(p as nat, 20);
                    }
                }
                assert((w - p + 1) * (pp as int) <= 65 * 0x100000) by (nonlinear_arith)
                    requires
                        0 < pp as int <= 0x100000,
                        0 < w - p + 1 <= 65,
                ;
                assert((w - p + 1) * (pp as int) >= 1 * (pp as int)) by {
                    lemma_mul_inequality(1, w - p + 1, pp as int);
                }
            }
            let count = ((w - p + 1) * pp) as usize;
            let mut buckets: Vec<u64> = Vec::new();
            while buckets.len() < count
                invariant
                    buckets@.len() <= count,
                    forall|j: int| 0 <= j < buckets@.len() ==> buckets@[j] == 0,
                decreases count - buckets@.len(),
            {
                buckets.push(0);
            }
            proof {
                crate::counter::lemma_sum_of_all_zero(buckets@);
            }
            Some(Histogram { grouping_power, max_value_power, buckets })
        } else {
            None
        }
    }

    /// Index of the bucket that an observation of `v` falls into.
    pub fn bucket_index(&self, v: u64) -> (i: usize)
        requires
            self.well_formed(),
        ensures
            i as int == spec_bucket_index(
                self.spec_grouping_power(),
                self.spec_max_value_power(),
                v,
            ),
            i < self.counts().len(),
    {
        let p = self.grouping_power as u64;
        let w = self.max_value_power as u64;
        proof {
            lemma_bucket_index_in_range(p as int, w as int, v);
        }
        let linear_top = pow2_u64(p + 1);
        proof {
            lemma2_to64();
            assert(pow2((p + 1) as nat) <= pow2(21)) by {
                if p + 1 < 21 {
                    lemma_pow2_strictly_increases((p + 1) as nat, 21);
                }
            }
            lemma_pow2_pos((p + 1) as nat);
        }
        if v < linear_top {
            v as usize
        } else {
            let h = floor_log2(v);
            proof {
                lemma_log2_bounds(v as int);
                if h <= p {
                    assert(pow2((h + 1) as nat) <= pow2((p + 1) as nat)) by {
                        if h + 1 < p + 1 {
                            lemma_pow2_strictly_increases((h + 1) as nat, (p + 1) as nat);
                        }
                    }
                }
            }
            if h >= w {
                self.buckets.len() - 1
            } else {
                let d = h - p;
                proof {
                    lemma_pow2_pos(d as nat);
                    lemma_pow2_pos(p as nat);
                    assert((v as int) < pow2(d as nat) * pow2((p + 1) as nat)) by {
                        lemma_pow2_adds(d as nat, (p + 1) as nat);
                    }
                    lemma_multiply_divide_lt(
                        v as int,
                        pow2(d as nat) as int,
                        pow2((p + 1) as nat) as int,
                    );
                    lemma_div_pos_is_pos(v as int, pow2(d as nat) as int);
                    lemma_pow2_unfold((p + 1) as nat);
                    assert(pow2(p as nat) <= pow2(20) && pow2(20) == 0x100000) by {
                        lemma2_to64();
                        if p < 20 {
                            lemma_pow2_strictly_increases(p as nat, 20);
                        }
                    }
                    assert((d as int) * (pow2(p as nat) as int) <= 63 * 0x100000)
                        by (nonlinear_arith)
                        requires
                            0 <= d as int <= 63,
                            0 < pow2(p as nat) as int <= 0x100000,
                    ;
                }
                let sub = v / pow2_u64(d);
                let idx = d * pow2_u64(p) + sub;
                idx as usize
            }
        }
    }

    /// Adds one observation of `v` to the distribution: the bucket `v` maps
    /// to gains exactly one count, every other bucket is unchanged, and so
    /// the total observation count grows by exactly one.
    pub fn record(&mut self, v: u64)
        requires
            old(self).well_formed(),
            old(self).total_observations() < u64::MAX,
        ensures
            final(self).well_formed(),
            final(self).spec_grouping_power() == old(self).spec_grouping_power(),
            final(self).spec_max_value_power() == old(self).spec_max_value_power(),
            ({
                let idx = spec_bucket_index(
                    old(self).spec_grouping_power(),
                    old(self).spec_max_value_power(),
                    v,
                );
                final(self).counts() == old(self).counts().update(
                    idx,
                    (old(self).counts()[idx] + 1) as u64,
                )
            }),
            final(self).total_observations() == old(self).total_observations() + 1,
    {
        let i = self.bucket_index(v);
        let c = self.buckets[i];
        proof {
            crate::counter::lemma_sum_of_element_bound(self.counts(), i as int);
        }
        self.buckets.set(i, c + 1);
        proof {
            crate::counter::lemma_sum_of_update(old(self).counts(), i as int, (c + 1) as u64);
        }
    }

    /// Returns the total number of observations recorded so far.
    pub fn observation_count(&self) -> (t: u64)
        requires
            self.well_formed(),
            self.total_observations() <= u64::MAX,
        ensures
            t as int == self.total_observations(),
    {
        let mut acc: u64 = 0;
        let mut j: usize = 0;
        while j < self.buckets.len()
            invariant
                j <= self.buckets@.len(),
                self.total_observations() <= u64::MAX,
                acc as int == sum_of(self.counts().take(j as int)),
            decreases self.buckets@.len() - j,
        {
            proof {
                assert(self.counts().take(j + 1).drop_last() =~= self.counts().take(j as int));
                assert(self.counts().take(j + 1).last() == self.counts()[j as int]);
                crate::counter::lemma_sum_of_take_bound(self.counts(), j + 1);
            }
            acc = acc + self.buckets[j];
            j = j + 1;
        }
        proof {
            assert(self.counts().take(self.counts().len() as int) =~= self.counts());
        }
        acc
    }

    /// Lowest observation value mapped into bucket `i`.
    pub fn bucket_low(&self, i: usize) -> (b: u64)
        requires
            self.well_formed(),
            i < self.counts().len(),
        ensures
            b as int == spec_bucket_low(
                self.spec_grouping_power(),
                self.spec_max_value_power(),
                i as int,
            ),
    {
        let p = self.grouping_power as u64;
        let w = self.max_value_power as u64;
        let pp = pow2_u64(p);
        let linear_top = pow2_u64(p + 1);
        proof {
            lemma_pow2_pos(p as nat);
            lemma_pow2_unfold((p + 1) as nat);
        }
        if (i as u64) < linear_top {
            i as u64
        } else {
            let g = (i as u64) / pp;
            proof {
                let c = w as int - p as int + 1;
                assert(self.counts().len() == c * (pp as int));
                assert((pp as int) * c == c * (pp as int)) by {
                    vstd::arithmetic::mul::lemma_mul_is_commutative(pp as int, c);
                }
                lemma_multiply_divide_lt(i as int, pp as int, c);
                lemma_fundamental_div_mod_converse_div(2 * (pp as int), pp as int, 2, 0);
                lemma_div_is_ordered(2 * (pp as int), i as int, pp as int);
            }
            let h = g + p - 1;
            let rem = (i as u64) % pp;
            let scale = pow2_u64(h - p);
            proof {
                lemma_pow2_pos((h - p) as nat);
                assert(pow2(h as nat) == (pp as int) * (scale as int)) by {
                    lemma_pow2_adds(p as nat, (h - p) as nat);
                }
                assert((rem as int) * (scale as int) <= pow2(h as nat) - (scale as int))
                    by (nonlinear_arith)
                    requires
                        0 <= rem as int <= (pp as int) - 1,
                        0 < scale as int,
                        pow2(h as nat) == (pp as int) * (scale as int),
                ;
                assert(pow2(h as nat) <= pow2(63)) by {
                    if h < 63 {
                        lemma_pow2_strictly_increases(h as nat, 63);
                    }
                }
                lemma2_to64();
                vstd::arithmetic::power2::lemma2_to64_rest();
            }
            pow2_u64(h) + rem * scale
        }
    }

    /// The pair `e` is the correct snapshot row for bucket `i`: its first
    /// component is the bucket's lower boundary and its second the bucket's
    /// current count.
    pub open spec fn snapshot_row(&self, e: (u64, u64), i: int) -> bool {
        e.0 as int == spec_bucket_low(self.spec_grouping_power(), self.spec_max_value_power(), i)
            && e.1 == self.counts()[i]
    }

    /// A consistent point-in-time snapshot: one `(bucket lower boundary,
    /// count)` pair per bucket, in bucket order.
    pub fn snapshot(&self) -> (r: Vec<(u64, u64)>)
        requires
            self.well_formed(),
        ensures
            r@.len() == self.counts().len(),
            forall|j: int| 0 <= j < r@.len() ==> self.snapshot_row(#[trigger] r@[j], j),
    {
        let mut r: Vec<(u64, u64)> = Vec::new();
        let mut j: usize = 0;
        while j < self.buckets.len()
            invariant
                j <= self.buckets@.len(),
                self.well_formed(),
                r@.len() == j as int,
                forall|k: int| 0 <= k < j as int ==> self.snapshot_row(#[trigger] r@[k], k),
            decreases self.buckets@.len() - j,
        {
            let low = self.bucket_low(j);
            let c = self.buckets[j];
            r.push((low, c));
            j = j + 1;
        }
        r
    }
}

} // verus!
