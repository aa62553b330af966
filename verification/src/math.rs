//! Scalar fixed-point arithmetic: floor division, clamped crossfade
//! (linear interpolation), and an integer square root.

use vstd::prelude::*;
use vstd::arithmetic::div_mod::lemma_div_is_ordered;
use vstd::arithmetic::div_mod::lemma_div_multiples_vanish;
use vstd::arithmetic::div_mod::lemma_div_multiples_vanish_fancy;
use vstd::arithmetic::div_mod::lemma_div_nonincreasing;
use vstd::arithmetic::div_mod::lemma_div_pos_is_pos;
use vstd::arithmetic::div_mod::lemma_div_plus_one;
use vstd::arithmetic::div_mod::lemma_fundamental_div_mod;
use vstd::arithmetic::div_mod::lemma_fundamental_div_mod_converse_div;
use vstd::arithmetic::div_mod::lemma_hoist_over_denominator;
use vstd::arithmetic::div_mod::lemma_multiply_divide_lt;

verus! {

/// One whole unit in Q16.16 fixed point: the representation of `1.0`.
pub const Q16_ONE: i64 = 65536;

/// Largest endpoint magnitude `x_fade` accepts (2^40 fixed-point steps).
pub const XFADE_LIMIT: i64 = 0x100_0000_0000;

/// The crossfade parameter clamped to the unit interval, in Q16.16 steps.
pub open spec fn clamp_q16(t: int) -> int {
    if t < 0 {
        0
    } else if t > 65536 {
        65536
    } else {
        t
    }
}

/// Clamped linear interpolation between `lo` and `hi` in Q16.16 fixed point:
/// `lo` weighted by one minus the clamped parameter, `hi` by the parameter,
/// with a final floor rescaling.
pub open spec fn xfade(lo: int, t: int, hi: int) -> int {
    let tc = clamp_q16(t);
    (lo * (65536 - tc) + hi * tc) / 65536
}

/// Floor division of a signed value by a positive divisor: the rounding
/// step behind every Q16.16 rescaling in this crate.
pub(crate) fn div_floor_i128(a: i128, b: u64) -> (r: i128)
    requires
        b >= 1,
        a > i128::MIN,
    ensures
        r == a as int / b as int,
{
    let bb: u128 = b as u128;
    if a >= 0 {
        let q: u128 = (a as u128) / bb;
        proof {
            lemma_div_nonincreasing(a as int, b as int);
            lemma_div_pos_is_pos(a as int, b as int);
        }
        q as i128
    } else {
        let m: u128 = (-a) as u128;
        let q: u128 = (m + bb - 1) / bb;
        proof {
            let mi = m as int;
            let bi = b as int;
            let k = mi / bi;
            let s = mi % bi;
            lemma_fundamental_div_mod(mi, bi);
            if s == 0 {
                assert(mi + bi - 1 == bi * k + (bi - 1));
                assert((bi * k + (bi - 1)) / bi == k) by {
                    lemma_div_multiples_vanish_fancy(k, bi - 1, bi);
                }
                assert(a as int == (-k) * bi + 0) by (nonlinear_arith)
                    requires
                        a as int == -mi,
                        mi == bi * k + s,
                        s == 0,
                ;
                lemma_fundamental_div_mod_converse_div(a as int, bi, -k, 0);
            } else {
                assert(mi + bi - 1 == bi * (k + 1) + (s - 1)) by (nonlinear_arith)
                    requires
                        mi == bi * k + s,
                ;
                assert((bi * (k + 1) + (s - 1)) / bi == k + 1) by {
                    lemma_div_multiples_vanish_fancy(k + 1, s - 1, bi);
                }
                assert(a as int == (-k - 1) * bi + (bi - s)) by (nonlinear_arith)
                    requires
                        a as int == -mi,
                        mi == bi * k + s,
                ;
                lemma_fundamental_div_mod_converse_div(a as int, bi, -k - 1, bi - s);
            }
            // The quotient of the adjusted numerator stays within `m`.
            assert(mi + bi - 1 < bi * (mi + 1)) by (nonlinear_arith)
                requires
                    mi >= 1,
                    bi >= 1,
            ;
            lemma_multiply_divide_lt(mi + bi - 1, bi, mi + 1);
            lemma_div_pos_is_pos(mi + bi - 1, bi);
        }
        -(q as i128)
    }
}

/// Crossfade between two values, i.e. linear interpolation in Q16.16 fixed
/// point. The crossfading parameter is clamped between `0` and `Q16_ONE`.
pub fn x_fade(a: i64, x: i64, b: i64) -> (r: i64)
    requires
        -XFADE_LIMIT <= a <= XFADE_LIMIT,
        -XFADE_LIMIT <= b <= XFADE_LIMIT,
    ensures
        r == xfade(a as int, x as int, b as int),
        -XFADE_LIMIT <= r <= XFADE_LIMIT,
{
    let xc: i64 = if x < 0 {
        0
    } else if x > 65536 {
        65536
    } else {
        x
    };
    proof {
        assert(xc as int == clamp_q16(x as int));
    }
    proof {
        assert((-0x100_0000_0000) * 65536int <= a as int * (65536 - xc as int)
            <= 0x100_0000_0000 * 65536int) by (nonlinear_arith)
            requires
                -0x100_0000_0000 <= a as int <= 0x100_0000_0000,
                0 <= xc as int <= 65536,
        ;
        assert((-0x100_0000_0000) * 65536int <= b as int * (xc as int)
            <= 0x100_0000_0000 * 65536int) by (nonlinear_arith)
            requires
                -0x100_0000_0000 <= b as int <= 0x100_0000_0000,
                0 <= xc as int <= 65536,
        ;
    }
    let num: i128 = (a as i128) * ((65536 - xc) as i128) + (b as i128) * (xc as i128);
    proof {
        assert(-0x100_0000_0000 * 65536 <= num <= 0x100_0000_0000 * 65536) by (nonlinear_arith)
            requires
                num == a as int * (65536 - xc as int) + b as int * xc as int,
                -0x100_0000_0000 <= a as int <= 0x100_0000_0000,
                -0x100_0000_0000 <= b as int <= 0x100_0000_0000,
                0 <= xc as int <= 65536,
        ;
    }
    let q: i128 = div_floor_i128(num, 65536);
    proof {
        lemma_div_is_ordered((-0x100_0000_0000) * 65536int, num as int, 65536);
        lemma_div_is_ordered(num as int, 0x100_0000_0000 * 65536int, 65536);
        lemma_div_multiples_vanish(-0x100_0000_0000, 65536);
        lemma_div_multiples_vanish(0x100_0000_0000, 65536);
    }
    q as i64
}

/// The integer square root: the largest `r` with `r * r <= x`, defined by
/// counting up from zero.
pub open spec fn sqrt_floor(x: nat) -> nat
    decreases x,
{
    if x == 0 {
        0
    } else {
        let p = sqrt_floor((x - 1) as nat);
        if (p + 1) * (p + 1) <= x {
            p + 1
        } else {
            p
        }
    }
}

/// `sqrt_floor(x)` squares to at most `x`, and its successor squares past `x`.
pub proof fn lemma_sqrt_floor_bracket(x: nat)
    ensures
        sqrt_floor(x) * sqrt_floor(x) <= x,
        x < (sqrt_floor(x) + 1) * (sqrt_floor(x) + 1),
    decreases x,
{
    let s = sqrt_floor(x);
    if x > 0 {
        lemma_sqrt_floor_bracket((x - 1) as nat);
        let p = sqrt_floor((x - 1) as nat);
        assert(s == if (p + 1) * (p + 1) <= x {
            p + 1
        } else {
            p
        });
        if (p + 1) * (p + 1) <= x {
            assert(s * s <= x && x < (s + 1) * (s + 1)) by (nonlinear_arith)
                requires
                    s == p + 1,
                    (p + 1) * (p + 1) <= x,
                    x - 1 < (p + 1) * (p + 1),
            ;
        } else {
            assert(s * s <= x && x < (s + 1) * (s + 1)) by (nonlinear_arith)
                requires
                    s == p,
                    p * p <= x - 1,
                    x < (p + 1) * (p + 1),
            ;
        }
    } else {
        assert(s == 0);
        assert(s * s <= x && x < (s + 1) * (s + 1)) by (nonlinear_arith)
            requires
                s == 0,
                x == 0,
        ;
    }
}

/// Any value bracketed by consecutive squares is the integer square root.
pub proof fn lemma_sqrt_floor_unique(x: nat, r: nat)
    requires
        r * r <= x,
        x < (r + 1) * (r + 1),
    ensures
        r == sqrt_floor(x),
{
    lemma_sqrt_floor_bracket(x);
    let s = sqrt_floor(x);
    if r < s {
        assert(false) by (nonlinear_arith)
            requires
                r < s,
                s * s <= x,
                x < (r + 1) * (r + 1),
        ;
    }
    if r > s {
        assert(false) by (nonlinear_arith)
            requires
                s < r,
                r * r <= x,
                x < (s + 1) * (s + 1),
        ;
    }
}

/// Crossfading is affine in the clamped parameter: the result is the low
/// endpoint plus the endpoint difference scaled by the parameter.
pub proof fn lemma_xfade_affine(lo: int, t: int, hi: int)
    requires
        0 <= t <= 65536,
    ensures
        xfade(lo, t, hi) == lo + (hi - lo) * t / 65536,
{
    let m = (hi - lo) * t;
    assert(lo * (65536 - t) + hi * t == 65536 * lo + m) by (nonlinear_arith)
        requires
            m == (hi - lo) * t,
    ;
    lemma_hoist_over_denominator(m, lo, 65536nat);
    assert(m + lo * 65536 == 65536 * lo + m);
}

/// With rising endpoints the crossfade is monotone in the parameter, and
/// strictly increases once the scaled endpoint difference clears one whole
/// fixed-point step.
pub proof fn lemma_xfade_monotone(lo: int, hi: int, t1: int, t2: int)
    requires
        lo <= hi,
        0 <= t1 <= t2 <= 65536,
    ensures
        xfade(lo, t1, hi) <= xfade(lo, t2, hi),
        (hi - lo) * (t2 - t1) >= 65536 ==> xfade(lo, t1, hi) < xfade(lo, t2, hi),
{
    lemma_xfade_affine(lo, t1, hi);
    lemma_xfade_affine(lo, t2, hi);
    let m1 = (hi - lo) * t1;
    let m2 = (hi - lo) * t2;
    assert(m1 <= m2) by (nonlinear_arith)
        requires
            hi - lo >= 0,
            t1 <= t2,
            m1 == (hi - lo) * t1,
            m2 == (hi - lo) * t2,
    ;
    lemma_div_is_ordered(m1, m2, 65536);
    if (hi - lo) * (t2 - t1) >= 65536 {
        assert(m2 >= m1 + 65536) by (nonlinear_arith)
            requires
                (hi - lo) * (t2 - t1) >= 65536,
                m1 == (hi - lo) * t1,
                m2 == (hi - lo) * t2,
        ;
        lemma_div_is_ordered(m1 + 65536, m2, 65536);
        lemma_div_plus_one(m1, 65536);
        assert(m1 + 65536 == 65536 + m1);
    }
}

/// Integer square root by binary search.
pub fn isqrt(x: u64) -> (r: u64)
    ensures
        r == sqrt_floor(x as nat),
        r * r <= x as nat,
        (x as nat) < (r + 1) * (r + 1),
{
    let mut lo: u64 = 0;
    let mut hi: u64 = 0x1_0000_0000;
    proof {
        assert((x as int) < 0x1_0000_0000 * 0x1_0000_0000int);
    }
    while lo + 1 < hi
        invariant
            lo < hi <= 0x1_0000_0000,
            lo * lo <= x as int,
            (x as int) < hi * hi,
        decreases hi - lo,
    {
        let mid: u64 = lo + (hi - lo) / 2;
        proof {
            assert(mid * mid <= 0xffff_ffff * 0xffff_ffffint) by (nonlinear_arith)
                requires
                    0 <= mid as int <= 0xffff_ffff,
            ;
        }
        if mid * mid <= x {
            lo = mid;
        } else {
            hi = mid;
        }
    }
    proof {
        lemma_sqrt_floor_unique(x as nat, lo as nat);
    }
    lo
}

} // verus!
