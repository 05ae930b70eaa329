//! Exact 256-bit products for comparing load variances.
//!
//! The partition search orders candidate partitions by the population
//! variance of their shard loads.  Variances are rationals; comparing
//! two of them cross-multiplies denominators, and the products outgrow
//! every machine integer.  This module computes such products exactly
//! as a pair of 128-bit halves, so the comparison needs no floating
//! point and loses nothing.

use vstd::prelude::*;
use vstd::arithmetic::div_mod::lemma_fundamental_div_mod;

verus! {

/// One 64-bit limb's worth of shifting.
pub const LIMB: u128 = 0x1_0000_0000_0000_0000;

/// A 256-bit value as two 128-bit halves.
#[derive(Clone, Copy, Debug, PartialEq, Eq, Structural)]
pub struct Wide {
    /// The upper 128 bits.
    pub hi: u128,
    /// The lower 128 bits.
    pub lo: u128,
}

/// The number a [`Wide`] stands for.
pub open spec fn wide_val(x: Wide) -> int {
    x.hi * 0x1_0000_0000_0000_0000_0000_0000_0000_0000 + x.lo
}

/// The exact product of two 128-bit numbers.
pub fn mul_wide(a: u128, b: u128) -> (r: Wide)
    ensures
        wide_val(r) == a * b,
{
    let a_hi = a / LIMB;
    let a_lo = a % LIMB;
    let b_hi = b / LIMB;
    let b_lo = b % LIMB;
    proof {
        lemma_fundamental_div_mod(a as int, LIMB as int);
        lemma_fundamental_div_mod(b as int, LIMB as int);
        assert(a_hi < LIMB && a_lo < LIMB && b_hi < LIMB && b_lo < LIMB) by (nonlinear_arith)
            requires
                a_hi == a as int / LIMB as int,
                b_hi == b as int / LIMB as int,
                a_lo == a as int % LIMB as int,
                b_lo == b as int % LIMB as int,
                a <= u128::MAX,
                b <= u128::MAX,
        ;
        assert(a_lo * b_lo <= u128::MAX && a_lo * b_hi <= u128::MAX && a_hi * b_lo <= u128::MAX
            && a_hi * b_hi <= u128::MAX) by (nonlinear_arith)
            requires
                a_hi < LIMB && a_lo < LIMB && b_hi < LIMB && b_lo < LIMB,
        ;
    }
    let p0 = a_lo * b_lo;
    let p1 = a_lo * b_hi;
    let p2 = a_hi * b_lo;
    let p3 = a_hi * b_hi;
    proof {
        assert(p0 / LIMB < LIMB && p1 / LIMB < LIMB && p2 / LIMB < LIMB && p3 / LIMB < LIMB)
            by (nonlinear_arith)
            requires
                p0 <= u128::MAX && p1 <= u128::MAX && p2 <= u128::MAX && p3 <= u128::MAX,
        ;
        assert(p0 % LIMB < LIMB && p1 % LIMB < LIMB && p2 % LIMB < LIMB && p3 % LIMB < LIMB)
            by (nonlinear_arith)
            requires
                p0 <= u128::MAX && p1 <= u128::MAX && p2 <= u128::MAX && p3 <= u128::MAX,
        ;
    }
    // column sums of the four 64-bit-shifted partial products
    let s0 = p0 % LIMB;
    let s1 = p0 / LIMB + p1 % LIMB + p2 % LIMB;
    let s2 = s1 / LIMB + p1 / LIMB + p2 / LIMB + p3 % LIMB;
    let s3 = s2 / LIMB + p3 / LIMB;
    proof {
        lemma_fundamental_div_mod(p0 as int, LIMB as int);
        lemma_fundamental_div_mod(p1 as int, LIMB as int);
        lemma_fundamental_div_mod(p2 as int, LIMB as int);
        lemma_fundamental_div_mod(p3 as int, LIMB as int);
        lemma_fundamental_div_mod(s1 as int, LIMB as int);
        lemma_fundamental_div_mod(s2 as int, LIMB as int);
        // the product, written over the partial products
        assert(a * b == p3 * LIMB * LIMB + p1 * LIMB + p2 * LIMB + p0) by (nonlinear_arith)
            requires
                a == a_hi * LIMB + a_lo,
                b == b_hi * LIMB + b_lo,
                p0 == a_lo * b_lo,
                p1 == a_lo * b_hi,
                p2 == a_hi * b_lo,
                p3 == a_hi * b_hi,
        ;
        // the product, written over the column sums
        assert(a * b == ((s3 * LIMB + s2 % LIMB) * LIMB + s1 % LIMB) * LIMB + s0)
            by (nonlinear_arith)
            requires
                a * b == p3 * LIMB * LIMB + p1 * LIMB + p2 * LIMB + p0,
                p0 == LIMB * (p0 as int / LIMB as int) + p0 % LIMB,
                p1 == LIMB * (p1 as int / LIMB as int) + p1 % LIMB,
                p2 == LIMB * (p2 as int / LIMB as int) + p2 % LIMB,
                p3 == LIMB * (p3 as int / LIMB as int) + p3 % LIMB,
                s0 == p0 % LIMB,
                s1 == p0 as int / LIMB as int + p1 % LIMB + p2 % LIMB,
                s1 == LIMB * (s1 as int / LIMB as int) + s1 % LIMB,
                s2 == s1 as int / LIMB as int + p1 as int / LIMB as int + p2 as int / LIMB as int
                    + p3 % LIMB,
                s2 == LIMB * (s2 as int / LIMB as int) + s2 % LIMB,
                s3 == s2 as int / LIMB as int + p3 as int / LIMB as int,
        ;
        // the top column fits one limb, because the product itself is
        // below two-to-the-256
        assert(s3 < LIMB) by (nonlinear_arith)
            requires
                a * b == ((s3 * LIMB + s2 % LIMB) * LIMB + s1 % LIMB) * LIMB + s0,
                a <= u128::MAX,
                b <= u128::MAX,
                s0 >= 0 && s1 % LIMB >= 0 && s2 % LIMB >= 0 && s3 >= 0,
        ;
        assert(s3 * LIMB + s2 % LIMB <= u128::MAX) by (nonlinear_arith)
            requires
                s3 < LIMB,
                s2 % LIMB < LIMB,
        ;
        assert((s1 % LIMB) * LIMB + s0 <= u128::MAX) by (nonlinear_arith)
            requires
                s1 % LIMB < LIMB,
                s0 < LIMB,
        ;
    }
    let hi = s3 * LIMB + s2 % LIMB;
    let lo = (s1 % LIMB) * LIMB + s0;
    let r = Wide { hi, lo };
    proof {
        assert(wide_val(r) == a * b) by (nonlinear_arith)
            requires
                a * b == ((s3 * LIMB + s2 % LIMB) * LIMB + s1 % LIMB) * LIMB + s0,
                r.hi == s3 * LIMB + s2 % LIMB,
                r.lo == (s1 % LIMB) * LIMB + s0,
                wide_val(r) == r.hi * 0x1_0000_0000_0000_0000_0000_0000_0000_0000 + r.lo,
        ;
    }
    r
}

/// The exact sum of two wide values that stays within 256 bits.
pub fn add_wide(x: Wide, y: Wide) -> (r: Wide)
    requires
        wide_val(x) + wide_val(y) < 0x1_0000_0000_0000_0000_0000_0000_0000_0000
            * 0x1_0000_0000_0000_0000_0000_0000_0000_0000,
    ensures
        wide_val(r) == wide_val(x) + wide_val(y),
{
    let (lo, carry): (u128, u128) = if x.lo <= u128::MAX - y.lo {
        (x.lo + y.lo, 0)
    } else {
        ((x.lo - (u128::MAX - y.lo)) - 1, 1)
    };
    proof {
        assert(lo == x.lo + y.lo - carry * 0x1_0000_0000_0000_0000_0000_0000_0000_0000);
        assert(x.hi + y.hi + carry < 0x1_0000_0000_0000_0000_0000_0000_0000_0000)
            by (nonlinear_arith)
            requires
                x.hi * 0x1_0000_0000_0000_0000_0000_0000_0000_0000 + x.lo + y.hi
                    * 0x1_0000_0000_0000_0000_0000_0000_0000_0000 + y.lo
                    < 0x1_0000_0000_0000_0000_0000_0000_0000_0000
                    * 0x1_0000_0000_0000_0000_0000_0000_0000_0000,
                lo == x.hi * 0 + x.lo + y.lo - carry * 0x1_0000_0000_0000_0000_0000_0000_0000_0000,
                lo >= 0,
                carry == 0 || carry == 1,
        ;
    }
    let hi = x.hi + y.hi + carry;
    Wide { hi, lo }
}

/// Whether one wide value is at most another.
pub fn le_wide(x: Wide, y: Wide) -> (r: bool)
    ensures
        r == (wide_val(x) <= wide_val(y)),
{
    proof {
        if x.hi < y.hi {
            assert(wide_val(x) < wide_val(y)) by (nonlinear_arith)
                requires
                    x.hi < y.hi,
                    x.lo <= u128::MAX,
                    y.lo >= 0,
                    wide_val(x) == x.hi * 0x1_0000_0000_0000_0000_0000_0000_0000_0000 + x.lo,
                    wide_val(y) == y.hi * 0x1_0000_0000_0000_0000_0000_0000_0000_0000 + y.lo,
            ;
        }
        if x.hi > y.hi {
            assert(wide_val(x) > wide_val(y)) by (nonlinear_arith)
                requires
                    x.hi > y.hi,
                    y.lo <= u128::MAX,
                    x.lo >= 0,
                    wide_val(x) == x.hi * 0x1_0000_0000_0000_0000_0000_0000_0000_0000 + x.lo,
                    wide_val(y) == y.hi * 0x1_0000_0000_0000_0000_0000_0000_0000_0000 + y.lo,
            ;
        }
    }
    if x.hi < y.hi {
        true
    } else if x.hi > y.hi {
        false
    } else {
        x.lo <= y.lo
    }
}

} // verus!
