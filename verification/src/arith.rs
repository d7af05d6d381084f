//! Addition and multiplication of binary32 numbers on their bit patterns,
//! rounded to nearest with ties to even.

use crate::binary32::{
    finite, is_finite, is_nan, is_negative, lemma_fields, lemma_nearest_bits_absorbs,
    lemma_nearest_bits_is_nearest, lemma_nearest_bits_shift, magnitude, magnitude_bits, nan,
    nearest, nearest_bits, negative, scale, scale_of, significand, significand_of, value, zero,
    INFINITY, QUIET_NAN, SIGN_BIT,
};
use crate::rounding::{gap, lemma_pow2_le, pow2_u64};
use vstd::arithmetic::power2::*;
use vstd::prelude::*;

verus! {

/// The pattern of the sum of two numbers.
///
/// The sum of two finite numbers is their exact sum rounded to the nearest
/// binary32 number, an infinity when that is out of range.  An exact zero is
/// negative only when both addends are negative.  An infinity absorbs a
/// finite addend; two infinities of opposite sign, and any NaN, give the
/// quiet NaN.
pub open spec fn sum_bits(a: u32, b: u32) -> u32 {
    if nan(a) || nan(b) {
        QUIET_NAN
    } else if !finite(a) {
        if !finite(b) && negative(a) != negative(b) {
            QUIET_NAN
        } else {
            a
        }
    } else if !finite(b) {
        b
    } else {
        let s = value(a) + value(b);
        if s > 0 {
            nearest_bits(s as nat, 0) as u32
        } else if s < 0 {
            (0x8000_0000 + nearest_bits((-s) as nat, 0)) as u32
        } else if negative(a) && negative(b) {
            0x8000_0000
        } else {
            0
        }
    }
}

/// The pattern of the product of two numbers.
///
/// The product of two finite numbers is their exact product rounded to the
/// nearest binary32 number, an infinity when that is out of range; its sign
/// bit is set when exactly one factor has its sign bit set.  An infinity
/// times a nonzero number is an infinity; an infinity times zero, and any
/// NaN, give the quiet NaN.
pub open spec fn product_bits(a: u32, b: u32) -> u32 {
    let sign: nat = if negative(a) != negative(b) {
        0x8000_0000
    } else {
        0
    };
    if nan(a) || nan(b) {
        QUIET_NAN
    } else if !finite(a) || !finite(b) {
        if zero(a) || zero(b) {
            QUIET_NAN
        } else {
            (sign + 0x7f80_0000) as u32
        }
    } else {
        (sign + nearest_bits(magnitude(a) * magnitude(b), -149)) as u32
    }
}

/// The absolute value of an integer.
pub open spec fn abs(i: int) -> nat {
    if i >= 0 {
        i as nat
    } else {
        (-i) as nat
    }
}

/// The sum of two finite numbers is correctly rounded.
///
/// With `s` the exact sum: the result carries the sign of `s`; it is an
/// infinity exactly when `|s|` is at least half-way from the largest finite
/// magnitude to `2^128`; otherwise no finite number `y` is nearer to `s`
/// than the result is.
pub proof fn lemma_sum_is_nearest(a: u32, b: u32, y: u32)
    requires
        finite(a),
        finite(b),
        finite(y),
    ensures
        ({
            let r = sum_bits(a, b);
            let s = value(a) + value(b);
            &&& !nan(r)
            &&& s > 0 ==> !negative(r)
            &&& s < 0 ==> negative(r)
            &&& (!finite(r) <==> 2 * abs(s) >= 0x1ff_ffff * pow2(253))
            &&& finite(r) ==> abs(value(r) - s) <= abs(value(y) - s)
        }),
{
    let r = sum_bits(a, b);
    let s = value(a) + value(b);
    let n = abs(s);
    lemma2_to64();
    lemma_nearest_bits_is_nearest(n, 0, y);
    lemma_nearest_bits_is_nearest(n, 0, 0);
    let m = nearest_bits(n, 0);
    assert(magnitude_bits(r) == m);
    assert(magnitude(r) == magnitude(m as u32));
    assert(magnitude(0) == 0) by {
        assert(0 * pow2(0) == 0);
    }
    assert(magnitude(r) * 1 == magnitude(r) && magnitude(y) * 1 == magnitude(y) && 0 * 1 == 0);
}

/// The product of two finite numbers is correctly rounded.
///
/// With `p` the exact product, which is measured in units of `2^-298`: the
/// sign bit of the result is set when exactly one factor has it set; the
/// result is an infinity exactly when `|p|` is at least half-way from the
/// largest finite magnitude to `2^128`; otherwise no finite number of the
/// same sign is nearer to `p` than the result is.
pub proof fn lemma_product_is_nearest(a: u32, b: u32, y: u32)
    requires
        finite(a),
        finite(b),
        finite(y),
    ensures
        ({
            let r = product_bits(a, b);
            let p = magnitude(a) * magnitude(b);
            let unit = pow2(149);
            &&& !nan(r)
            &&& negative(r) == (negative(a) != negative(b))
            &&& (!finite(r) <==> 2 * p >= 0x1ff_ffff * pow2(402))
            &&& finite(r) ==> gap(magnitude(r), unit, p) <= gap(magnitude(y), unit, p)
        }),
{
    let r = product_bits(a, b);
    let p = magnitude(a) * magnitude(b);
    lemma_nearest_bits_is_nearest(p, 149, y);
    let m = nearest_bits(p, -149);
    assert(magnitude_bits(r) == m);
    assert(magnitude(r) == magnitude(m as u32));
    assert(149 + 253 == 402);
}

/// A product with a NaN or an infinity is never finite.
pub proof fn lemma_product_with_non_finite(a: u32, k: u32)
    requires
        !finite(k),
    ensures
        !finite(product_bits(a, k)),
        !finite(product_bits(k, a)),
{
}

/// The sum of two numbers does not depend on their order.
pub proof fn lemma_sum_commutes(a: u32, b: u32)
    ensures
        sum_bits(a, b) == sum_bits(b, a),
{
}

/// The product of two numbers does not depend on their order.
pub proof fn lemma_product_commutes(a: u32, b: u32)
    ensures
        product_bits(a, b) == product_bits(b, a),
{
    if finite(a) && finite(b) {
        assert(magnitude(a) * magnitude(b) == magnitude(b) * magnitude(a)) by (nonlinear_arith);
    }
}

/// A pattern is its sign bit and its magnitude bits.
proof fn lemma_sign_and_magnitude(bits: u32)
    ensures
        bits == (if negative(bits) {
            0x8000_0000nat
        } else {
            0
        }) + magnitude_bits(bits),
{
}

/// An addend whose scale lies 26 or more below the other's is absorbed.
proof fn lemma_sum_absorbs(hi: u32, lo: u32)
    requires
        finite(hi),
        finite(lo),
        scale(hi) >= scale(lo) + 26,
    ensures
        sum_bits(hi, lo) == hi,
{
    let s = significand(hi);
    let j = scale(hi);
    let t = significand(lo);
    let k = scale(lo);
    lemma_fields(hi);
    lemma_fields(lo);
    lemma_sign_and_magnitude(hi);
    lemma2_to64();
    // magnitude(lo) < 2^(24 + k) <= 2^(j - 2)
    lemma_pow2_adds(24, k);
    lemma_pow2_le(24 + k, (j - 2) as nat);
    lemma_pow2_pos(k);
    let pk = pow2(k);
    assert(t * pk < 0x100_0000 * pk) by (nonlinear_arith)
        requires
            t < 0x100_0000,
            pk > 0,
    ;
    // magnitude(hi) >= 2^(23 + j) > magnitude(lo)
    lemma_pow2_unfold(j);
    lemma_pow2_unfold((j - 1) as nat);
    let pj = pow2(j);
    assert(s * pj >= pj) by (nonlinear_arith)
        requires
            s >= 1,
            pj >= 0,
    ;
    let v = value(hi) + value(lo);
    let n: nat = if v >= 0 {
        v as nat
    } else {
        (-v) as nat
    };
    assert(v > 0 <==> !negative(hi));
    assert(v != 0);
    lemma_nearest_bits_absorbs(s, j, n);
}

/// The sum of two finite numbers, the first of which has the larger scale.
fn finite_sum(hi: u32, lo: u32) -> (r: u32)
    requires
        finite(hi),
        finite(lo),
        scale(hi) >= scale(lo),
    ensures
        r == sum_bits(hi, lo),
{
    let sh: u64 = significand_of(hi) as u64;
    let jh: u32 = scale_of(hi);
    let sl: u64 = significand_of(lo) as u64;
    let jl: u32 = scale_of(lo);
    let d: u32 = jh - jl;
    if d >= 26 {
        proof {
            lemma_sum_absorbs(hi, lo);
        }
        return hi;
    }
    let pd = pow2_u64(d as u64);
    proof {
        lemma2_to64();
        lemma_pow2_le(d as nat, 25);
        lemma_pow2_adds(d as nat, jl as nat);
        lemma_pow2_pos(jl as nat);
        assert(sh * pd <= 0x100_0000 * 0x200_0000) by (nonlinear_arith)
            requires
                sh < 0x100_0000,
                pd <= 0x200_0000,
        ;
    }
    let wide: u64 = sh * pd;
    let same_sign = is_negative(hi) == is_negative(lo);
    let hi_wins = wide >= sl;
    let mag: u64 = if same_sign {
        wide + sl
    } else if hi_wins {
        wide - sl
    } else {
        sl - wide
    };
    let neg: bool = if same_sign || hi_wins {
        is_negative(hi)
    } else {
        is_negative(lo)
    };
    proof {
        let pl = pow2(jl as nat);
        assert(magnitude(hi) == wide * pl) by (nonlinear_arith)
            requires
                magnitude(hi) == sh * pow2(jh as nat),
                pow2(jh as nat) == pd * pl,
                wide == sh * pd,
        ;
        let v = value(hi) + value(lo);
        let signed: int = if neg {
            -(mag as int)
        } else {
            mag as int
        };
        assert(v == signed * pl) by (nonlinear_arith)
            requires
                magnitude(hi) == wide * pl,
                magnitude(lo) == sl * pl,
                v == (if negative(hi) {
                    -(magnitude(hi) as int)
                } else {
                    magnitude(hi) as int
                }) + (if negative(lo) {
                    -(magnitude(lo) as int)
                } else {
                    magnitude(lo) as int
                }),
                signed == (if negative(hi) {
                    -(wide as int)
                } else {
                    wide as int
                }) + (if negative(lo) {
                    -(sl as int)
                } else {
                    sl as int
                }),
        ;
        assert((v > 0 <==> signed > 0) && (v < 0 <==> signed < 0)) by (nonlinear_arith)
            requires
                v == signed * pl,
                pl > 0,
        ;
        assert((if v >= 0 {
            v
        } else {
            -v
        }) == mag * pl) by (nonlinear_arith)
            requires
                v == signed * pl,
                signed == mag || signed == -mag,
                pl > 0,
                mag >= 0,
        ;
        lemma_nearest_bits_shift(mag as nat, jl as nat, 0);
    }
    if mag == 0 {
        if is_negative(hi) && is_negative(lo) {
            SIGN_BIT
        } else {
            0
        }
    } else {
        let m = nearest(mag, jl as i32);
        if neg {
            SIGN_BIT + m
        } else {
            m
        }
    }
}

/// The sum of two numbers, rounded to nearest with ties to even.
pub fn sum(a: u32, b: u32) -> (r: u32)
    ensures
        r == sum_bits(a, b),
{
    if is_nan(a) || is_nan(b) {
        QUIET_NAN
    } else if !is_finite(a) {
        if !is_finite(b) && is_negative(a) != is_negative(b) {
            QUIET_NAN
        } else {
            a
        }
    } else if !is_finite(b) {
        b
    } else if scale_of(a) >= scale_of(b) {
        finite_sum(a, b)
    } else {
        finite_sum(b, a)
    }
}

/// The product of two numbers, rounded to nearest with ties to even.
pub fn product(a: u32, b: u32) -> (r: u32)
    ensures
        r == product_bits(a, b),
{
    let sign: u32 = if is_negative(a) != is_negative(b) {
        SIGN_BIT
    } else {
        0
    };
    if is_nan(a) || is_nan(b) {
        QUIET_NAN
    } else if !is_finite(a) || !is_finite(b) {
        if a % SIGN_BIT == 0 || b % SIGN_BIT == 0 {
            QUIET_NAN
        } else {
            sign + INFINITY
        }
    } else {
        let sa: u64 = significand_of(a) as u64;
        let sb: u64 = significand_of(b) as u64;
        let ja: u32 = scale_of(a);
        let jb: u32 = scale_of(b);
        proof {
            assert(sa * sb < 0x100_0000 * 0x100_0000) by (nonlinear_arith)
                requires
                    sa < 0x100_0000,
                    sb < 0x100_0000,
            ;
            let pa = pow2(ja as nat);
            let pb = pow2(jb as nat);
            lemma_pow2_adds(ja as nat, jb as nat);
            assert((sa * pa) * (sb * pb) == (sa * sb) * (pa * pb)) by (nonlinear_arith);
            lemma_nearest_bits_shift((sa * sb) as nat, (ja + jb) as nat, -149);
        }
        let p: u64 = sa * sb;
        let e: i32 = (ja + jb) as i32 - 149;
        let m = nearest(p, e);
        sign + m
    }
}

} // verus!
