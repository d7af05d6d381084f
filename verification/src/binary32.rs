//! The IEEE-754 binary32 format, read off the 32-bit pattern of a number.
//!
//! A pattern holds a sign bit, an 8-bit exponent field and a 23-bit fraction
//! field.  Every finite number is an integer multiple of `2^-149`; the model
//! below measures magnitudes in that unit, so that sums and products of finite
//! numbers are exact integers and rounding is the only inexact step.

use crate::rounding::{
    floor_log2, gap, leading_bit, lemma_floor_log2_bounds, lemma_floor_log2_scale,
    lemma_floor_log2_unique, lemma_gap_scale, lemma_pow2_le, lemma_round_div_is_nearest,
    lemma_round_scaled_is_round_div, lemma_round_scaled_lower, lemma_round_scaled_shift,
    lemma_round_scaled_upper, round_div, round_scaled, round_shift,
};
use vstd::arithmetic::power2::*;
use vstd::prelude::*;

verus! {

/// The sign bit.
pub const SIGN_BIT: u32 = 0x8000_0000;

/// The pattern of positive infinity; larger magnitudes are NaNs.
pub const INFINITY: u32 = 0x7f80_0000;

/// The pattern of the quiet NaN that the arithmetic here yields.
pub const QUIET_NAN: u32 = 0x7fc0_0000;

/// The weight of the leading significand bit of a normal number.
pub const IMPLICIT_BIT: u32 = 0x0080_0000;

/// The pattern without its sign bit.
pub open spec fn magnitude_bits(bits: u32) -> nat {
    (bits % 0x8000_0000) as nat
}

/// The sign bit is set (this may hold of zero, an infinity or a NaN too).
pub open spec fn negative(bits: u32) -> bool {
    bits >= 0x8000_0000
}

/// Zero, subnormal or normal: neither an infinity nor a NaN.
pub open spec fn finite(bits: u32) -> bool {
    magnitude_bits(bits) < 0x7f80_0000
}

/// Not a number.
pub open spec fn nan(bits: u32) -> bool {
    magnitude_bits(bits) > 0x7f80_0000
}

/// Positive or negative zero.
pub open spec fn zero(bits: u32) -> bool {
    magnitude_bits(bits) == 0
}

/// The 8-bit exponent field.
pub open spec fn exponent_field(bits: u32) -> nat {
    magnitude_bits(bits) / 0x80_0000
}

/// The 23-bit fraction field.
pub open spec fn fraction_field(bits: u32) -> nat {
    magnitude_bits(bits) % 0x80_0000
}

/// The integer significand: the fraction field, with the implicit leading
/// bit for a normal number.
pub open spec fn significand(bits: u32) -> nat {
    if exponent_field(bits) == 0 {
        fraction_field(bits)
    } else {
        0x80_0000 + fraction_field(bits)
    }
}

/// The power of two by which the significand is multiplied, in units of `2^-149`.
pub open spec fn scale(bits: u32) -> nat {
    if exponent_field(bits) == 0 {
        0
    } else {
        (exponent_field(bits) - 1) as nat
    }
}

/// The absolute value of a finite number, in units of `2^-149`.
pub open spec fn magnitude(bits: u32) -> nat
    recommends
        finite(bits),
{
    significand(bits) * pow2(scale(bits))
}

/// The value of a finite number, in units of `2^-149`.
pub open spec fn value(bits: u32) -> int
    recommends
        finite(bits),
{
    if negative(bits) {
        -(magnitude(bits) as int)
    } else {
        magnitude(bits) as int
    }
}

/// Two patterns denote the same number.
///
/// This is the equality of IEEE-754: a NaN equals nothing, itself included,
/// and the two zeros are equal; otherwise the patterns must agree.
pub open spec fn same_number(a: u32, b: u32) -> bool {
    !nan(a) && !nan(b) && (a == b || (zero(a) && zero(b)))
}

/// The magnitude bits of the binary32 number nearest to `n * 2^e` units of
/// `2^-149`, ties going to the even significand; the bits of infinity when
/// the rounded number is too large for the format.
///
/// Below `2^24` units the representable numbers are the integers.  From there
/// on, a number whose leading bit has index `23 + x` keeps 24 significand bits
/// and is stored with exponent field `x + 1`; a significand that rounds up to
/// `2^24` carries into the next exponent by the addition alone.
pub open spec fn nearest_bits(n: nat, e: int) -> nat {
    let top = floor_log2(n) + e;
    if n == 0 {
        0
    } else if top < 24 {
        round_scaled(n, e)
    } else {
        let x = top - 23;
        let m = x * 0x80_0000 + round_scaled(n, e - x);
        if m < 0x7f80_0000 {
            m as nat
        } else {
            0x7f80_0000
        }
    }
}

/// Moving a factor `2^j` from the number into the exponent changes nothing.
pub proof fn lemma_nearest_bits_shift(n: nat, j: nat, e: int)
    ensures
        nearest_bits(n * pow2(j), e) == nearest_bits(n, e + j),
{
    lemma_pow2_pos(j);
    if n == 0 {
        assert(n * pow2(j) == 0);
    } else {
        assert(n * pow2(j) >= 1) by (nonlinear_arith)
            requires
                n >= 1,
                pow2(j) >= 1,
        ;
        lemma_floor_log2_scale(n, j);
        let top = floor_log2(n) + e + j;
        lemma_round_scaled_shift(n, j, e);
        lemma_round_scaled_shift(n, j, e - (top - 23));
    }
}

/// The fields of a finite pattern: where its significand and scale lie, and
/// how the magnitude bits are put together from them.
pub proof fn lemma_fields(bits: u32)
    requires
        finite(bits),
    ensures
        significand(bits) < 0x100_0000,
        scale(bits) <= 253,
        exponent_field(bits) == 0 ==> magnitude_bits(bits) == significand(bits) < 0x80_0000,
        exponent_field(bits) > 0 ==> significand(bits) >= 0x80_0000,
        exponent_field(bits) > 0 ==> magnitude_bits(bits) == scale(bits) * 0x80_0000
            + significand(bits),
        zero(bits) <==> significand(bits) == 0,
        zero(bits) <==> magnitude(bits) == 0,
{
    lemma_pow2_pos(scale(bits));
    let s = significand(bits);
    let p = pow2(scale(bits));
    assert(s * p == 0 <==> s == 0) by (nonlinear_arith)
        requires
            p > 0,
            s >= 0,
    ;
}

/// Rounding the magnitude of a finite number gives back its magnitude bits:
/// every finite pattern is the nearest one to its own value.
pub proof fn lemma_nearest_bits_of_magnitude(bits: u32)
    requires
        finite(bits),
    ensures
        nearest_bits(magnitude(bits), 0) == magnitude_bits(bits),
{
    let s = significand(bits);
    let j = scale(bits);
    lemma_fields(bits);
    lemma_nearest_bits_shift(s, j, 0);
    lemma2_to64();
    assert(round_scaled(s, 0) == s) by {
        assert(s * 1 == s);
    }
    if s > 0 {
        lemma_floor_log2_bounds(s);
        let l = floor_log2(s);
        if exponent_field(bits) == 0 {
            if l >= 23 {
                if l > 23 {
                    lemma_pow2_strictly_increases(23, l);
                }
            }
            assert(l < 23);
        } else {
            lemma_floor_log2_unique(s, 23);
        }
    }
}

/// Two finite patterns with the same magnitude have the same magnitude bits.
pub proof fn lemma_magnitude_injective(a: u32, b: u32)
    requires
        finite(a),
        finite(b),
        magnitude(a) == magnitude(b),
    ensures
        magnitude_bits(a) == magnitude_bits(b),
{
    lemma_nearest_bits_of_magnitude(a);
    lemma_nearest_bits_of_magnitude(b);
}

/// A number that differs from a normal magnitude `s * 2^j` by less than a
/// quarter of `2^j` rounds to that magnitude: an addend that small is absorbed.
pub proof fn lemma_nearest_bits_absorbs(s: nat, j: nat, n: nat)
    requires
        0x80_0000 <= s < 0x100_0000,
        2 <= j,
        j * 0x80_0000 + s < 0x7f80_0000,
        s * pow2(j) < n + pow2((j - 2) as nat),
        n < s * pow2(j) + pow2((j - 2) as nat),
    ensures
        nearest_bits(n, 0) == j * 0x80_0000 + s,
{
    let p = pow2(j);
    let h = pow2((j - 1) as nat);
    let q = pow2((j - 2) as nat);
    lemma_pow2_unfold(j);
    lemma_pow2_unfold((j - 1) as nat);
    lemma_pow2_pos((j - 2) as nat);
    lemma2_to64();
    lemma_pow2_adds(23, j);
    lemma_pow2_adds(24, j);
    lemma_pow2_adds(23, (j - 1) as nat);
    assert(p == 2 * h && h == 2 * q && q > 0);
    let a = s * p;
    if n >= a {
        let b = (n - a) as nat;
        assert(0x80_0000 * p <= a && a + p <= 0x100_0000 * p) by (nonlinear_arith)
            requires
                0x80_0000 <= s < 0x100_0000,
                a == s * p,
                p > 0,
        ;
        lemma_floor_log2_unique(n, 23 + j);
        vstd::arithmetic::div_mod::lemma_fundamental_div_mod_converse(
            n as int,
            p as int,
            s as int,
            b as int,
        );
    } else if s > 0x80_0000 {
        let b = (a - n) as nat;
        assert(0x80_0000 * p <= a - p && a < 0x100_0000 * p && (s - 1) * p == a - p)
            by (nonlinear_arith)
            requires
                0x80_0000 < s < 0x100_0000,
                a == s * p,
                p > 0,
        ;
        lemma_floor_log2_unique(n, 23 + j);
        vstd::arithmetic::div_mod::lemma_fundamental_div_mod_converse(
            n as int,
            p as int,
            s - 1,
            p - b,
        );
    } else {
        let b = (a - n) as nat;
        assert(a == 0x100_0000 * h && 0xff_ffff * h == a - h) by (nonlinear_arith)
            requires
                a == s * p,
                s == 0x80_0000,
                p == 2 * h,
        ;
        assert(22 + j == 23 + (j - 1));
        lemma_floor_log2_unique(n, 22 + j);
        vstd::arithmetic::div_mod::lemma_fundamental_div_mod_converse(
            n as int,
            h as int,
            0xff_ffff,
            h - b,
        );
        assert(round_scaled(n, -((j - 1) as int)) == 0x100_0000);
    }
}

/// Up to `2^24` the magnitude bits are the magnitude itself.
proof fn lemma_magnitude_of_small(m: u32)
    requires
        m <= 0x100_0000,
    ensures
        finite(m),
        magnitude(m) == m,
{
    lemma2_to64();
    let s = significand(m);
    if m < 0x100_0000 {
        assert(scale(m) == 0);
        assert(s * 1 == s);
    } else {
        assert(scale(m) == 1 && s == 0x80_0000);
        assert(s * 2 == 0x100_0000);
    }
}

/// The magnitude of a pattern put together from an exponent `x >= 1` and a
/// significand of 24 bits, or one that has just carried out of them.
proof fn lemma_magnitude_of_packed(x: nat, q: nat)
    requires
        1 <= x,
        0x80_0000 <= q <= 0x100_0000,
        x * 0x80_0000 + q < 0x7f80_0000,
    ensures
        finite((x * 0x80_0000 + q) as u32),
        magnitude((x * 0x80_0000 + q) as u32) == q * pow2(x),
{
    let m = (x * 0x80_0000 + q) as u32;
    if q < 0x100_0000 {
        assert(exponent_field(m) == x + 1);
        assert(significand(m) == q);
    } else {
        assert(exponent_field(m) == x + 2);
        assert(significand(m) == 0x80_0000);
        lemma_pow2_unfold(x + 1);
        let p = pow2(x);
        assert(0x80_0000 * (2 * p) == 0x100_0000 * p);
    }
}

/// Where the magnitude of a finite pattern lies on the grid of multiples of
/// `2^x`: on it when its scale is at least `x`, below `2^23 * 2^x` otherwise.
proof fn lemma_magnitude_on_grid(y: u32, x: nat)
    requires
        finite(y),
    ensures
        scale(y) >= x ==> magnitude(y) == (significand(y) * pow2((scale(y) - x) as nat)) * pow2(x),
        scale(y) < x ==> magnitude(y) < 0x80_0000 * pow2(x),
{
    let s = significand(y);
    let j = scale(y);
    lemma_fields(y);
    if j >= x {
        lemma_pow2_adds((j - x) as nat, x);
        let a = pow2((j - x) as nat);
        let b = pow2(x);
        assert(s * (a * b) == (s * a) * b) by (nonlinear_arith);
    } else {
        lemma_pow2_le(j + 1, x);
        lemma_pow2_unfold(j + 1);
        lemma_pow2_pos(j);
        let pj = pow2(j);
        assert(s * pj < 0x100_0000 * pj) by (nonlinear_arith)
            requires
                s < 0x100_0000,
                pj > 0,
        ;
    }
}

/// What `nearest_bits` yields is the nearest binary32 number.
///
/// For the number `n / 2^k` (in units of `2^-149`; a number `n * 2^e` with
/// `e >= 0` is the number `(n * 2^e) / 2^0`):
/// - the result is the bits of infinity exactly when the number is at least
///   half-way from the largest finite magnitude to `2^128`;
/// - otherwise no finite pattern `y` is nearer to the number than the result
///   is, and where another magnitude is just as near the result is the even
///   pattern.
pub proof fn lemma_nearest_bits_is_nearest(n: nat, k: nat, y: u32)
    requires
        finite(y),
    ensures
        ({
            let r = nearest_bits(n, -(k as int));
            let d = pow2(k);
            &&& r <= 0x7f80_0000
            &&& (r == 0x7f80_0000 <==> 2 * n >= 0x1ff_ffff * pow2(k + 253))
            &&& r < 0x7f80_0000 ==> gap(magnitude(r as u32), d, n) <= gap(magnitude(y), d, n)
            &&& r < 0x7f80_0000 && gap(magnitude(r as u32), d, n) == gap(magnitude(y), d, n)
                && magnitude(y) != magnitude(r as u32) ==> r % 2 == 0
        }),
{
    let r = nearest_bits(n, -(k as int));
    let d = pow2(k);
    let big = pow2(k + 253);
    let my = magnitude(y);
    lemma_pow2_pos(k);
    lemma_pow2_pos(k + 253);
    lemma2_to64();
    if n == 0 {
        lemma_magnitude_of_small(0);
        assert(0 * d == 0);
        assert(my * d == 0 ==> my == 0) by (nonlinear_arith)
            requires
                d > 0,
        ;
    } else {
        let l = floor_log2(n);
        lemma_floor_log2_bounds(n);
        let top = l - k;
        if top < 24 {
            lemma_round_scaled_is_round_div(n, k);
            if top + 1 >= 0 {
                lemma_round_scaled_upper(n, -(k as int), l + 1);
                lemma_pow2_le((top + 1) as nat, 24);
            } else {
                lemma_pow2_le(l + 1, k);
                lemma_round_scaled_upper(n, -(k as int), k);
            }
            lemma_magnitude_of_small(r as u32);
            lemma_round_div_is_nearest(n, d, my);
            // n < 2^(l + 1) <= 2^(24 + k), well below the overflow threshold
            lemma_pow2_le(l + 1, k + 24);
            lemma_pow2_le(k + 25, k + 253);
            lemma_pow2_unfold(k + 25);
        } else {
            let x = (top - 23) as nat;
            let pe = pow2(x);
            let dd = pow2(k + x);
            lemma_pow2_pos(k + x);
            lemma_pow2_adds(x, k);
            assert(x + k == k + x);
            assert(dd == pe * d);
            lemma_round_scaled_is_round_div(n, k + x);
            let rq = round_div(n, dd);
            assert(round_scaled(n, -(k as int) - x) == rq);
            lemma_round_scaled_upper(n, -(k as int) - x, l + 1);
            lemma_round_scaled_lower(n, -(k as int) - x, l);
            assert(0x80_0000 <= rq <= 0x100_0000);
            let q = n / dd;
            let rem = n % dd;
            vstd::arithmetic::div_mod::lemma_fundamental_div_mod(n as int, dd as int);
            assert(0 <= rem < dd);
            lemma_pow2_adds(23, k + x);
            lemma_pow2_adds(24, k + x);
            assert(l == 23 + (k + x) && l + 1 == 24 + (k + x));
            assert(0x80_0000 * dd <= n < 0x100_0000 * dd);
            assert(0x80_0000 <= q < 0x100_0000) by (nonlinear_arith)
                requires
                    n == dd * q + rem,
                    0 <= rem < dd,
                    0x80_0000 * dd <= n < 0x100_0000 * dd,
            ;
            // the overflow threshold
            if x >= 254 {
                lemma_pow2_le(k + 277, l);
                lemma_pow2_adds(24, k + 253);
                assert(24 + (k + 253) == k + 277);
            } else if x <= 252 {
                lemma_pow2_le(l + 1, k + 276);
                lemma_pow2_adds(23, k + 253);
                assert(23 + (k + 253) == k + 276);
            } else {
                assert(dd == big);
                if q <= 0xff_fffe {
                    assert(q * dd + dd <= 0xff_ffff * dd) by (nonlinear_arith)
                        requires
                            q <= 0xff_fffe,
                            dd > 0,
                    ;
                    assert(dd * q == q * dd) by (nonlinear_arith);
                } else {
                    assert(dd * q == 0xff_ffff * dd) by (nonlinear_arith)
                        requires
                            q == 0xff_ffff,
                    ;
                }
            }
            if r < 0x7f80_0000 {
                assert(r == x * 0x80_0000 + rq);
                lemma_magnitude_of_packed(x, rq);
                lemma_gap_scale(rq, pe, d, n);
                lemma_magnitude_on_grid(y, x);
                if scale(y) >= x {
                    let c = significand(y) * pow2((scale(y) - x) as nat);
                    lemma_gap_scale(c, pe, d, n);
                    lemma_round_div_is_nearest(n, dd, c);
                } else {
                    lemma_round_div_is_nearest(n, dd, 0x80_0000);
                    assert(my * d < 0x80_0000 * dd) by (nonlinear_arith)
                        requires
                            my < 0x80_0000 * pe,
                            dd == pe * d,
                            d > 0,
                    ;
                }
            }
        }
    }
}

/// Whether a pattern is a finite number.
pub fn is_finite(bits: u32) -> (r: bool)
    ensures
        r == finite(bits),
{
    bits % SIGN_BIT < INFINITY
}

/// Whether a pattern is a NaN.
pub fn is_nan(bits: u32) -> (r: bool)
    ensures
        r == nan(bits),
{
    bits % SIGN_BIT > INFINITY
}

/// Whether the sign bit of a pattern is set.
pub fn is_negative(bits: u32) -> (r: bool)
    ensures
        r == negative(bits),
{
    bits >= SIGN_BIT
}

/// Whether two patterns denote the same number.
pub fn numbers_equal(a: u32, b: u32) -> (r: bool)
    ensures
        r == same_number(a, b),
{
    !is_nan(a) && !is_nan(b) && (a == b || (a % SIGN_BIT == 0 && b % SIGN_BIT == 0))
}

/// Finite patterns denote the same number exactly when their values agree.
pub proof fn lemma_same_number_is_same_value(a: u32, b: u32)
    requires
        finite(a),
        finite(b),
    ensures
        same_number(a, b) <==> value(a) == value(b),
{
    lemma_fields(a);
    lemma_fields(b);
    if value(a) == value(b) {
        lemma_magnitude_injective(a, b);
    }
}

/// The integer significand of a pattern.
pub fn significand_of(bits: u32) -> (s: u32)
    ensures
        s == significand(bits),
        s < 0x100_0000,
{
    let m = bits % SIGN_BIT;
    if m / IMPLICIT_BIT == 0 {
        m % IMPLICIT_BIT
    } else {
        IMPLICIT_BIT + m % IMPLICIT_BIT
    }
}

/// The scale of a pattern: the power of two that multiplies its significand.
pub fn scale_of(bits: u32) -> (j: u32)
    ensures
        j == scale(bits),
        j <= 254,
{
    let x = (bits % SIGN_BIT) / IMPLICIT_BIT;
    if x == 0 {
        0
    } else {
        x - 1
    }
}

/// The magnitude bits of the binary32 number nearest to `n * 2^e` units.
pub fn nearest(n: u64, e: i32) -> (m: u32)
    ensures
        m == nearest_bits(n as nat, e as int),
        m <= INFINITY,
{
    if n == 0 {
        return 0;
    }
    let l: i64 = leading_bit(n) as i64;
    let top: i64 = l + e as i64;
    proof {
        lemma_floor_log2_bounds(n as nat);
        lemma2_to64();
    }
    if top < 24 {
        proof {
            if top + 1 >= 0 {
                lemma_round_scaled_upper(n as nat, e as int, (l + 1) as nat);
                lemma_pow2_le((top + 1) as nat, 24);
            } else {
                lemma_pow2_le((l + 1) as nat, (-e) as nat);
                lemma_round_scaled_upper(n as nat, e as int, (-e) as nat);
            }
        }
        let r = round_shift(n, e);
        r as u32
    } else {
        let x: i64 = top - 23;
        if x >= 255 {
            return INFINITY;
        }
        proof {
            lemma_round_scaled_upper(n as nat, 23 - l, (l + 1) as nat);
            lemma_round_scaled_lower(n as nat, 23 - l, l as nat);
        }
        let q = round_shift(n, (23 - l) as i32);
        let m: u32 = (x as u32) * IMPLICIT_BIT + (q as u32);
        if m < INFINITY {
            m
        } else {
            INFINITY
        }
    }
}

} // verus!
