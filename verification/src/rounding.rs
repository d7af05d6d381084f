//! Integer rounding: division to the nearest integer with ties to even, and
//! the position of the leading bit of a natural number.

use vstd::arithmetic::div_mod::*;
use vstd::arithmetic::power2::*;
use vstd::bits::*;
use vstd::prelude::*;

verus! {

/// `n / d` rounded to the nearest integer; when `n / d` lies exactly halfway
/// between two integers, the even one is taken.
pub open spec fn round_div(n: nat, d: nat) -> nat
    recommends
        d > 0,
{
    let q = n / d;
    let r = n % d;
    if 2 * r < d || (2 * r == d && q % 2 == 0) {
        q
    } else {
        q + 1
    }
}

/// `n * 2^e` rounded to the nearest integer, ties to even.
pub open spec fn round_scaled(n: nat, e: int) -> nat {
    if e >= 0 {
        n * pow2(e as nat)
    } else {
        round_div(n, pow2((-e) as nat))
    }
}

/// The index of the leading one bit of `n`: the largest `l` with `2^l <= n`
/// (and 0 for `n == 0`).
pub open spec fn floor_log2(n: nat) -> nat
    decreases n,
{
    if n < 2 {
        0
    } else {
        1 + floor_log2(n / 2)
    }
}

/// The distance between `c * d` and `n`: how far the integer `c` is from
/// the exact quotient `n / d`, measured in units of `1 / d`.
pub open spec fn gap(c: nat, d: nat, n: nat) -> nat {
    if c * d >= n {
        (c * d - n) as nat
    } else {
        (n - c * d) as nat
    }
}

/// Multiplying dividend and divisor by the same factor keeps the quotient
/// and scales the remainder.
pub proof fn lemma_div_mod_scale(n: nat, d: nat, j: nat)
    requires
        d > 0,
        j > 0,
    ensures
        d * j > 0,
        (n * j) / (d * j) == n / d,
        (n * j) % (d * j) == (n % d) * j,
{
    let q = n / d;
    let r = n % d;
    lemma_fundamental_div_mod(n as int, d as int);
    assert(0 <= r < d);
    assert(n * j == q * (d * j) + r * j) by (nonlinear_arith)
        requires
            n == d * q + r,
    ;
    assert(0 <= r * j < d * j) by (nonlinear_arith)
        requires
            0 <= r < d,
            j > 0,
    ;
    lemma_fundamental_div_mod_converse((n * j) as int, (d * j) as int, q as int, (r * j) as int);
}

/// Rounding a quotient does not depend on a common factor of dividend and divisor.
pub proof fn lemma_round_div_scale(n: nat, d: nat, j: nat)
    requires
        d > 0,
        j > 0,
    ensures
        round_div(n * j, d * j) == round_div(n, d),
{
    lemma_div_mod_scale(n, d, j);
    let r = n % d;
    assert(2 * (r * j) < d * j <==> 2 * r < d) by (nonlinear_arith)
        requires
            j > 0,
    ;
    assert(2 * (r * j) == d * j <==> 2 * r == d) by (nonlinear_arith)
        requires
            j > 0,
    ;
}

/// An exact multiple rounds to its quotient.
pub proof fn lemma_round_div_exact(x: nat, d: nat)
    requires
        d > 0,
    ensures
        round_div(x * d, d) == x,
{
    lemma_fundamental_div_mod_converse((x * d) as int, d as int, x as int, 0);
}

/// A rounded quotient stays between integer bounds of the exact quotient.
pub proof fn lemma_round_div_bounds(n: nat, d: nat, lo: nat, hi: nat)
    requires
        d > 0,
        lo * d <= n <= hi * d,
    ensures
        lo <= round_div(n, d) <= hi,
{
    let q = n / d;
    let r = n % d;
    lemma_fundamental_div_mod(n as int, d as int);
    assert(0 <= r < d);
    assert(lo <= q) by (nonlinear_arith)
        requires
            lo * d <= n,
            n == d * q + r,
            0 <= r < d,
            d > 0,
    ;
    if n == hi * d {
        lemma_round_div_exact(hi, d);
    } else {
        assert(q < hi) by (nonlinear_arith)
            requires
                n < hi * d,
                n == d * q + r,
                0 <= r < d,
                d > 0,
        ;
    }
}

/// The leading bit brackets the number between two consecutive powers of two.
pub proof fn lemma_floor_log2_bounds(n: nat)
    requires
        n >= 1,
    ensures
        pow2(floor_log2(n)) <= n < pow2(floor_log2(n) + 1),
    decreases n,
{
    lemma2_to64();
    if n >= 2 {
        lemma_floor_log2_bounds(n / 2);
        let l = floor_log2(n / 2);
        lemma_pow2_unfold(l + 1);
        lemma_pow2_unfold(l + 2);
    }
}

/// The bracketing by powers of two determines the leading bit.
pub proof fn lemma_floor_log2_unique(n: nat, l: nat)
    requires
        pow2(l) <= n < pow2(l + 1),
    ensures
        floor_log2(n) == l,
{
    lemma_pow2_pos(l);
    lemma_floor_log2_bounds(n);
    let k = floor_log2(n);
    if k < l {
        if k + 1 < l {
            lemma_pow2_strictly_increases(k + 1, l);
        }
    } else if l < k {
        if l + 1 < k {
            lemma_pow2_strictly_increases(l + 1, k);
        }
    }
}

/// Multiplying by `2^j` moves the leading bit up by `j`.
pub proof fn lemma_floor_log2_scale(n: nat, j: nat)
    requires
        n >= 1,
    ensures
        floor_log2(n * pow2(j)) == floor_log2(n) + j,
{
    let l = floor_log2(n);
    lemma_floor_log2_bounds(n);
    lemma_pow2_adds(l, j);
    lemma_pow2_adds(l + 1, j);
    lemma_pow2_pos(j);
    let p = pow2(j);
    assert(pow2(l) * p <= n * p < pow2(l + 1) * p) by (nonlinear_arith)
        requires
            pow2(l) <= n < pow2(l + 1),
            p > 0,
    ;
    assert(l + 1 + j == l + j + 1);
    lemma_floor_log2_unique(n * p, l + j);
}

/// Moving a factor `2^j` from the number into the exponent changes nothing.
pub proof fn lemma_round_scaled_shift(n: nat, j: nat, e: int)
    ensures
        round_scaled(n * pow2(j), e) == round_scaled(n, e + j),
{
    let pj = pow2(j);
    lemma_pow2_pos(j);
    if e >= 0 {
        let pe = pow2(e as nat);
        lemma_pow2_adds(j, e as nat);
        assert((n * pj) * pe == n * (pj * pe)) by (nonlinear_arith);
    } else if e + j >= 0 {
        let pr = pow2((e + j) as nat);
        let pd = pow2((-e) as nat);
        lemma_pow2_pos((-e) as nat);
        lemma_pow2_adds((e + j) as nat, (-e) as nat);
        assert(pj == pr * pd);
        assert(n * pj == (n * pr) * pd) by (nonlinear_arith)
            requires
                pj == pr * pd,
        ;
        lemma_round_div_exact(n * pr, pd);
    } else {
        let pd = pow2((-(e + j)) as nat);
        lemma_pow2_pos((-(e + j)) as nat);
        lemma_pow2_adds((-(e + j)) as nat, j);
        assert(pow2((-e) as nat) == pd * pj);
        lemma_round_div_scale(n, pd, pj);
    }
}

/// No integer is nearer to the exact quotient than the rounded one, and an
/// integer that is just as near is the odd one of the two.
pub proof fn lemma_round_div_is_nearest(n: nat, d: nat, c: nat)
    requires
        d > 0,
    ensures
        gap(round_div(n, d), d, n) <= gap(c, d, n),
        gap(round_div(n, d), d, n) == gap(c, d, n) && c != round_div(n, d) ==> round_div(n, d) % 2
            == 0,
{
    let q = n / d;
    let rem = n % d;
    lemma_fundamental_div_mod(n as int, d as int);
    assert(0 <= rem < d);
    assert(d * q == q * d && (q + 1) * d == q * d + d) by (nonlinear_arith);
    if c <= q {
        assert(c * d <= q * d && (c < q ==> c * d + d <= q * d)) by (nonlinear_arith)
            requires
                c <= q,
                d > 0,
        ;
    } else {
        assert(c * d >= q * d + d && (c > q + 1 ==> c * d >= q * d + d + d)) by (nonlinear_arith)
            requires
                c > q,
                d > 0,
        ;
    }
}

/// Distances do not change when a factor moves from the integer into the unit.
pub proof fn lemma_gap_scale(c: nat, p: nat, d: nat, n: nat)
    ensures
        gap(c * p, d, n) == gap(c, p * d, n),
{
    assert((c * p) * d == c * (p * d)) by (nonlinear_arith);
}

/// Scaling down by `2^k` and rounding is a rounded division by `2^k`.
pub proof fn lemma_round_scaled_is_round_div(n: nat, k: nat)
    ensures
        round_scaled(n, -(k as int)) == round_div(n, pow2(k)),
{
    if k == 0 {
        lemma2_to64();
        assert(n * 1 == n);
    }
}

/// Powers of two grow with the exponent.
pub proof fn lemma_pow2_le(a: nat, b: nat)
    requires
        a <= b,
    ensures
        pow2(a) <= pow2(b),
{
    if a < b {
        lemma_pow2_strictly_increases(a, b);
    }
}

/// A number below `2^t` stays at or below `2^(t + e)` when scaled and rounded.
pub proof fn lemma_round_scaled_upper(n: nat, e: int, t: nat)
    requires
        n < pow2(t),
        t + e >= 0,
    ensures
        round_scaled(n, e) <= pow2((t + e) as nat),
        e >= 0 ==> round_scaled(n, e) < pow2((t + e) as nat),
{
    if e >= 0 {
        let pe = pow2(e as nat);
        lemma_pow2_pos(e as nat);
        lemma_pow2_adds(t, e as nat);
        assert(n * pe < pow2(t) * pe) by (nonlinear_arith)
            requires
                n < pow2(t),
                pe > 0,
        ;
    } else {
        let pd = pow2((-e) as nat);
        lemma_pow2_pos((-e) as nat);
        lemma_pow2_adds((t + e) as nat, (-e) as nat);
        assert(0 * pd == 0);
        lemma_round_div_bounds(n, pd, 0, pow2((t + e) as nat));
    }
}

/// A number from `2^t` on stays at or above `2^(t + e)` when scaled and rounded.
pub proof fn lemma_round_scaled_lower(n: nat, e: int, t: nat)
    requires
        pow2(t) <= n,
        t + e >= 0,
    ensures
        pow2((t + e) as nat) <= round_scaled(n, e),
{
    if e >= 0 {
        let pe = pow2(e as nat);
        lemma_pow2_pos(e as nat);
        lemma_pow2_adds(t, e as nat);
        assert(pow2(t) * pe <= n * pe) by (nonlinear_arith)
            requires
                pow2(t) <= n,
                pe > 0,
        ;
    } else {
        let pd = pow2((-e) as nat);
        lemma_pow2_pos((-e) as nat);
        lemma_pow2_adds((t + e) as nat, (-e) as nat);
        let lo = pow2((t + e) as nat);
        assert(n <= n * pd) by (nonlinear_arith)
            requires
                pd >= 1,
        ;
        lemma_round_div_bounds(n, pd, lo, n);
    }
}

/// `2^k` as a machine word.
pub fn pow2_u64(k: u64) -> (p: u64)
    requires
        k < 64,
    ensures
        p == pow2(k as nat),
{
    proof {
        lemma_u64_pow2_no_overflow(k as nat);
        lemma_u64_shl_is_mul(1, k);
    }
    1u64 << k
}

/// The index of the leading one bit of a word (0 for the word 0).
pub fn leading_bit(n: u64) -> (l: u32)
    ensures
        l == floor_log2(n as nat),
        l < 64,
{
    if n == 0 {
        return 0;
    }
    let mut l: u32 = 0;
    let mut t: u64 = n;
    proof {
        lemma_floor_log2_bounds(n as nat);
        lemma2_to64_rest();
        if floor_log2(n as nat) >= 64 {
            lemma_pow2_le(64, floor_log2(n as nat));
        }
    }
    while t >= 2
        invariant
            t >= 1,
            floor_log2(n as nat) < 64,
            floor_log2(n as nat) == l + floor_log2(t as nat),
        decreases t,
    {
        t = t / 2;
        l = l + 1;
    }
    l
}

/// `n * 2^e` rounded to the nearest integer, ties to even.  For `e >= 0`
/// the product has to fit a machine word.
pub fn round_shift(n: u64, e: i32) -> (r: u64)
    requires
        e >= 0 ==> n * pow2(e as nat) <= u64::MAX,
    ensures
        r == round_scaled(n as nat, e as int),
{
    if n == 0 {
        proof {
            if e < 0 {
                let d = pow2((-e) as nat);
                lemma_pow2_pos((-e) as nat);
                lemma_small_mod(0, d);
                lemma_basic_div(0, d as int);
                assert(0nat / d == 0 && 0nat % d == 0);
            } else {
                assert(0 * pow2(e as nat) == 0) by (nonlinear_arith);
            }
        }
        return 0;
    }
    if e >= 0 {
        proof {
            lemma2_to64_rest();
            if e >= 64 {
                lemma_pow2_le(64, e as nat);
            }
            let pe = pow2(e as nat);
            assert(pe <= n * pe) by (nonlinear_arith)
                requires
                    n >= 1,
                    pe >= 0,
            ;
        }
        let p = pow2_u64(e as u64);
        n * p
    } else {
        let k: u64 = (-(e as i64)) as u64;
        proof {
            lemma_pow2_pos(k as nat);
            lemma2_to64_rest();
        }
        if k >= 64 {
            proof {
                lemma_pow2_le(64, k as nat);
                lemma_small_mod(n as nat, pow2(k as nat));
                lemma_basic_div(n as int, pow2(k as nat) as int);
                if k > 64 {
                    lemma_pow2_le(65, k as nat);
                    lemma_pow2_unfold(65);
                }
            }
            if k == 64 && n > 0x8000_0000_0000_0000 {
                1
            } else {
                0
            }
        } else {
            let d = pow2_u64(k);
            proof {
                lemma_pow2_unfold(k as nat);
                lemma_pow2_pos((k - 1) as nat);
                lemma_div_is_ordered_by_denominator(n as int, 2, d as int);
            }
            let half = d / 2;
            let q = n / d;
            let r = n % d;
            if r < half || (r == half && q % 2 == 0) {
                q
            } else {
                q + 1
            }
        }
    }
}

} // verus!
