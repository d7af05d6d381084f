use finite_vector::arith::{product, sum};
use finite_vector::binary32::{
    is_finite, is_nan, is_negative, nearest, numbers_equal, scale_of, significand_of, INFINITY,
    QUIET_NAN, SIGN_BIT,
};
use finite_vector::rounding::{leading_bit, pow2_u64, round_shift};
use finite_vector::vector::{Vector, VectorError};

/// The pattern agrees with what the hardware computed; any NaN stands for any other.
fn agrees(expected: f32, got: u32) -> bool {
    if expected.is_nan() {
        f32::from_bits(got).is_nan()
    } else {
        expected.to_bits() == got
    }
}

fn check_pair(a: u32, b: u32) {
    let (x, y) = (f32::from_bits(a), f32::from_bits(b));
    let s = sum(a, b);
    assert!(agrees(x + y, s), "sum of {a:#010x} and {b:#010x}: {s:#010x}, expected {:#010x}", (x + y).to_bits());
    let p = product(a, b);
    assert!(agrees(x * y, p), "product of {a:#010x} and {b:#010x}: {p:#010x}, expected {:#010x}", (x * y).to_bits());
}

fn next(state: &mut u64) -> u32 {
    *state ^= *state << 13;
    *state ^= *state >> 7;
    *state ^= *state << 17;
    (*state >> 16) as u32
}

const SPECIAL: [u32; 30] = [
    0x0000_0000, 0x8000_0000, 0x0000_0001, 0x8000_0001, 0x0000_0002, 0x007f_ffff, 0x807f_ffff,
    0x0080_0000, 0x8080_0000, 0x0080_0001, 0x00ff_ffff, 0x0100_0000, 0x3f80_0000, 0xbf80_0000,
    0x3f7f_ffff, 0x3f80_0001, 0x4000_0000, 0x3f00_0000, 0x4b00_0000, 0x4b80_0000, 0x4b7f_ffff,
    0x7f7f_ffff, 0xff7f_ffff, 0x7f00_0000, 0x7e80_0000, 0x7f80_0000, 0xff80_0000, 0x7fc0_0000,
    0xffc0_0000, 0x7f80_0001,
];

#[test]
fn special_values_agree_with_the_hardware() {
    for a in SPECIAL {
        for b in SPECIAL {
            check_pair(a, b);
        }
    }
}

#[test]
fn random_patterns_agree_with_the_hardware() {
    let mut state: u64 = 0x9e37_79b9_7f4a_7c15;
    for _ in 0..400_000 {
        let a = next(&mut state);
        let b = next(&mut state);
        check_pair(a, b);
    }
}

#[test]
fn nearby_exponents_agree_with_the_hardware() {
    // Addends whose exponents differ by little: alignment, carries and cancellation.
    let mut state: u64 = 0x0123_4567_89ab_cdef;
    for _ in 0..400_000 {
        let a = next(&mut state);
        let r = next(&mut state);
        let shift = (next(&mut state) % 61) as i32 - 30;
        let exp = ((a >> 23) & 0xff) as i32 + shift;
        let exp = exp.clamp(0, 255) as u32;
        let b = (r & 0x807f_ffff) | (exp << 23);
        check_pair(a, b);
    }
}

#[test]
fn products_near_the_range_limits_agree_with_the_hardware() {
    // Factors whose exponents sum to the edge of the subnormal range or of overflow.
    let mut state: u64 = 0xfeed_face_cafe_beef;
    for _ in 0..400_000 {
        let a = next(&mut state);
        let r = next(&mut state);
        let ea = ((a >> 23) & 0xff) as i32;
        let target = if next(&mut state) % 2 == 0 { 127 - 126 } else { 127 + 127 };
        let jitter = (next(&mut state) % 53) as i32 - 26;
        let eb = (target + jitter - (ea - 127)).clamp(0, 254) as u32;
        let b = (r & 0x807f_ffff) | (eb << 23);
        check_pair(a, b);
        check_pair(b, a);
    }
}

#[test]
fn subnormals_agree_with_the_hardware() {
    let mut state: u64 = 0x1357_9bdf_0246_8ace;
    for _ in 0..200_000 {
        let a = next(&mut state) & 0x80ff_ffff;
        let b = next(&mut state) & 0x80ff_ffff;
        check_pair(a, b);
        let c = next(&mut state);
        check_pair(a, c);
    }
}

#[test]
fn ties_round_to_even() {
    // 2^24 + 1 lies halfway between 2^24 and 2^24 + 2.
    assert_eq!(sum(16777216.0f32.to_bits(), 1.0f32.to_bits()), 16777216.0f32.to_bits());
    // 2^24 + 3 lies halfway between 2^24 + 2 and 2^24 + 4.
    assert_eq!(sum(16777218.0f32.to_bits(), 1.0f32.to_bits()), 16777220.0f32.to_bits());
    assert_eq!(sum(0.1f32.to_bits(), 0.2f32.to_bits()), 0.3f32.to_bits());
    assert_eq!(sum(0.1f32.to_bits(), 0.2f32.to_bits()), 0x3e99_999a);
    // (1 + 2^-23) * (1 + 2^-23) = 1 + 2^-22 + 2^-46: the last term is dropped.
    assert_eq!(product(0x3f80_0001, 0x3f80_0001), 0x3f80_0002);
    // 3 * 2^-149 / 2 = 1.5 * 2^-149 is a tie between 1 and 2 units: even wins.
    assert_eq!(product(0x0000_0003, 0.5f32.to_bits()), 0x0000_0002);
    // 2^-149 / 2 is a tie between 0 and 1 unit: even wins, and the sign stays.
    assert_eq!(product(0x0000_0001, 0.5f32.to_bits()), 0x0000_0000);
    assert_eq!(product(0x8000_0001, 0.5f32.to_bits()), 0x8000_0000);
}

#[test]
fn zeros_and_signs() {
    let (pz, nz) = (0.0f32.to_bits(), (-0.0f32).to_bits());
    assert_eq!(sum(pz, pz), pz);
    assert_eq!(sum(pz, nz), pz);
    assert_eq!(sum(nz, pz), pz);
    assert_eq!(sum(nz, nz), nz);
    assert_eq!(sum(1.5f32.to_bits(), (-1.5f32).to_bits()), pz);
    assert_eq!(sum((-1.5f32).to_bits(), 1.5f32.to_bits()), pz);
    assert_eq!(product(pz, (-2.0f32).to_bits()), nz);
    assert_eq!(product(nz, (-2.0f32).to_bits()), pz);
    assert_eq!(product(nz, pz), nz);
}

#[test]
fn overflow_gives_an_infinity() {
    let max = f32::MAX.to_bits();
    assert_eq!(sum(max, max), INFINITY);
    assert_eq!(sum(max | SIGN_BIT, max | SIGN_BIT), INFINITY | SIGN_BIT);
    assert_eq!(product(max, 2.0f32.to_bits()), INFINITY);
    assert_eq!(product(max, (-2.0f32).to_bits()), INFINITY | SIGN_BIT);
    // Half an ulp above MAX is a tie that goes to the even side: infinity.
    assert_eq!(sum(max, 0x7300_0000), INFINITY);
    // Just below that it stays MAX.
    assert_eq!(sum(max, 0x72ff_ffff), max);
}

#[test]
fn infinities_and_nans() {
    let (inf, ninf) = (INFINITY, INFINITY | SIGN_BIT);
    let one = 1.0f32.to_bits();
    assert_eq!(sum(inf, one), inf);
    assert_eq!(sum(one, ninf), ninf);
    assert_eq!(sum(inf, inf), inf);
    assert_eq!(sum(inf, ninf), QUIET_NAN);
    assert_eq!(sum(QUIET_NAN, one), QUIET_NAN);
    assert_eq!(product(inf, 0), QUIET_NAN);
    assert_eq!(product(ninf, one), ninf);
    assert_eq!(product(ninf, ninf), inf);
    assert_eq!(product(0x7f80_0001, one), QUIET_NAN);
}

#[test]
fn classification_agrees_with_the_hardware() {
    let mut state: u64 = 0x2468_ace0_1357_9bdf;
    let mut patterns: Vec<u32> = SPECIAL.to_vec();
    for _ in 0..100_000 {
        patterns.push(next(&mut state));
        patterns.push(next(&mut state) | 0x7f80_0000);
    }
    for b in patterns {
        let x = f32::from_bits(b);
        assert_eq!(is_finite(b), x.is_finite());
        assert_eq!(is_nan(b), x.is_nan());
        assert_eq!(is_negative(b), x.is_sign_negative());
        if x.is_finite() {
            // value = significand * 2^(scale - 149)
            let v = significand_of(b) as f64 * 2.0f64.powi(scale_of(b) as i32 - 149);
            assert_eq!(v, x.abs() as f64);
        }
    }
}

#[test]
fn equality_of_numbers_agrees_with_the_hardware() {
    for a in SPECIAL {
        for b in SPECIAL {
            assert_eq!(numbers_equal(a, b), f32::from_bits(a) == f32::from_bits(b));
        }
    }
    let mut state: u64 = 0x0f1e_2d3c_4b5a_6978;
    for _ in 0..100_000 {
        let a = next(&mut state);
        let b = if next(&mut state) % 2 == 0 { a } else { a ^ (1 << (next(&mut state) % 32)) };
        assert_eq!(numbers_equal(a, b), f32::from_bits(a) == f32::from_bits(b));
    }
}

#[test]
fn integer_rounding_helpers() {
    assert_eq!(pow2_u64(0), 1);
    assert_eq!(pow2_u64(10), 1024);
    assert_eq!(pow2_u64(63), 1 << 63);
    assert_eq!(leading_bit(1), 0);
    assert_eq!(leading_bit(2), 1);
    assert_eq!(leading_bit(3), 1);
    assert_eq!(leading_bit(1 << 40), 40);
    assert_eq!(leading_bit(u64::MAX), 63);
    assert_eq!(round_shift(5, 3), 40);
    assert_eq!(round_shift(5, 0), 5);
    assert_eq!(round_shift(5, -1), 2); // 2.5 -> 2
    assert_eq!(round_shift(7, -1), 4); // 3.5 -> 4
    assert_eq!(round_shift(9, -2), 2); // 2.25 -> 2
    assert_eq!(round_shift(11, -2), 3); // 2.75 -> 3
    assert_eq!(round_shift(10, -2), 2); // 2.5 -> 2
    assert_eq!(round_shift(14, -2), 4); // 3.5 -> 4
    assert_eq!(round_shift(1, -70), 0);
    assert_eq!(round_shift((1 << 62) - 1, -63), 0);
    assert_eq!(round_shift((1 << 62) - 1, -62), 1);
}

#[test]
fn nearest_packs_exact_values() {
    assert_eq!(nearest(0, 500), 0);
    assert_eq!(nearest(1, 0), 1);
    assert_eq!(nearest(1, 149), 1.0f32.to_bits());
    assert_eq!(nearest(3, 148), 1.5f32.to_bits());
    assert_eq!(nearest(1 << 40, 109), 1.0f32.to_bits());
    assert_eq!(nearest(0xff_ffff, 253), f32::MAX.to_bits());
    assert_eq!(nearest(0x1ff_ffff, 252), INFINITY);
    assert_eq!(nearest(1, 277), INFINITY);
    assert_eq!(nearest(1, 100_000), INFINITY);
    assert_eq!(nearest(1, -1), 0);
    assert_eq!(nearest(3, -1), 2);
    assert_eq!(nearest(1, -100_000), 0);
}

#[test]
fn vectors_add_and_scale_like_the_hardware() {
    let mut state: u64 = 0x5555_aaaa_3333_cccc;
    for _ in 0..20_000 {
        let n = 1 + (next(&mut state) % 4) as usize;
        let mut xs = Vec::new();
        let mut ys = Vec::new();
        while xs.len() < n {
            let a = next(&mut state);
            let b = next(&mut state);
            if is_finite(a) && is_finite(b) {
                xs.push(a);
                ys.push(b);
            }
        }
        let k = next(&mut state);
        let a = Vector::try_new(xs.clone()).expect("must be valid");
        let b = Vector::try_new(ys.clone()).expect("must be valid");
        let sums: Vec<f32> =
            xs.iter().zip(ys.iter()).map(|(x, y)| f32::from_bits(*x) + f32::from_bits(*y)).collect();
        match a.try_add(&b) {
            Ok(v) => {
                let expected: Vec<u32> = sums.iter().map(|s| s.to_bits()).collect();
                assert_eq!(v.data(), expected.as_slice());
            }
            Err(e) => {
                assert_eq!(e, VectorError::OutOfBounds);
                assert!(sums.iter().any(|s| !s.is_finite()));
            }
        }
        let products: Vec<f32> =
            xs.iter().map(|x| f32::from_bits(*x) * f32::from_bits(k)).collect();
        match a.try_scale(k) {
            Ok(v) => {
                let expected: Vec<u32> = products.iter().map(|s| s.to_bits()).collect();
                assert_eq!(v.data(), expected.as_slice());
            }
            Err(e) => {
                assert_eq!(e, VectorError::OutOfBounds);
                assert!(products.iter().any(|s| !s.is_finite()));
            }
        }
    }
}
