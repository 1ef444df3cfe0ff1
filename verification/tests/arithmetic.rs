use goal_seek::binary64::Binary64;

fn b(x: f64) -> Binary64 {
    Binary64::from_bits(x.to_bits())
}

fn same(got: Binary64, want: f64) -> bool {
    if want.is_nan() {
        got.is_nan()
    } else {
        got.to_bits() == want.to_bits()
    }
}

fn next(state: &mut u64) -> u64 {
    *state = state
        .wrapping_mul(6364136223846793005)
        .wrapping_add(1442695040888963407);
    let mut z = *state;
    z ^= z >> 33;
    z = z.wrapping_mul(0xff51afd7ed558ccd);
    z ^= z >> 33;
    z
}

fn special_values() -> Vec<f64> {
    vec![
        0.0,
        -0.0,
        1.0,
        -1.0,
        2.0,
        0.5,
        3.0,
        100.0,
        1e-6,
        1e-8,
        1.05,
        450.0,
        320.0,
        3_000_000.0,
        0.1,
        0.2,
        0.3,
        1.0 / 3.0,
        f64::MAX,
        -f64::MAX,
        f64::MIN_POSITIVE,
        -f64::MIN_POSITIVE,
        f64::from_bits(1),
        f64::from_bits(2),
        f64::from_bits(3),
        -f64::from_bits(1),
        f64::from_bits(0x000f_ffff_ffff_ffff),
        f64::from_bits(0x0010_0000_0000_0001),
        f64::from_bits(0x7fef_ffff_ffff_fffe),
        f64::EPSILON,
        1.0 + f64::EPSILON,
        1.0 - f64::EPSILON / 2.0,
        9007199254740992.0,
        9007199254740993.0,
        9007199254740994.0,
        4503599627370496.5,
        1e308,
        1e-308,
        1e-320,
        1e200,
        1e-200,
        1.5e154,
        f64::INFINITY,
        f64::NEG_INFINITY,
        f64::NAN,
    ]
}

#[test]
fn add_agrees_with_hardware_on_special_values() {
    let v = special_values();
    for &x in &v {
        for &y in &v {
            assert!(same(b(x).add(b(y)), x + y), "{:e} + {:e}", x, y);
        }
    }
}

#[test]
fn sub_agrees_with_hardware_on_special_values() {
    let v = special_values();
    for &x in &v {
        for &y in &v {
            assert!(same(b(x).sub(b(y)), x - y), "{:e} - {:e}", x, y);
        }
    }
}

#[test]
fn mul_agrees_with_hardware_on_special_values() {
    let v = special_values();
    for &x in &v {
        for &y in &v {
            assert!(same(b(x).mul(b(y)), x * y), "{:e} * {:e}", x, y);
        }
    }
}

#[test]
fn div_agrees_with_hardware_on_special_values() {
    let v = special_values();
    for &x in &v {
        for &y in &v {
            assert!(same(b(x).div(b(y)), x / y), "{:e} / {:e}", x, y);
        }
    }
}

#[test]
fn arithmetic_agrees_with_hardware_on_random_encodings() {
    let mut state: u64 = 0x1234_5678_9abc_def0;
    for _ in 0..20000 {
        let x = f64::from_bits(next(&mut state));
        let y = f64::from_bits(next(&mut state));
        assert!(same(b(x).add(b(y)), x + y), "{:e} + {:e}", x, y);
        assert!(same(b(x).sub(b(y)), x - y), "{:e} - {:e}", x, y);
        assert!(same(b(x).mul(b(y)), x * y), "{:e} * {:e}", x, y);
        assert!(same(b(x).div(b(y)), x / y), "{:e} / {:e}", x, y);
    }
}

#[test]
fn arithmetic_agrees_with_hardware_on_nearby_magnitudes() {
    // Exponents close together, so that sums cancel and carry.
    let mut state: u64 = 0x0fed_cba9_8765_4321;
    for _ in 0..20000 {
        let r1 = next(&mut state);
        let r2 = next(&mut state);
        let r3 = next(&mut state);
        let e1 = 1000 + (r3 % 70);
        let e2 = 1000 + ((r3 >> 8) % 70);
        let s1 = (r3 >> 20) & 1;
        let s2 = (r3 >> 21) & 1;
        let x = f64::from_bits((s1 << 63) | (e1 << 52) | (r1 >> 12));
        let y = f64::from_bits((s2 << 63) | (e2 << 52) | (r2 >> 12));
        assert!(same(b(x).add(b(y)), x + y), "{:e} + {:e}", x, y);
        assert!(same(b(x).sub(b(y)), x - y), "{:e} - {:e}", x, y);
        assert!(same(b(x).mul(b(y)), x * y), "{:e} * {:e}", x, y);
        assert!(same(b(x).div(b(y)), x / y), "{:e} / {:e}", x, y);
    }
}

#[test]
fn arithmetic_agrees_with_hardware_near_the_smallest_numbers() {
    let mut state: u64 = 0x5555_aaaa_3333_cccc;
    for _ in 0..20000 {
        let r1 = next(&mut state);
        let r2 = next(&mut state);
        let r3 = next(&mut state);
        let e1 = r3 % 4;
        let e2 = 1020 + ((r3 >> 8) % 8);
        let x = f64::from_bits((e1 << 52) | (r1 >> 12));
        let y = f64::from_bits((e2 << 52) | (r2 >> 12));
        let z = f64::from_bits(((r3 >> 16) % 3) << 52 | (r2 >> 12));
        assert!(same(b(x).mul(b(y)), x * y), "{:e} * {:e}", x, y);
        assert!(same(b(x).div(b(y)), x / y), "{:e} / {:e}", x, y);
        assert!(same(b(x).add(b(z)), x + z), "{:e} + {:e}", x, z);
        assert!(same(b(x).sub(b(z)), x - z), "{:e} - {:e}", x, z);
        assert!(same(b(z).div(b(x)), z / x), "{:e} / {:e}", z, x);
    }
}

#[test]
fn comparisons_agree_with_hardware() {
    let v = special_values();
    for &x in &v {
        for &y in &v {
            assert_eq!(b(x).lt(b(y)), x < y, "{:e} < {:e}", x, y);
            assert_eq!(b(x).le(b(y)), x <= y, "{:e} <= {:e}", x, y);
            assert_eq!(b(x).gt(b(y)), x > y, "{:e} > {:e}", x, y);
            assert_eq!(b(x).ge(b(y)), x >= y, "{:e} >= {:e}", x, y);
            assert_eq!(b(x).same_number(b(y)), x == y, "{:e} == {:e}", x, y);
        }
    }
    let mut state: u64 = 77;
    for _ in 0..20000 {
        let x = f64::from_bits(next(&mut state));
        let y = f64::from_bits(next(&mut state));
        assert_eq!(b(x).lt(b(y)), x < y);
        assert_eq!(b(x).le(b(y)), x <= y);
        assert_eq!(b(x).same_number(b(y)), x == y);
    }
}

#[test]
fn classification_agrees_with_hardware() {
    for &x in &special_values() {
        assert_eq!(b(x).is_nan(), x.is_nan());
        assert_eq!(b(x).is_finite(), x.is_finite());
        assert_eq!(b(x).is_infinite(), x.is_infinite());
        assert_eq!(b(x).is_sign_negative(), x.is_sign_negative());
        assert!(same(b(x).abs(), x.abs()));
        assert!(same(b(x).neg(), -x));
    }
}

#[test]
fn from_i32_is_exact() {
    for &v in &[0, 1, -1, 2, 7, 10, 100, 450, -450, 65536, i32::MAX, i32::MIN, i32::MIN + 1] {
        assert_eq!(Binary64::from_i32(v).to_bits(), (v as f64).to_bits(), "{}", v);
    }
}

#[test]
fn named_constants_are_the_numbers_they_name() {
    assert_eq!(Binary64::zero().to_bits(), 0.0f64.to_bits());
    assert_eq!(Binary64::one().to_bits(), 1.0f64.to_bits());
    assert_eq!(Binary64::hundred().to_bits(), 100.0f64.to_bits());
}

#[test]
fn powi_agrees_with_hardware() {
    let bases = [1.05, 1.0, 2.0, 0.5, 1.1, 1.000001, 3.0, 0.0, -1.5, 1e10, 2.5, 1.0 + 7.0 / 100.0];
    for &x in &bases {
        for e in 0..60 {
            assert!(same(b(x).powi(e), x.powi(e)), "{:e}^{}", x, e);
        }
        for &e in &[100, 1000, 5000, -1, -2, -7, -100, i32::MAX, i32::MIN] {
            assert!(same(b(x).powi(e), x.powi(e)), "{:e}^{}", x, e);
        }
    }
    assert!(b(f64::NAN).powi(3).is_nan());
    assert!(same(b(f64::INFINITY).powi(2), f64::INFINITY));
}

#[test]
fn ties_go_to_the_even_significand() {
    // 2^53 + 1 lies halfway between 2^53 and 2^53 + 2.
    let big = 9007199254740992.0f64;
    assert_eq!(b(big).add(b(1.0)).to_bits(), big.to_bits());
    assert_eq!(b(big + 2.0).add(b(1.0)).to_bits(), (big + 4.0).to_bits());
    // Half of the smallest number rounds to zero, three halves to two units.
    let tiny = f64::from_bits(1);
    assert_eq!(b(tiny).mul(b(0.5)).to_bits(), 0);
    assert_eq!(b(f64::from_bits(3)).mul(b(0.5)).to_bits(), 2);
}

#[test]
fn overflow_gives_infinity_and_invalid_operations_give_nan() {
    assert_eq!(b(f64::MAX).add(b(f64::MAX)).to_bits(), f64::INFINITY.to_bits());
    assert_eq!(b(f64::MAX).mul(b(2.0)).to_bits(), f64::INFINITY.to_bits());
    assert_eq!(b(-f64::MAX).mul(b(2.0)).to_bits(), f64::NEG_INFINITY.to_bits());
    assert_eq!(b(1.0).div(b(0.0)).to_bits(), f64::INFINITY.to_bits());
    assert_eq!(b(1.0).div(b(-0.0)).to_bits(), f64::NEG_INFINITY.to_bits());
    assert!(b(0.0).div(b(0.0)).is_nan());
    assert!(b(f64::INFINITY).sub(b(f64::INFINITY)).is_nan());
    assert!(b(f64::INFINITY).mul(b(0.0)).is_nan());
    assert!(b(f64::INFINITY).div(b(f64::INFINITY)).is_nan());
}
