use llama_infer::ieee::{at_least_one, at_most_zero, gt, nan, to_fixed, unit_fraction, zero, INFINITY, ONE};

fn samples() -> Vec<f32> {
    vec![
        0.0,
        -0.0,
        1.0,
        -1.0,
        0.5,
        -0.5,
        1.0e-40,
        -1.0e-40,
        f32::MIN_POSITIVE,
        f32::MAX,
        f32::MIN,
        f32::INFINITY,
        f32::NEG_INFINITY,
        f32::NAN,
        3.25,
        -3.25,
        0.999_999_9,
        1.000_000_1,
        123456.79,
    ]
}

#[test]
fn patterns_of_one_and_infinity() {
    assert_eq!(ONE, 1.0f32.to_bits());
    assert_eq!(INFINITY, f32::INFINITY.to_bits());
}

#[test]
fn greater_agrees_with_the_hardware() {
    for a in samples() {
        for b in samples() {
            assert_eq!(gt(a.to_bits(), b.to_bits()), a > b, "{a} > {b}");
        }
    }
}

#[test]
fn the_two_zeros_are_equal() {
    assert!(!gt(0.0f32.to_bits(), (-0.0f32).to_bits()));
    assert!(!gt((-0.0f32).to_bits(), 0.0f32.to_bits()));
    assert!(zero(0.0f32.to_bits()));
    assert!(zero((-0.0f32).to_bits()));
    assert!(!zero(f32::MIN_POSITIVE.to_bits()));
    assert!(!zero(1.0e-45f32.to_bits()));
}

#[test]
fn nan_is_detected() {
    for a in samples() {
        assert_eq!(nan(a.to_bits()), a.is_nan());
    }
    assert!(nan(0x7F80_0001));
    assert!(nan(0xFFFF_FFFF));
    assert!(!nan(0x7F80_0000));
    assert!(!nan(0xFF80_0000));
}

#[test]
fn threshold_tests_agree_with_the_hardware() {
    for a in samples() {
        assert_eq!(at_most_zero(a.to_bits()), a <= 0.0, "{a} <= 0");
        assert_eq!(at_least_one(a.to_bits()), a >= 1.0, "{a} >= 1");
    }
}

fn reference_fixed(p: f32) -> u32 {
    if p.is_nan() || p.is_sign_negative() {
        return 0;
    }
    if p >= 1.0 {
        return u32::MAX;
    }
    // A single times two to the 32nd is exact in a double.
    (p as f64 * 4294967296.0).floor() as u32
}

#[test]
fn fixed_point_of_simple_fractions() {
    assert_eq!(to_fixed(0.5f32.to_bits()), 0x8000_0000);
    assert_eq!(to_fixed(0.25f32.to_bits()), 0x4000_0000);
    assert_eq!(to_fixed(0.75f32.to_bits()), 0xC000_0000);
    assert_eq!(to_fixed(0.0f32.to_bits()), 0);
    assert_eq!(to_fixed(0.1f32.to_bits()), 429_496_736);
    assert_eq!(to_fixed(0.6f32.to_bits()), 2_576_980_480);
    assert_eq!(to_fixed(0.9f32.to_bits()), 3_865_470_464);
    assert_eq!(to_fixed(1.0e-9f32.to_bits()), 4);
    assert_eq!(to_fixed(1.0e-12f32.to_bits()), 0);
}

#[test]
fn fixed_point_saturates() {
    assert_eq!(to_fixed(1.0f32.to_bits()), u32::MAX);
    assert_eq!(to_fixed(2.0f32.to_bits()), u32::MAX);
    assert_eq!(to_fixed(f32::INFINITY.to_bits()), u32::MAX);
    assert_eq!(to_fixed(0.999_999f32.to_bits()), 4_294_962_944);
}

#[test]
fn fixed_point_of_what_is_no_probability() {
    assert_eq!(to_fixed(f32::NAN.to_bits()), 0);
    assert_eq!(to_fixed((-0.5f32).to_bits()), 0);
    assert_eq!(to_fixed((-0.0f32).to_bits()), 0);
    assert_eq!(to_fixed(f32::NEG_INFINITY.to_bits()), 0);
}

#[test]
fn fixed_point_agrees_with_wide_arithmetic() {
    let mut p = 1.0f32;
    for _ in 0..200 {
        assert_eq!(to_fixed(p.to_bits()), reference_fixed(p), "{p}");
        p *= 0.83;
    }
    for a in samples() {
        assert_eq!(to_fixed(a.to_bits()), reference_fixed(a), "{a}");
    }
    // every exponent below one, with a full and an empty fraction
    for e in 0u32..127 {
        for f in [0u32, 1, 0x40_0000, 0x7F_FFFF] {
            let bits = (e << 23) | f;
            assert_eq!(to_fixed(bits), reference_fixed(f32::from_bits(bits)), "{bits:#x}");
        }
    }
}

#[test]
fn unit_fractions_are_exact() {
    assert_eq!(unit_fraction(0), 0.0f32.to_bits());
    assert_eq!(unit_fraction(1), (1.0f32 / 16777216.0).to_bits());
    assert_eq!(unit_fraction(0x80_0000), 0.5f32.to_bits());
    assert_eq!(unit_fraction(0xFF_FFFF), (16777215.0f32 / 16777216.0).to_bits());
    let mut n: u32 = 1;
    while n < 0x100_0000 {
        assert_eq!(unit_fraction(n), (n as f32 / 16777216.0).to_bits(), "{n}");
        assert_eq!(unit_fraction(n - 1), ((n - 1) as f32 / 16777216.0).to_bits());
        n = n * 3 + 1;
    }
}

#[test]
fn unit_fraction_and_fixed_point_agree() {
    for n in [0u32, 1, 2, 3, 255, 256, 0x12_3456, 0x80_0000, 0xFF_FFFF] {
        assert_eq!(to_fixed(unit_fraction(n)), n << 8);
    }
}
