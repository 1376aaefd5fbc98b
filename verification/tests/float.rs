use sentryusb_drives::float::{F32, F64};

fn f(x: f64) -> F64 {
    F64::from_bits(x.to_bits())
}

fn same(ours: F64, theirs: f64) -> bool {
    let x = f64::from_bits(ours.to_bits());
    (x.is_nan() && theirs.is_nan()) || x.to_bits() == theirs.to_bits()
}

/// Numbers of every size, and the special ones.
fn samples() -> Vec<f64> {
    let mut v = vec![
        0.0,
        -0.0,
        1.0,
        -1.0,
        0.1,
        0.5,
        1.5,
        2.5,
        3600.0,
        -122.4194,
        37.7749,
        1e-3,
        f64::MAX,
        f64::MIN,
        f64::MIN_POSITIVE,
        f64::EPSILON,
        5e-324,
        1e-310,
        4503599627370495.5,
        4503599627370497.0,
        9007199254740993.0,
        0.49999999999999994,
        f64::INFINITY,
        f64::NEG_INFINITY,
        f64::NAN,
        1e19,
        -1e19,
    ];
    let mut x: u64 = 0x9E37_79B9_7F4A_7C15;
    for _ in 0..60 {
        x ^= x << 13;
        x ^= x >> 7;
        x ^= x << 17;
        v.push(f64::from_bits(x));
        v.push((x >> 40) as f64 / 1000.0);
    }
    v
}

#[test]
fn sums_and_differences_match_the_hardware() {
    for &a in &samples() {
        for &b in &samples() {
            assert!(same(f(a).plus(f(b)), a + b), "{a:e} + {b:e}");
            assert!(same(f(a).minus(f(b)), a - b), "{a:e} - {b:e}");
        }
    }
}

#[test]
fn products_and_quotients_match_the_hardware() {
    for &a in &samples() {
        for &b in &samples() {
            assert!(same(f(a).times(f(b)), a * b), "{a:e} * {b:e}");
            assert!(same(f(a).over(f(b)), a / b), "{a:e} / {b:e}");
        }
    }
}

#[test]
fn comparisons_match_the_hardware() {
    for &a in &samples() {
        for &b in &samples() {
            assert_eq!(f(a).lt(f(b)), a < b);
            assert_eq!(f(a).le(f(b)), a <= b);
            assert_eq!(f(a).same(f(b)), a == b);
        }
    }
}

#[test]
fn rounding_and_truncation_match_the_hardware() {
    for &a in &samples() {
        assert!(same(f(a).round(), a.round()), "round {a:e}");
        assert!(same(f(a).ceil(), a.ceil()), "ceil {a:e}");
        assert!(same(f(a).abs(), a.abs()));
        assert!(same(f(a).neg(), -a));
        assert_eq!(f(a).to_i64(), a as i64, "{a:e}");
        assert_eq!(f(a).to_u64(), a as u64, "{a:e}");
        assert_eq!(f(a).to_u32(), a as u32, "{a:e}");
        assert_eq!(f(a).to_usize(), a as usize, "{a:e}");
        assert_eq!(f(a).nan(), a.is_nan());
        assert_eq!(f(a).finite(), a.is_finite());
    }
}

#[test]
fn integers_become_the_nearest_float() {
    for n in [0u64, 1, 2, 60_000, (1 << 53) - 1, (1 << 53) + 1, (1 << 54) + 6, u64::MAX] {
        assert!(same(F64::of_u64(n), n as f64), "{n}");
        assert!(same(F64::of_usize(n as usize), n as usize as f64), "{n}");
    }
    for n in [0i64, -1, 7, i64::MIN, i64::MAX, -((1 << 53) + 3)] {
        assert!(same(F64::of_i64(n), n as f64), "{n}");
    }
    assert!(same(F64::of_u32(u32::MAX), u32::MAX as f64));
}

#[test]
fn single_precision_matches_the_hardware() {
    for &a in &samples() {
        let ours = f(a).to_f32();
        let theirs = a as f32;
        let back = f32::from_bits(ours.to_bits());
        assert!((back.is_nan() && theirs.is_nan()) || back.to_bits() == theirs.to_bits(), "{a:e}");
        let s = F32::from_bits(theirs.to_bits());
        assert!(same(s.to_f64(), theirs as f64), "{theirs:e}");
        assert_eq!(s.finite(), theirs.is_finite());
        let zero = F32::from_bits(0);
        assert_eq!(zero.lt(s), 0.0 < theirs);
        assert_eq!(zero.same(s), 0.0 == theirs);
        assert_eq!(f32::from_bits(s.abs().to_bits()).to_bits(), theirs.abs().to_bits());
    }
}
