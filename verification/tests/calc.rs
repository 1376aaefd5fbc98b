use sentryusb_drives::calc::{
    is_null_island, m_to_mi, mps_to_mph, round1, round2, EARTH_RADIUS_M, MAX_FROM_MEDIAN_M,
    MAX_JUMP_M, MPS_TO_MPH, M_PER_MILE, PARK_MAJORITY_FRACTION, PARK_MAJORITY_FRACTION_FAST,
    WGS84_A, WGS84_F,
};
use sentryusb_drives::float::F64;

fn f(x: f64) -> F64 {
    F64::from_bits(x.to_bits())
}

fn g(x: F64) -> f64 {
    f64::from_bits(x.to_bits())
}

#[test]
fn constants_are_pinned() {
    assert_eq!(f64::from_bits(WGS84_A), 6_378_137.0);
    assert_eq!(f64::from_bits(WGS84_F), 1.0 / 298.257_223_563);
    assert_eq!(f64::from_bits(EARTH_RADIUS_M), 6_371_000.0);
    assert_eq!(f64::from_bits(M_PER_MILE), 1609.344);
    assert_eq!(f64::from_bits(MPS_TO_MPH), 2.236_94);
    assert_eq!(f64::from_bits(MAX_FROM_MEDIAN_M), 1_000_000.0);
    assert_eq!(f64::from_bits(MAX_JUMP_M), 5000.0);
    assert_eq!(f64::from_bits(PARK_MAJORITY_FRACTION), 0.5);
    assert_eq!(f64::from_bits(PARK_MAJORITY_FRACTION_FAST), 0.6);
}

#[test]
fn unit_conversions() {
    assert!((g(m_to_mi(f(1609.344))) - 1.0).abs() < 1e-12);
    assert!((g(mps_to_mph(f(10.0))) - 22.3694).abs() < 1e-9);
}

#[test]
fn null_island_detection() {
    assert!(is_null_island(f(0.0), f(0.0)));
    assert!(is_null_island(f(0.5), f(-0.5)));
    assert!(!is_null_island(f(37.0), f(-122.0)));
}

#[test]
fn rounding_matches_the_hardware() {
    for i in -2000..2000 {
        let v = (i as f64) * 0.01731 + 0.005;
        assert_eq!(g(round2(f(v))), (v * 100.0).round() / 100.0);
        assert_eq!(g(round1(f(v))), (v * 10.0).round() / 10.0);
    }
    assert_eq!(g(round2(f(1e300))), (1e300 * 100.0f64).round() / 100.0);
    assert!(g(round1(f(f64::NAN))).is_nan());
}

#[test]
fn test_round2() {
    assert_eq!(round2(f(1.23456)), f(1.23));
    assert_eq!(round2(f(0.005)), f(0.01));
}

#[test]
fn test_round1() {
    assert_eq!(round1(f(1.24)), f(1.2));
    // A half is exact here, so it goes away from zero.
    assert_eq!(round1(f(1.25)), f(1.3));
}
