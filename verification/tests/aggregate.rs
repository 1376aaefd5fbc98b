use sentryusb_drives::aggregate::compute_route_aggregates;
use sentryusb_drives::float::{F32, F64};
use sentryusb_drives::types::{
    GearRun, GpsPoint, Route, RouteAggregates, AUTOPILOT_FSD, AUTOPILOT_OFF, AUTOPILOT_TACC,
    GEAR_PARK,
};

fn f(x: f64) -> F64 {
    F64::from_bits(x.to_bits())
}

fn g(x: F64) -> f64 {
    f64::from_bits(x.to_bits())
}

fn f32s(v: &[f32]) -> Vec<F32> {
    v.iter().map(|x| F32::from_bits(x.to_bits())).collect()
}

fn pts(v: &[[f64; 2]]) -> Vec<GpsPoint> {
    v.iter().map(|p| GpsPoint { lat: f(p[0]), lng: f(p[1]) }).collect()
}

/// WGS-84 distance in metres.
fn geodesic(lat1: F64, lon1: F64, lat2: F64, lon2: F64) -> F64 {
    let (lat1, lon1, lat2, lon2) = (g(lat1), g(lon1), g(lat2), g(lon2));
    if lat1 == lat2 && lon1 == lon2 {
        return f(0.0);
    }
    let flat = 1.0 / 298.257_223_563;
    let rad = std::f64::consts::PI / 180.0;
    let b1 = ((1.0 - flat) * (lat1 * rad).tan()).atan();
    let b2 = ((1.0 - flat) * (lat2 * rad).tan()).atan();
    let (p, q) = ((b1 + b2) / 2.0, (b2 - b1) / 2.0);
    let s = ((lon2 - lon1) * rad / 2.0).sin();
    let h = q.sin() * q.sin() + b1.cos() * b2.cos() * s * s;
    let sigma = 2.0 * h.sqrt().atan2((1.0 - h).max(0.0).sqrt());
    if sigma == 0.0 {
        return f(0.0);
    }
    let x = (sigma - sigma.sin()) * p.sin().powi(2) * q.cos().powi(2) / (1.0 - h).max(1e-12);
    let y = (sigma + sigma.sin()) * p.cos().powi(2) * q.sin() * q.sin() / h.max(1e-12);
    f(6_378_137.0 * (sigma - (flat / 2.0) * (x + y)))
}

fn aggregates(r: &Route) -> RouteAggregates {
    compute_route_aggregates(r, geodesic)
}

fn route_with(points: &[[f64; 2]]) -> Route {
    Route {
        file: "test.mp4".to_string(),
        date: "2025-01-01".to_string(),
        points: pts(points),
        ..Default::default()
    }
}

#[test]
fn empty_route_is_empty_aggregate() {
    let agg = aggregates(&route_with(&[]));
    assert_eq!(agg.distance_m, f(0.0));
    assert_eq!(agg.valid_point_count, 0);
    assert!(agg.start_lat.is_none());
    assert!(agg.end_lat.is_none());
}

#[test]
fn null_island_points_excluded_from_start_end() {
    let points = [
        [0.0, 0.0],
        [37.7749, -122.4194],
        [37.7750, -122.4195],
        [0.0, 0.0],
    ];
    let agg = aggregates(&route_with(&points));
    assert_eq!(agg.start_lat, Some(f(37.7749)));
    assert_eq!(agg.end_lat, Some(f(37.7750)));
    assert_eq!(agg.valid_point_count, 2);
}

#[test]
fn distance_is_accumulated_across_valid_pairs() {
    let agg = aggregates(&route_with(&[[37.7749, -122.4194], [37.7750, -122.4194]]));
    assert!(g(agg.distance_m) > 10.0 && g(agg.distance_m) < 15.0);
}

fn disengaging_route(gears: Vec<u8>, gear_runs: Vec<GearRun>) -> Route {
    let mut points = Vec::with_capacity(61);
    let mut ap = Vec::with_capacity(61);
    for i in 0..61 {
        let lat = 37.7749 + (i as f64) * 0.00001;
        points.push([lat, -122.4194]);
        ap.push(if (1..20).contains(&i) { AUTOPILOT_FSD } else { AUTOPILOT_OFF });
    }
    Route {
        file: "test.mp4".to_string(),
        date: "2025-01-01".to_string(),
        points: pts(&points),
        gear_states: gears,
        autopilot_states: ap,
        raw_frame_count: 61,
        gear_runs,
        ..Default::default()
    }
}

#[test]
fn fsd_disengagement_counted_after_grace() {
    let r = disengaging_route(vec![4; 61], vec![GearRun { gear: 4, frames: 61 }]);
    let agg = aggregates(&r);
    assert_eq!(agg.fsd_disengagements, 1);
}

#[test]
fn fsd_disengagement_suppressed_by_park_grace() {
    let gears: Vec<u8> = (0..61).map(|i| if i >= 20 && i < 25 { GEAR_PARK } else { 4 }).collect();
    let mut r = disengaging_route(gears, vec![]);
    r.raw_park_count = 1;
    let agg = aggregates(&r);
    assert_eq!(agg.fsd_disengagements, 0);
}

/// 61 points, one second apart.
fn boundary_route(ap: Vec<u8>, gears: Vec<u8>, accel: Vec<f32>) -> Route {
    let n = 61;
    let mut points = Vec::with_capacity(n);
    for i in 0..n {
        points.push([37.7749 + (i as f64) * 0.00001, -122.4194]);
    }
    let fit_u8 = |mut v: Vec<u8>, fill: u8| {
        v.resize(n, fill);
        v
    };
    let mut accel = accel;
    if !accel.is_empty() {
        accel.resize(n, 0.0);
    }
    Route {
        file: "test.mp4".to_string(),
        date: "2025-01-01".to_string(),
        points: pts(&points),
        gear_states: if gears.is_empty() { vec![] } else { fit_u8(gears, 4) },
        autopilot_states: if ap.is_empty() { vec![] } else { fit_u8(ap, AUTOPILOT_OFF) },
        accel_positions: f32s(&accel),
        raw_frame_count: 61,
        ..Default::default()
    }
}

#[test]
fn disengage_near_clip_end_exports_pending_instead_of_counting() {
    let ap: Vec<u8> = (0..61).map(|i| if i < 59 { AUTOPILOT_FSD } else { AUTOPILOT_OFF }).collect();
    let agg = aggregates(&boundary_route(ap, vec![4; 61], vec![]));
    assert_eq!(agg.fsd_disengagements, 0, "pending must not count at clip end");
    let pend = g(agg.fsd_pend_ms_end.expect("pending state must export"));
    assert!((pend - 1000.0).abs() < 1.0, "elapsed should be ~1000ms, got {pend}");
    assert!(!agg.fsd_at_end, "clip ends disengaged");
}

#[test]
fn park_ms_start_and_fsd_at_end_export() {
    let mut gears = vec![4u8; 61];
    gears[0] = GEAR_PARK;
    gears[1] = GEAR_PARK;
    let mut ap = vec![AUTOPILOT_OFF; 61];
    ap[59] = AUTOPILOT_FSD;
    ap[60] = AUTOPILOT_FSD;
    let agg = aggregates(&boundary_route(ap, gears, vec![]));
    assert_eq!(agg.park_ms_start, Some(f(0.0)));
    assert!(agg.fsd_at_end);
    let mut gears_late = vec![4u8; 61];
    gears_late[30] = GEAR_PARK;
    let agg2 = aggregates(&boundary_route(vec![AUTOPILOT_OFF; 61], gears_late, vec![]));
    assert_eq!(agg2.park_ms_start, None);
}

#[test]
fn accel_push_counts_when_fsd_engaged_at_clip_start() {
    let mut accel = vec![0.0f32; 61];
    for i in 30..33 {
        accel[i] = 30.0;
    }
    let agg = aggregates(&boundary_route(vec![AUTOPILOT_FSD; 61], vec![4; 61], accel));
    assert_eq!(agg.fsd_accel_pushes, 1);
    assert_eq!(agg.fsd_accel_pushes_early, 0);
}

#[test]
fn early_accel_push_lands_in_early_counter() {
    let mut accel = vec![0.0f32; 61];
    accel[1] = 30.0;
    accel[2] = 30.0;
    let agg = aggregates(&boundary_route(vec![AUTOPILOT_FSD; 61], vec![4; 61], accel));
    assert_eq!(agg.fsd_accel_pushes, 0);
    assert_eq!(agg.fsd_accel_pushes_early, 1);
}

#[test]
fn every_disengagement_is_counted_or_left_pending() {
    // Ends at 10 s (driven on), at 30 s (parked within a second) and at 60 s.
    let ap: Vec<u8> = (0..61)
        .map(|i: i32| if i < 10 || (20..30).contains(&i) || (40..60).contains(&i) { AUTOPILOT_FSD } else { 0 })
        .collect();
    let mut gears = vec![4u8; 61];
    gears[31] = GEAR_PARK;
    let agg = aggregates(&boundary_route(ap, gears, vec![]));
    assert_eq!(agg.fsd_disengagements, 1);
    assert_eq!(agg.fsd_pend_ms_end, Some(f(0.0)));
}

#[test]
fn a_clip_says_in_which_mode_it_starts() {
    let mut ap = vec![AUTOPILOT_OFF; 61];
    ap[0] = AUTOPILOT_TACC;
    let agg = aggregates(&boundary_route(ap, vec![], vec![]));
    assert_eq!(agg.ap_at_start, Some(3));
    let none = aggregates(&boundary_route(vec![], vec![], vec![]));
    assert_eq!(none.ap_at_start, None);
    assert!(!none.fsd_at_end);
}

#[test]
fn recorded_speeds_take_the_place_of_measured_ones() {
    let mut r = route_with(&[[37.0, -122.0], [37.001, -122.0], [37.002, -122.0]]);
    r.speeds = f32s(&[5.0, 20.0, 10.0]);
    let agg = aggregates(&r);
    assert_eq!(agg.max_speed_mps, f(20.0));
    assert_eq!(agg.avg_speed_mps, f(15.0));
    assert_eq!(agg.speed_sample_count, 2);
    // Out of range, thus not counted.
    r.speeds = f32s(&[5.0, 150.0, -1.0]);
    let odd = aggregates(&r);
    assert_eq!(odd.speed_sample_count, 0);
    assert_eq!(odd.avg_speed_mps, f(0.0));
}

#[test]
fn leaps_are_left_out_where_no_speed_was_recorded() {
    let unit = |a: F64, _b: F64, c: F64, _d: F64| f((g(c) - g(a)) * 1000.0);
    let mut r = route_with(&[[37.0, -122.0], [38.0, -122.0], [50.0, -122.0]]);
    // 30 s per hop: 1000 m is 33 m/s, 12000 m is 400 m/s.
    let agg = compute_route_aggregates(&r, unit);
    assert_eq!(agg.distance_m, f(1000.0));
    assert_eq!(agg.speed_sample_count, 1);
    assert_eq!(agg.max_speed_mps, f(1000.0 / 30.0));
    r.speeds = f32s(&[1.0, 2.0, 3.0]);
    let with_speeds = compute_route_aggregates(&r, unit);
    assert_eq!(with_speeds.distance_m, f(13000.0));
}

#[test]
fn time_and_metres_go_to_the_mode_of_the_later_point() {
    let unit = |_a: F64, _b: F64, _c: F64, _d: F64| f(10.0);
    let r = boundary_route(
        (0..61).map(|i| if i < 31 { AUTOPILOT_FSD } else { AUTOPILOT_TACC }).collect(),
        vec![],
        vec![],
    );
    let agg = compute_route_aggregates(&r, unit);
    assert_eq!(agg.distance_m, f(600.0));
    assert_eq!(agg.fsd_engaged_ms, 30_000);
    assert_eq!(agg.fsd_distance_m, f(300.0));
    assert_eq!(agg.tacc_engaged_ms, 30_000);
    assert_eq!(agg.tacc_distance_m, f(300.0));
    assert_eq!(agg.autosteer_engaged_ms, 0);
    assert_eq!(agg.assisted_distance_m, f(600.0));
}
