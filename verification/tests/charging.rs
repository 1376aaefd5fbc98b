use sentryusb_drives::charging::{
    avg, display_current_a, downsample_points, group_sessions, integrate_power_kwh,
    is_actively_charging, is_charging, keep_charging, phase_is_active, sample_power_kw,
    session_coord, session_points, summarize, ChargePoint, ChargeRow, SESSION_GAP_SECS,
};
use sentryusb_drives::float::F64;

fn f(x: f64) -> F64 {
    F64::from_bits(x.to_bits())
}

fn g(x: F64) -> f64 {
    f64::from_bits(x.to_bits())
}

fn row(ts: i64, power: Option<i64>, rate: Option<f64>, energy: Option<f64>) -> ChargeRow {
    ChargeRow {
        ts,
        power_kw: power,
        current_a: None,
        voltage_v: None,
        rate_mph: rate.map(f),
        energy_added_kwh: energy.map(f),
        limit_soc: None,
        range_mi: None,
        battery_pct: None,
        location: None,
        lat: None,
        lon: None,
        charging_state: None,
    }
}

fn point(ts: i64, power_kw: Option<i64>) -> ChargePoint {
    ChargePoint {
        ts,
        power_kw,
        current_a: None,
        voltage_v: None,
        rate_mph: None,
        soc: None,
        range_mi: None,
        energy_added_kwh: None,
    }
}

#[test]
fn downsample_keeps_endpoints_and_bounds() {
    let pts = (0..1000).map(|i| point(i, Some(i))).collect::<Vec<_>>();
    let out = downsample_points(pts, 200);
    assert!(out.len() <= 200);
    assert_eq!(out.first().unwrap().ts, 0);
    assert_eq!(out.last().unwrap().ts, 999);
    assert!(out.windows(2).all(|w| w[0].ts < w[1].ts));
}

#[test]
fn downsample_noop_when_small() {
    let pts = (0..50).map(|i| point(i, None)).collect::<Vec<_>>();
    assert_eq!(downsample_points(pts, 200).len(), 50);
}

#[test]
fn gap_splits_into_two_sessions() {
    let rows = vec![
        row(0, Some(5), None, Some(1.0)),
        row(60, Some(5), None, Some(1.5)),
        row(60 + SESSION_GAP_SECS + 1, Some(5), None, Some(0.2)),
    ];
    let sessions = group_sessions(rows);
    assert_eq!(sessions.len(), 2);
    assert_eq!(sessions[0].len(), 2);
    assert_eq!(sessions[1].len(), 1);
}

#[test]
fn a_pause_of_the_limit_itself_does_not_split() {
    let rows = vec![row(0, Some(5), None, None), row(SESSION_GAP_SECS, Some(5), None, None)];
    let sessions = group_sessions(rows);
    assert_eq!(sessions.len(), 1);
    assert_eq!(sessions[0].iter().map(|r| r.ts).collect::<Vec<_>>(), vec![0, 1800]);
    assert!(group_sessions(vec![]).is_empty());
}

#[test]
fn thinning_picks_evenly_spaced_points() {
    let pts = (0..10).map(|i| point(i, None)).collect::<Vec<_>>();
    let out = downsample_points(pts.clone(), 4);
    assert_eq!(out.iter().map(|p| p.ts).collect::<Vec<_>>(), vec![0, 3, 6, 9]);
    assert_eq!(downsample_points(pts, 1).len(), 10);
}

#[test]
fn volts_times_amps_refine_the_power() {
    let mut r = row(0, Some(1), None, None);
    r.voltage_v = Some(121);
    r.current_a = Some(12);
    assert_eq!(sample_power_kw(&r), Some(f(121.0 * 12.0 / 1000.0)));
    // One phase of three: too far from the whole kilowatts.
    r.power_kw = Some(11);
    r.voltage_v = Some(230);
    r.current_a = Some(16);
    assert_eq!(sample_power_kw(&r), Some(f(11.0)));
    r.power_kw = None;
    assert_eq!(sample_power_kw(&r), None);
}

#[test]
fn amps_are_derived_where_the_car_reports_none() {
    assert_eq!(display_current_a(Some(100), Some(400), Some(0)), Some(250));
    assert_eq!(display_current_a(Some(100), Some(400), None), Some(250));
    assert_eq!(display_current_a(Some(100), Some(400), Some(32)), Some(32));
    assert_eq!(display_current_a(Some(0), Some(400), Some(0)), Some(0));
    assert_eq!(display_current_a(None, Some(400), None), None);
}

#[test]
fn energy_is_the_area_under_the_power() {
    let rows = vec![
        row(0, Some(10), None, None),
        row(1800, Some(20), None, None),
        row(3600, Some(20), None, None),
    ];
    assert_eq!(integrate_power_kwh(&rows), Some(f(17.5)));
    assert_eq!(integrate_power_kwh(&rows[..1]), None);
    let idle = vec![row(0, Some(0), None, None), row(1800, Some(0), None, None)];
    assert_eq!(integrate_power_kwh(&idle), None);
}

#[test]
fn means() {
    assert_eq!(avg(&[]), None);
    assert_eq!(avg(&[f(1.0), f(2.0), f(6.0)]), Some(f(3.0)));
}

#[test]
fn the_recorded_phase_decides() {
    assert_eq!(phase_is_active(None), None);
    for p in ["charging", "starting", "calibrating"] {
        assert_eq!(phase_is_active(Some(p)), Some(true));
    }
    assert_eq!(phase_is_active(Some("complete")), Some(false));
    assert!(!is_actively_charging(Some("complete"), Some(7), Some(f(20.0))));
    assert!(is_actively_charging(None, Some(7), None));
    assert!(is_charging(Some(0), Some(f(3.0))));
    assert!(!is_charging(Some(7), Some(f(0.0))));
    assert!(!is_charging(None, None));
}

#[test]
fn idle_samples_belong_to_no_session() {
    let mut done = row(20, Some(7), None, None);
    done.charging_state = Some("complete".to_string());
    let mut starting = row(30, None, None, None);
    starting.charging_state = Some("starting".to_string());
    let rows = vec![row(0, Some(7), None, None), row(10, Some(0), None, None), done, starting];
    let kept = keep_charging(rows);
    assert_eq!(kept.iter().map(|r| r.ts).collect::<Vec<_>>(), vec![0, 30]);
}

#[test]
fn the_most_frequent_fix_marks_the_session() {
    let at = |ts: i64, lat: f64, lon: f64| {
        let mut r = row(ts, Some(7), None, None);
        r.lat = Some(f(lat));
        r.lon = Some(f(lon));
        r
    };
    let rows = vec![at(0, 1.0, 2.0), at(1, 3.0, 4.0), at(2, 3.0, 4.0), row(3, None, None, None)];
    assert_eq!(session_coord(&rows), (Some(f(3.0)), Some(f(4.0))));
    // Of two as frequent, the one seen later.
    let tied = vec![at(0, 1.0, 2.0), at(1, 3.0, 4.0)];
    assert_eq!(session_coord(&tied), (Some(f(3.0)), Some(f(4.0))));
    assert_eq!(session_coord(&[row(0, None, None, None)]), (None, None));
}

#[test]
fn a_session_in_numbers() {
    let mut a = row(1000, Some(40), None, Some(1.0));
    a.battery_pct = Some(f(20.0));
    a.range_mi = Some(f(60.0));
    a.limit_soc = Some(80);
    let mut b = row(2800, Some(50), None, Some(19.0));
    b.location = Some("Home".to_string());
    b.battery_pct = Some(f(60.0));
    b.range_mi = Some(f(180.0));
    b.limit_soc = Some(90);
    let s = summarize(&[a, b]);
    assert_eq!((s.id, s.start_ms, s.end_ms, s.duration_secs), (1000, 1_000_000, 2_800_000, 1800));
    assert_eq!(s.location.as_deref(), Some("Home"));
    assert_eq!(s.energy_added_kwh, Some(f(18.0)));
    assert_eq!(s.energy_used_kwh, Some(f(22.5)));
    assert_eq!(s.efficiency_pct, Some(f(80.0)));
    assert_eq!(s.peak_power_kw, Some(50));
    assert!(s.fast_charging);
    assert_eq!((s.start_soc, s.end_soc), (Some(f(20.0)), Some(f(60.0))));
    assert_eq!((s.start_range_mi, s.end_range_mi), (Some(f(60.0)), Some(f(180.0))));
    assert_eq!(s.charge_limit_soc, Some(90));
    assert!(s.tags.is_empty() && s.cost.is_none() && s.rate.is_none() && s.currency.is_empty());
    assert!(!s.cost_overridden);
}

#[test]
fn a_counter_that_was_reset_adds_nothing() {
    let s = summarize(&[row(0, Some(7), None, Some(9.0)), row(60, Some(7), None, Some(1.0))]);
    assert_eq!(s.energy_added_kwh, Some(f(0.0)));
    assert!(!s.fast_charging);
    let open = summarize(&[row(0, Some(7), None, None), row(60, Some(7), None, Some(1.0))]);
    assert_eq!(open.energy_added_kwh, Some(f(1.0)));
    // More added than drawn: full efficiency, no more.
    assert_eq!(g(open.efficiency_pct.unwrap()), 100.0);
}

#[test]
fn chart_points_carry_milliseconds_and_derived_amps() {
    let mut r = row(5, Some(100), Some(400.0), Some(2.0));
    r.voltage_v = Some(400);
    r.current_a = Some(0);
    r.battery_pct = Some(f(50.0));
    let pts = session_points(&[r]);
    assert_eq!(pts.len(), 1);
    assert_eq!(pts[0].ts, 5000);
    assert_eq!(pts[0].current_a, Some(250));
    assert_eq!(pts[0].soc, Some(f(50.0)));
    assert_eq!(pts[0].energy_added_kwh, Some(f(2.0)));
}
