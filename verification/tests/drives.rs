use sentryusb_drives::analytics::{build_fsd_analytics, fsd_analytics_from_drives};
use sentryusb_drives::candidates::summon_check_candidates;
use sentryusb_drives::clock::{
    format_date, format_stamp, move_by, parse_iso_moment, parse_iso_seconds, span_ms, to_epoch_ms,
    DAY_STEPS,
};
use sentryusb_drives::drive::build_single_drive_from_clips;
use sentryusb_drives::float::{F32, F64};
use sentryusb_drives::grouper::group_clips;
use sentryusb_drives::list::{
    build_summary_for_idx, drive_key_file_map, find_drive_files, find_drive_start_time,
    group_summaries_fast,
};
use sentryusb_drives::overlap::hide_tessie_overlapping_sei;
use sentryusb_drives::overview::route_overviews;
use sentryusb_drives::subclips::group_summary_clips;
use sentryusb_drives::summary::compute_autopilot_percents;
use sentryusb_drives::timeline::{split_at_pauses, Timed};
use sentryusb_drives::totals::compute_drive_caches;
use sentryusb_drives::track::{clean_track, downsample, drop_null_island};
use sentryusb_drives::types::{
    DriveSummary, GearRun, GpsPoint, Route, RouteAggregates, RouteSummary, TagEntry, GEAR_PARK,
};

fn f(x: f64) -> F64 {
    F64::from_bits(x.to_bits())
}

fn g(x: F64) -> f64 {
    f64::from_bits(x.to_bits())
}

fn f32s(v: &[f32]) -> Vec<F32> {
    v.iter().map(|x| F32::from_bits(x.to_bits())).collect()
}

fn p(lat: f64, lng: f64) -> GpsPoint {
    GpsPoint { lat: f(lat), lng: f(lng) }
}

/// Flat metres: a degree is 100 km either way.
fn flat(lat1: F64, lon1: F64, lat2: F64, lon2: F64) -> F64 {
    f(((g(lat2) - g(lat1)).powi(2) + (g(lon2) - g(lon1)).powi(2)).sqrt() * 100_000.0)
}

fn summary(file: &str, distance_m: f64) -> RouteSummary {
    RouteSummary {
        file: file.to_string(),
        date: "2026-07-15".to_string(),
        raw_frame_count: 60,
        gear_runs: vec![GearRun { gear: 1, frames: 60 }],
        aggregates: RouteAggregates { distance_m: f(distance_m), ..Default::default() },
        ..Default::default()
    }
}

fn list(summaries: &[RouteSummary]) -> Vec<DriveSummary> {
    group_summaries_fast(summaries, &[], flat)
}

fn two_drives() -> Vec<RouteSummary> {
    vec![
        summary("d/2026-07-15_10-00-00-front.mp4", 1000.0),
        summary("d/2026-07-15_10-01-00-front.mp4", 500.0),
        summary("d/2026-07-15_12-00-00-front.mp4", 200.0),
    ]
}

#[test]
fn a_list_of_drives() {
    let drives = list(&two_drives());
    assert_eq!(drives.len(), 2);
    assert_eq!(drives[0].id, 0);
    assert_eq!(drives[0].start_time, "2026-07-15T10:00:00");
    assert_eq!(drives[0].end_time, "2026-07-15T10:02:00");
    assert_eq!(drives[0].duration_ms, 120_000);
    assert_eq!(g(drives[0].distance_km), 1.5);
    assert_eq!(g(drives[0].distance_mi), 0.93);
    assert_eq!(drives[0].clip_count, 2);
    assert_eq!(drives[1].id, 1);
    assert_eq!(g(drives[1].distance_km), 0.2);
}

#[test]
fn every_name_of_a_drive_leads_to_its_files() {
    let s = two_drives();
    let first = vec![s[0].file.clone(), s[1].file.clone()];
    assert_eq!(find_drive_files(&s, "0"), Some((0, first.clone())));
    assert_eq!(find_drive_files(&s, "2026-07-15T10:00:00"), Some((0, first.clone())));
    assert_eq!(find_drive_files(&s, "1"), Some((1, vec![s[2].file.clone()])));
    assert_eq!(find_drive_files(&s, "2"), None);
    assert_eq!(find_drive_files(&s, "nonsense"), None);
    assert_eq!(find_drive_start_time(&s, "1").as_deref(), Some("2026-07-15T12:00:00"));
    let map = drive_key_file_map(&s);
    assert_eq!(map.len(), 2);
    assert_eq!(map[0], ("2026-07-15T10:00:00".to_string(), first));
}

#[test]
fn one_row_of_the_list() {
    let s = two_drives();
    let tags =
        vec![TagEntry { key: "2026-07-15T12:00:00".to_string(), tags: vec!["Work".to_string()] }];
    let row = build_summary_for_idx(&s, 1, &tags, flat).unwrap();
    assert_eq!(row.start_time, "2026-07-15T12:00:00");
    assert_eq!(row.tags, vec!["Work".to_string()]);
    assert!(build_summary_for_idx(&s, 2, &tags, flat).is_none());
    // The row of the list is the same, field by field.
    let all = group_summaries_fast(&s, &tags, flat);
    for i in 0..2 {
        let single = build_summary_for_idx(&s, i, &tags, flat).unwrap();
        assert_eq!(single.id, i as i32);
        assert_eq!(format!("{:?}", single), format!("{:?}", all[i]));
    }
}

#[test]
fn signatures_part_drives() {
    let mut s = vec![
        summary("d/2026-07-15_10-00-00-front.mp4", 1000.0),
        summary("d/2026-07-15_10-01-00-front.mp4", 500.0),
    ];
    s[0].external_signature = Some("a".to_string());
    s[1].external_signature = Some("b".to_string());
    let groups = group_summary_clips(&s);
    assert_eq!(groups.len(), 2);
    assert!(groups.iter().all(|c| c.len() == 1));
}

#[test]
fn pauses_cut_the_time_line() {
    let line: Vec<Timed> = [0i64, 60_000, 360_001, 420_000]
        .iter()
        .enumerate()
        .map(|(i, &ms)| Timed { index: i, ts: move_by(0, ms) })
        .collect();
    let parts = split_at_pauses(&line);
    assert_eq!(parts.iter().map(|q| q.len()).collect::<Vec<_>>(), vec![2, 2]);
    let all: Vec<usize> = parts.iter().flatten().map(|t| t.index).collect();
    assert_eq!(all, vec![0, 1, 2, 3]);
}

fn sei(start: &str, end: &str, source: Option<&str>) -> DriveSummary {
    let mut d = list(&[summary("d/2026-07-15_10-00-00-front.mp4", 1000.0)]).remove(0);
    d.start_time = start.to_string();
    d.end_time = end.to_string();
    d.source = source.map(|s| s.to_string());
    d
}

#[test]
fn imported_drives_give_way_to_recorded_ones() {
    let rows = vec![
        sei("2026-07-15T10:00:00", "2026-07-15T10:10:00", None),
        sei("2026-07-15T10:05:00", "2026-07-15T10:20:00", Some("tessie")),
        sei("2026-07-15T10:10:00", "2026-07-15T10:20:00", Some("tessie")),
        sei("2026-07-15T10:05:00", "2026-07-15T10:20:00", Some("teslascope")),
        sei("garbled", "2026-07-15T10:20:00", Some("tessie")),
    ];
    let shown = hide_tessie_overlapping_sei(rows);
    // Only the car's own recording hides a Tessie drive.
    assert_eq!(shown.len(), 4);
    assert_eq!(shown[0].source, None);
    assert_eq!(shown[1].start_time, "2026-07-15T10:10:00");
    assert_eq!(shown[1].source.as_deref(), Some("tessie"));
    assert_eq!(shown[2].source.as_deref(), Some("teslascope"));
    assert_eq!(shown[3].start_time, "garbled");
    let again = hide_tessie_overlapping_sei(shown.clone());
    assert_eq!(again.len(), shown.len());
}

#[test]
fn imports_do_not_hide_each_other() {
    let rows = vec![
        sei("2025-01-01T10:00:00", "2025-01-01T11:00:00", Some("teslascope")),
        sei("2025-01-01T10:15:00", "2025-01-01T10:45:00", Some("tessie")),
    ];
    assert_eq!(hide_tessie_overlapping_sei(rows.clone()).len(), 2);
    let mut recorded = rows;
    recorded[0].source = Some("sei".to_string());
    assert_eq!(hide_tessie_overlapping_sei(recorded).len(), 1);
}

#[test]
fn drives_that_only_touch_stay() {
    let rows = vec![
        sei("2026-07-15T10:00:00", "2026-07-15T10:10:00", None),
        sei("2026-07-15T10:10:00", "2026-07-15T10:20:00", Some("tessie")),
    ];
    assert_eq!(hide_tessie_overlapping_sei(rows).len(), 2);
}

fn fsd_day(date: &str, km: f64, fsd_km: f64, ms: i64) -> DriveSummary {
    let mut d = sei(&format!("{date}T08:00:00"), &format!("{date}T08:30:00"), None);
    d.distance_km = f(km);
    d.fsd_distance_km = f(fsd_km);
    d.fsd_engaged_ms = ms;
    d.duration_ms = 1_800_000;
    d
}

fn day(date: &str) -> i64 {
    parse_iso_moment(&format!("{date}T00:00:00")).unwrap() / DAY_STEPS
}

#[test]
fn the_score_of_a_week() {
    let drives = vec![
        fsd_day("2026-07-01", 10.0, 10.0, 600_000),
        fsd_day("2026-07-13", 10.0, 5.0, 600_000),
        fsd_day("2026-07-14", 10.0, 9.0, 600_000),
        fsd_day("2026-07-15", 10.0, 7.0, 3_000_000),
    ];
    let a = build_fsd_analytics(&drives, "week", day("2026-07-15"));
    assert_eq!(a.period, "week");
    assert_eq!(a.period_start, "2026-07-08");
    assert_eq!(a.total_drives, 3);
    assert_eq!(a.fsd_sessions, 3);
    assert_eq!(g(a.fsd_percent), 70.0);
    assert_eq!(a.fsd_grade, "Good");
    assert_eq!(g(a.today_percent), 70.0);
    assert_eq!(a.best_day, "2026-07-14");
    assert_eq!(g(a.best_day_percent), 90.0);
    assert_eq!(a.streak_days, 3);
    assert_eq!(a.fsd_time_formatted, "1h 10m");
    assert_eq!(a.daily.iter().map(|d| d.day_name.as_str()).collect::<Vec<_>>(), ["Mon", "Tue", "Wed"]);
    assert_eq!(g(a.total_distance_km), 30.0);

    let today = build_fsd_analytics(&drives, "day", day("2026-07-15"));
    assert_eq!((today.total_drives, today.period_start.as_str()), (1, "2026-07-15"));
    assert_eq!(today.fsd_time_formatted, "50m");
    let cached = fsd_analytics_from_drives(&drives, day("2026-07-15"));
    assert_eq!((cached.period.as_str(), cached.total_drives), ("week", 3));
    let all = build_fsd_analytics(&drives, "all", day("2026-07-15"));
    assert_eq!(all.total_drives, 4);
    assert_eq!(all.period_start, "");
    assert_eq!(all.best_day, "2026-07-01");
}

#[test]
fn a_day_without_driving_ends_the_streak() {
    let drives = vec![fsd_day("2026-07-13", 10.0, 5.0, 1), fsd_day("2026-07-15", 10.0, 0.0, 0)];
    let a = build_fsd_analytics(&drives, "all", day("2026-07-15"));
    assert_eq!(a.streak_days, 0);
    assert_eq!(a.fsd_grade, "Bad");
    let none = build_fsd_analytics(&[], "all", day("2026-07-15"));
    assert_eq!(g(none.fsd_percent), 0.0);
    assert_eq!(g(none.avg_accel_pushes_per_drive), 0.0);
    assert_eq!(none.fsd_time_formatted, "0m");
}

#[test]
fn imported_and_summoned_drives_do_not_count() {
    let own = fsd_day("2026-07-15", 10.0, 9.0, 600_000);
    let mut imported = fsd_day("2026-07-15", 90.0, 0.0, 0);
    imported.source = Some("tessie".to_string());
    let mut summoned = fsd_day("2026-07-15", 90.0, 0.0, 0);
    summoned.summon = true;
    let mut recorded = fsd_day("2026-07-15", 10.0, 9.0, 600_000);
    recorded.source = Some("sei".to_string());
    let a = build_fsd_analytics(&[own, imported, summoned, recorded], "all", day("2026-07-15"));
    assert_eq!(a.total_drives, 2);
    assert_eq!(g(a.fsd_percent), 90.0);
    assert_eq!(a.fsd_grade, "Great");
}

#[test]
fn totals_over_all_drives() {
    let mut s = two_drives();
    s[2].source = Some("tessie".to_string());
    let c = compute_drive_caches(&s, &[], day("2026-07-15"), flat);
    assert_eq!(c.drives_total, 2);
    assert_eq!(c.visible.len(), 2);
    assert_eq!(c.totals.drives_count, 2);
    assert_eq!(c.totals.routes_count, 3);
    assert_eq!(g(c.totals.total_distance_km), 1.7);
    assert_eq!(c.fsd.total_drives, 1);
}

#[test]
fn shares_of_a_drive() {
    let (a, b, c, d) =
        compute_autopilot_percents(f(1000.0), f(250.0), f(100.0), f(50.0), f(400.0));
    assert_eq!((g(a), g(b), g(c), g(d)), (25.0, 10.0, 5.0, 40.0));
    let none = compute_autopilot_percents(f(0.0), f(0.0), f(0.0), f(0.0), f(0.0));
    assert_eq!(g(none.3), 0.0);
}

fn route(file: &str, points: Vec<GpsPoint>) -> Route {
    let n = points.len();
    Route {
        file: file.to_string(),
        date: "2026-07-15".to_string(),
        points,
        gear_states: vec![1; n],
        autopilot_states: vec![0; n],
        speeds: f32s(&vec![10.0; n]),
        accel_positions: f32s(&vec![0.0; n]),
        raw_frame_count: 60,
        gear_runs: vec![GearRun { gear: 1, frames: 60 }],
        ..Default::default()
    }
}

fn north(n: usize) -> Vec<GpsPoint> {
    (0..n).map(|i| p(37.0 + i as f64 * 0.001, -122.0)).collect()
}

#[test]
fn a_drive_in_full() {
    let mut r = route("d/2026-07-15_10-00-00-front.mp4", north(61));
    // Self-driving for half a minute, then by hand.
    for i in 0..31 {
        r.autopilot_states[i] = 1;
    }
    // A push at ten seconds.
    r.accel_positions = f32s(&(0..61).map(|i| if i == 10 { 0.4 } else { 0.0 }).collect::<Vec<f32>>());
    let tags = vec![TagEntry { key: "2026-07-15T10:00:00".to_string(), tags: vec!["x".to_string()] }];
    let d = build_single_drive_from_clips(&[r], 7, &tags, None, flat).unwrap();
    assert_eq!(d.id, 7);
    assert_eq!(d.start_time, "2026-07-15T10:00:00");
    assert_eq!(d.end_time, "2026-07-15T10:01:00");
    assert_eq!(d.duration_ms, 60_000);
    assert_eq!(g(d.distance_km), 6.0);
    assert_eq!(g(d.distance_mi), 3.73);
    assert_eq!(g(d.max_speed_kmh), 36.0);
    assert_eq!(g(d.avg_speed_mph), 22.37);
    assert_eq!(d.point_count, 61);
    assert_eq!(g(d.points[1].time_ms), 1000.0);
    assert_eq!(d.fsd_engaged_ms, 30_000);
    assert_eq!(g(d.fsd_percent), 50.0);
    assert_eq!(d.fsd_disengagements, 1);
    assert_eq!(d.fsd_accel_pushes, 1);
    assert_eq!(
        d.fsd_events.iter().map(|e| e.event_type.as_str()).collect::<Vec<_>>(),
        ["accel_push", "disengagement"]
    );
    assert_eq!(d.fsd_events[0].lat, f(37.0 + 10.0 * 0.001));
    assert_eq!(d.tags, vec!["x".to_string()]);
    assert!(!d.summon);
}

#[test]
fn no_clips_make_no_drive() {
    assert!(build_single_drive_from_clips(&[], 0, &[], None, flat).is_none());
    let odd = route("no-time-front.mp4", north(3));
    assert!(build_single_drive_from_clips(&[odd], 0, &[], None, flat).is_none());
}

#[test]
fn stray_points_are_dropped() {
    let mut points = north(10);
    points[4] = p(0.0, 0.0);
    points[6] = p(37.5, -122.0);
    points.push(p(70.0, 20.0));
    let clean = clean_track(&drop_null_island(&points), &flat);
    assert_eq!(clean.len(), 8);
    assert!(clean.iter().all(|q| g(q.lat) < 37.1 && g(q.lat) >= 37.0));
}

#[test]
fn overviews_are_thinned() {
    let routes = vec![
        route("d/2026-07-15_10-00-00-front.mp4", north(61)),
        route("d/2026-07-15_12-00-00-front.mp4", north(5)),
    ];
    let o = route_overviews(routes, 10, flat);
    assert_eq!(o.len(), 2);
    assert_eq!(o[0].id, 0);
    assert_eq!(o[0].start_time, "2026-07-15T10:00:00");
    assert_eq!(o[0].points.len(), 11);
    assert_eq!(*o[0].points.last().unwrap(), north(61)[60]);
    assert_eq!(o[1].points.len(), 5);
}

#[test]
fn thinning_keeps_the_last_point() {
    let all = north(100);
    for max in [1usize, 2, 7, 33, 99] {
        let t = downsample(&all, max);
        assert_eq!(t.len(), max + 1);
        assert_eq!(*t.last().unwrap(), all[99]);
    }
}

#[test]
fn a_cut_clip_is_tiled() {
    let mut r = route("d/2026-07-15_10-00-00-front.mp4", north(60));
    r.gear_runs = vec![
        GearRun { gear: 1, frames: 20 },
        GearRun { gear: GEAR_PARK, frames: 10 },
        GearRun { gear: 1, frames: 30 },
    ];
    let groups = group_clips(&[r]);
    assert_eq!(groups.len(), 2);
    assert_eq!((groups[0][0].start, groups[0][0].end), (0, 20));
    assert_eq!((groups[1][0].start, groups[1][0].end), (30, 60));
}

#[test]
fn candidates_lack_evidence() {
    let mut s = summary("d/2026-07-15_10-00-00-front.mp4", 20.0);
    s.aggregates.sei_speed_abs_max = Some(f(2.0));
    let c = summon_check_candidates(&[s.clone()]);
    assert_eq!((c.candidate_drives, c.files), (1, vec![s.file.clone()]));
}

#[test]
fn times_are_shown_and_read() {
    let t = parse_iso_moment("2026-02-28T23:59:59").unwrap();
    assert_eq!(to_epoch_ms(t), 1_772_323_199_000);
    assert_eq!(format_stamp(move_by(t, 1000)), "2026-03-01T00:00:00");
    assert_eq!(format_date(t), "2026-02-28");
    assert_eq!(parse_iso_seconds("1970-01-02T00:00:01"), Some(86_401));
    assert_eq!(parse_iso_moment("2026-02-30T00:00:00"), None);
    assert_eq!(parse_iso_moment("2026-02-28"), None);
    assert_eq!(parse_iso_moment(""), None);
}

fn days_in_month(y: i64, m: i64) -> i64 {
    let leap = y % 4 == 0 && (y % 100 != 0 || y % 400 == 0);
    match m {
        2 => 28 + leap as i64,
        4 | 6 | 9 | 11 => 30,
        _ => 31,
    }
}

#[test]
fn every_day_of_the_calendar_is_shown_and_read() {
    // Midnight of every day from year 0 to year 9999.
    let mut second = -62_167_219_200i64;
    for y in 0..10_000 {
        for m in 1..=12 {
            for d in 1..=days_in_month(y, m) {
                if d == 1 || d == days_in_month(y, m) {
                    let text = format!("{y:04}-{m:02}-{d:02}");
                    assert_eq!(format_date(second * 2000), text);
                    let midnight = format!("{text}T00:00:00");
                    assert_eq!(parse_iso_moment(&midnight), Some(second * 2000));
                }
                second += 86_400;
            }
        }
    }
    assert_eq!(second - 1, 253_402_300_799);
    assert_eq!(format_stamp((second - 1) * 2000), "9999-12-31T23:59:59");
}

#[test]
fn what_is_no_time_does_not_read() {
    for text in [
        "2025-00-10T00:00:00",
        "2025-13-10T00:00:00",
        "2025-02-29T00:00:00",
        "2025-01-00T00:00:00",
        "2025-01-32T00:00:00",
        "2025-01-10T24:00:00",
        "2025-01-10T00:60:00",
        "2025-01-10T00:00:61",
    ] {
        assert_eq!(parse_iso_moment(text), None, "{text}");
    }
    // A leap second behind any second but the last of a minute is no time.
    assert_eq!(format_stamp(58 * 2000 + 1000), "");
    assert_eq!(format_stamp(59 * 2000 + 1000), "1970-01-01T00:00:60");
}

#[test]
fn leap_seconds_stand_apart() {
    let before = parse_iso_moment("2024-02-29T12:34:59").unwrap();
    let leap = parse_iso_moment("2024-02-29T12:34:60").unwrap();
    let after = parse_iso_moment("2024-02-29T12:35:00").unwrap();
    assert!(before < leap && leap < after);
    assert_eq!(format_stamp(leap), "2024-02-29T12:34:60");
    assert_eq!(format_stamp(move_by(leap, 999)), "2024-02-29T12:34:60");
    assert_eq!(format_stamp(move_by(leap, 1000)), "2024-02-29T12:35:00");
    assert_eq!(format_date(leap), "2024-02-29");
    assert_eq!(parse_iso_seconds("2024-02-29T12:34:60"), parse_iso_seconds("2024-02-29T12:34:59"));
    assert_eq!(to_epoch_ms(leap), to_epoch_ms(after));
    assert_eq!([span_ms(before, leap), span_ms(leap, after), span_ms(before, after)], [1000; 3]);
    let midnight = parse_iso_moment("2024-03-01T00:00:00").unwrap();
    assert_eq!(span_ms(parse_iso_moment("2024-02-29T23:59:60").unwrap(), midnight), 0);
}

#[test]
fn drives_of_a_leap_second_are_shown_and_keyed_by_it() {
    let s = vec![summary("d/2026-06-30_23-58-60-front.mp4", 1000.0)];
    let d = list(&s).remove(0);
    assert_eq!(d.start_time, "2026-06-30T23:58:60");
    assert_eq!(d.end_time, "2026-06-30T23:59:59");
    assert_eq!(d.duration_ms, 60_000);
    let tags = [TagEntry { key: "2026-06-30T23:58:60".to_string(), tags: vec!["leap".to_string()] }];
    let tagged = group_summaries_fast(&s, &tags, flat).remove(0);
    assert_eq!(tagged.tags, vec!["leap".to_string()]);
}

fn chrono_time(t: i64) -> chrono::NaiveDateTime {
    let (s, ms) = (t.div_euclid(2000), t.rem_euclid(2000));
    chrono::DateTime::from_timestamp(s, ms as u32 * 1_000_000).unwrap().naive_utc()
}

#[test]
fn spans_and_shifts_agree_with_chrono() {
    let mut times = Vec::new();
    for text in [
        "1969-12-31T23:59:60",
        "2024-02-28T23:58:60",
        "2024-02-28T23:59:59",
        "2024-02-28T23:59:60",
        "2024-02-29T00:00:00",
        "2024-02-29T00:00:60",
        "2024-02-29T12:34:59",
        "2024-02-29T12:34:60",
        "2024-02-29T12:35:00",
        "2024-02-29T23:59:60",
    ] {
        let t = parse_iso_moment(text).unwrap();
        times.extend([t, t + 1, t + 400, t + 999]);
    }
    for &a in &times {
        let x = chrono_time(a);
        assert_eq!(format_stamp(a), x.format("%Y-%m-%dT%H:%M:%S").to_string());
        assert_eq!(to_epoch_ms(a), x.and_utc().timestamp_millis());
        for &b in &times {
            let y = chrono_time(b);
            assert_eq!(a < b, x < y);
            assert_eq!(span_ms(a, b), (y - x).num_milliseconds(), "{x} {y}");
        }
        for ms in [0, 1, 400, 600, 601, 999, 1000, 1001, 1999, 2000, 60_000, 86_399_999, 86_400_000] {
            for ms in [ms, -ms] {
                let y = x + chrono::Duration::milliseconds(ms);
                assert_eq!(chrono_time(move_by(a, ms)), y, "{x} {ms}");
            }
        }
    }
}

#[test]
fn seconds_of_a_day_are_shown_and_read() {
    let day = parse_iso_moment("2024-02-29T00:00:00").unwrap();
    for s in 0..86_400i64 {
        let text = format!("2024-02-29T{:02}:{:02}:{:02}", s / 3600, s / 60 % 60, s % 60);
        assert_eq!(format_stamp(day + s * 2000 + s % 1000), text);
        assert_eq!(parse_iso_moment(&text), Some(day + s * 2000));
    }
}
