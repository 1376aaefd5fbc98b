use sentryusb_drives::clock::{
    format_stamp, move_by, parse_clip_timestamp, parse_file_timestamp, parse_iso_moment, span_ms,
};
use sentryusb_drives::drive::build_single_drive_from_clips;
use sentryusb_drives::float::{F32, F64};
use sentryusb_drives::gapfill::{
    fillable_holes, select_gap_fill, select_gap_fill_events, select_interior_fill,
    telemetry_has_driving, ts_in_holes, GapFillCandidate, GAP_FILL_MAX_MS,
};
use sentryusb_drives::grouper::group_clips;
use sentryusb_drives::subclips::{group_summary_clips, whole_clip, SubClipSummary};
use sentryusb_drives::summary::{distance_from_summary_clips, measure_bridges, roll_up_telemetry};
use sentryusb_drives::timeline::{is_event_folder_path, Timed};
use sentryusb_drives::track::downsample;
use sentryusb_drives::types::{
    GearRun, GpsPoint, Route, RouteAggregates, RouteSummary, RouteTelemetryAggregates,
    AUTOPILOT_OFF, GEAR_PARK,
};

fn f(x: f64) -> F64 {
    F64::from_bits(x.to_bits())
}

fn g(x: F64) -> f64 {
    f64::from_bits(x.to_bits())
}

fn f32s(v: &[f32]) -> Vec<F32> {
    v.iter().map(|x| F32::from_bits(x.to_bits())).collect()
}

fn p(lat: f64, lng: f64) -> GpsPoint {
    GpsPoint { lat: f(lat), lng: f(lng) }
}

fn pts(v: &[[f64; 2]]) -> Vec<GpsPoint> {
    v.iter().map(|q| p(q[0], q[1])).collect()
}

/// WGS-84 distance in metres.
fn geodesic_m(lat1: f64, lon1: f64, lat2: f64, lon2: f64) -> f64 {
    if lat1 == lat2 && lon1 == lon2 {
        return 0.0;
    }
    let flat = 1.0 / 298.257_223_563;
    let rad = std::f64::consts::PI / 180.0;
    let b1 = ((1.0 - flat) * (lat1 * rad).tan()).atan();
    let b2 = ((1.0 - flat) * (lat2 * rad).tan()).atan();
    let (p, q) = ((b1 + b2) / 2.0, (b2 - b1) / 2.0);
    let s = ((lon2 - lon1) * rad / 2.0).sin();
    let h = q.sin() * q.sin() + b1.cos() * b2.cos() * s * s;
    let sigma = 2.0 * h.sqrt().atan2((1.0 - h).max(0.0).sqrt());
    if sigma == 0.0 {
        return 0.0;
    }
    let x = (sigma - sigma.sin()) * p.sin().powi(2) * q.cos().powi(2) / (1.0 - h).max(1e-12);
    let y = (sigma + sigma.sin()) * p.cos().powi(2) * q.sin() * q.sin() / h.max(1e-12);
    6_378_137.0 * (sigma - (flat / 2.0) * (x + y))
}

fn geodesic(lat1: F64, lon1: F64, lat2: F64, lon2: F64) -> F64 {
    f(geodesic_m(g(lat1), g(lon1), g(lat2), g(lon2)))
}

/// The listed clips, taken whole and a minute apart.
fn wholes(summaries: &[RouteSummary], which: &[usize]) -> Vec<SubClipSummary> {
    which
        .iter()
        .map(|&i| whole_clip(summaries, Timed { index: i, ts: ts(i as i64) }))
        .collect()
}

fn distance(summaries: &[RouteSummary], clips: &[SubClipSummary]) -> f64 {
    let bridges = measure_bridges(summaries, clips, &geodesic);
    g(distance_from_summary_clips(summaries, clips, &bridges).total_m)
}

#[test]
fn test_parse_file_timestamp() {
    let ts =
        parse_file_timestamp("/mnt/usb/TeslaCam/2025-01-15_12-30-45-front.mp4").unwrap();
    assert_eq!(format_stamp(ts), "2025-01-15T12:30:45");
}

#[test]
fn test_parse_file_timestamp_backslash() {
    let ts =
        parse_file_timestamp("C:\\TeslaCam\\2025-01-15_12-30-45-front.mp4").unwrap();
    assert_eq!(format_stamp(ts), "2025-01-15T12:30:45");
}

#[test]
fn test_parse_file_timestamp_none() {
    assert!(parse_file_timestamp("no-timestamp-here.mp4").is_none());
}

#[test]
fn test_downsample_no_op() {
    let pts = pts(&[[1.0, 2.0], [3.0, 4.0]]);
    assert_eq!(downsample(&pts, 10).len(), 2);
}

#[test]
fn test_downsample_reduces() {
    let pts: Vec<GpsPoint> = (0..100).map(|i| p(i as f64, i as f64)).collect();
    let ds = downsample(&pts, 10);
    assert_eq!(ds.len(), 11);
    assert_eq!(ds[0], p(0.0, 0.0));
    assert_eq!(*ds.last().unwrap(), p(99.0, 99.0));
}

#[test]
fn test_group_clips_empty() {
    let groups = group_clips(&[]);
    assert!(groups.is_empty());
}

fn test_route(file: &str, points: Vec<[f64; 2]>) -> Route {
    Route {
        file: file.to_string(),
        date: "2025-01-15".to_string(),
        points: pts(&points),
        gear_states: vec![1],
        autopilot_states: vec![0],
        speeds: f32s(&[10.0]),
        accel_positions: f32s(&[0.0]),
        raw_park_count: 0,
        raw_frame_count: 10,
        gear_runs: vec![GearRun { gear: 1, frames: 10 }],
        ..Default::default()
    }
}

#[test]
fn test_group_clips_single() {
    let routes = vec![test_route(
        "/cam/2025-01-15_12-30-45-front.mp4",
        vec![[37.0, -122.0]],
    )];
    let groups = group_clips(&routes);
    assert_eq!(groups.len(), 1);
    assert_eq!(groups[0].len(), 1);
}

#[test]
fn test_group_clips_time_gap_split() {
    let routes = vec![
        test_route("/cam/2025-01-15_12-00-00-front.mp4", vec![[37.0, -122.0]]),
        test_route("/cam/2025-01-15_13-00-00-front.mp4", vec![[37.1, -122.1]]),
    ];
    let groups = group_clips(&routes);
    assert_eq!(groups.len(), 2);
}

#[test]
fn test_build_single_drive_dates_gapfill_by_clip_not_event_folder() {
    let native = test_route(
        "RecentClips/2026-01-15/2026-01-15_12-00-00-front.mp4",
        vec![[37.0, -122.0]],
    );
    let gapfill = test_route(
        "SentryClips/2026-01-15_12-40-00/2026-01-15_12-02-00-front.mp4",
        vec![[37.02, -122.0]],
    );
    let drive =
        build_single_drive_from_clips(&[native, gapfill], 0, &[], None, geodesic)
            .expect("drive");
    assert_eq!(drive.clip_count, 2);
    let max_t = drive.points.iter().map(|p| g(p.time_ms)).fold(0.0_f64, f64::max);
    assert!(
        max_t < 300_000.0,
        "gap-fill clip placed at {max_t} ms — expected ~120 000 (clip time), not the event-folder time",
    );
}

#[test]
fn test_single_drive_park_split_scopes_points_to_target_segment() {
    let mut shared = test_route(
        "RecentClips/2026-07-27/2026-07-27_20-04-00-front.mp4",
        (0..18).map(|i| [37.0 + i as f64 * 1e-4, -122.0]).collect(),
    );
    shared.raw_frame_count = 1800;
    shared.gear_runs = vec![
        GearRun { gear: 1, frames: 600 },
        GearRun { gear: GEAR_PARK, frames: 300 },
        GearRun { gear: 1, frames: 900 },
    ];

    let summon = build_single_drive_from_clips(
        &[shared.clone()],
        0,
        &[],
        Some("2026-07-27T20:04:00"),
        geodesic,
    )
    .expect("summon segment");
    assert_eq!(summon.point_count, 6, "first segment's points only");

    let human = build_single_drive_from_clips(
        &[shared.clone()],
        1,
        &[],
        Some("2026-07-27T20:04:33"),
        geodesic,
    )
    .expect("human segment");
    assert_eq!(human.point_count, 9, "second segment's points only");

    let default_pick =
        build_single_drive_from_clips(&[shared], 0, &[], None, geodesic).expect("drive");
    assert_eq!(default_pick.point_count, 6);
}

#[test]
fn test_distance_from_summary_clips_includes_inter_clip_gap() {
    let mut a1 = RouteAggregates::default();
    a1.distance_m = f(100.0);
    a1.start_lat = Some(f(37.0000));
    a1.start_lng = Some(f(-122.0000));
    a1.end_lat = Some(f(37.0009));
    a1.end_lng = Some(f(-122.0000));

    let mut a2 = RouteAggregates::default();
    a2.distance_m = f(200.0);
    a2.start_lat = Some(f(37.0020));
    a2.start_lng = Some(f(-122.0000));
    a2.end_lat = Some(f(37.0030));
    a2.end_lng = Some(f(-122.0000));

    let s1 = RouteSummary {
        file: "/cam/2025-01-15_12-00-00-front.mp4".to_string(),
        date: "2025-01-15".to_string(),
        raw_park_count: 0,
        raw_frame_count: 0,
        gear_runs: Vec::new(),
        flag_runs: Vec::new(),
        aggregates: a1,
        source: None,
        external_signature: None,
        telemetry: Default::default(),
    };
    let s2 = RouteSummary {
        file: "/cam/2025-01-15_12-01-00-front.mp4".to_string(),
        date: "2025-01-15".to_string(),
        raw_park_count: 0,
        raw_frame_count: 0,
        gear_runs: Vec::new(),
        flag_runs: Vec::new(),
        aggregates: a2,
        source: None,
        external_signature: None,
        telemetry: Default::default(),
    };

    let summaries = vec![s1, s2];
    let clips = wholes(&summaries, &[0, 1]);

    let d = distance(&summaries, &clips);
    let gap = geodesic_m(37.0009, -122.0000, 37.0020, -122.0000);
    assert!(
        (d - (300.0 + gap)).abs() < 0.1,
        "distance should include inter-clip gap"
    );
}

fn drive_summary(file: &str) -> RouteSummary {
    RouteSummary {
        file: file.to_string(),
        date: "2025-01-15".to_string(),
        raw_park_count: 0,
        raw_frame_count: 60,
        gear_runs: vec![GearRun { gear: 1, frames: 60 }],
        flag_runs: Vec::new(),
        aggregates: RouteAggregates::default(),
        source: None,
        external_signature: None,
        telemetry: Default::default(),
    }
}

fn clip_with_gear_runs(file: &str, runs: &[(u8, u32)], total_distance_m: f64) -> RouteSummary {
    let mut a = RouteAggregates::default();
    a.distance_m = f(total_distance_m);
    RouteSummary {
        file: file.to_string(),
        date: "2025-01-15".to_string(),
        raw_park_count: runs.iter().filter(|(g, _)| *g == GEAR_PARK).map(|(_, f)| f).sum(),
        raw_frame_count: runs.iter().map(|(_, f)| *f).sum(),
        gear_runs: runs.iter().map(|(g, f)| GearRun { gear: *g, frames: *f }).collect(),
        flag_runs: Vec::new(),
        aggregates: a,
        source: None,
        external_signature: None,
        telemetry: Default::default(),
    }
}

#[test]
fn test_split_summary_multi_park_gap_produces_three_drives() {
    let clip = clip_with_gear_runs(
        "/cam/2025-01-15_12-00-00-front.mp4",
        &[(1, 20), (GEAR_PARK, 5), (1, 15), (GEAR_PARK, 5), (1, 15)],
        600.0,
    );
    let summaries = vec![clip];
    let groups = group_summary_clips(&summaries);
    assert_eq!(groups.len(), 3, "multi-park-gap clip should split into 3 drives");

    let d1 = distance(&summaries, &groups[0]);
    let d2 = distance(&summaries, &groups[1]);
    let d3 = distance(&summaries, &groups[2]);
    assert!((d1 - 200.0).abs() < 0.5, "drive 1 distance: {}", d1);
    assert!((d2 - 150.0).abs() < 0.5, "drive 2 distance: {}", d2);
    assert!((d3 - 150.0).abs() < 0.5, "drive 3 distance: {}", d3);
}

#[test]
fn test_split_summary_no_park_gap_keeps_one_drive() {
    let clip = clip_with_gear_runs(
        "/cam/2025-01-15_12-00-00-front.mp4",
        &[(1, 60)],
        1000.0,
    );
    let summaries = vec![clip];
    let groups = group_summary_clips(&summaries);
    assert_eq!(groups.len(), 1);
    assert_eq!(groups[0].len(), 1);
    assert!((distance(&summaries, &groups[0]) - 1000.0).abs() < 0.5);
}

#[test]
fn test_split_summary_all_parked_zero_drives() {
    let clip = clip_with_gear_runs(
        "/cam/2025-01-15_12-00-00-front.mp4",
        &[(GEAR_PARK, 60)],
        0.0,
    );
    let summaries = vec![clip];
    let groups = group_summary_clips(&summaries);
    assert_eq!(groups.len(), 0);
}

#[test]
fn test_split_summary_park_clip_between_drives() {
    let s1 = drive_summary("/cam/2025-01-15_12-00-00-front.mp4");
    let park = clip_with_gear_runs(
        "/cam/2025-01-15_12-01-00-front.mp4",
        &[(GEAR_PARK, 60)],
        0.0,
    );
    let s3 = drive_summary("/cam/2025-01-15_12-02-00-front.mp4");
    let summaries = vec![s1, park, s3];
    let groups = group_summary_clips(&summaries);
    assert_eq!(groups.len(), 2);
    assert_eq!(groups[0].len(), 1);
    assert_eq!(groups[1].len(), 1);
}

#[test]
fn test_is_event_folder_path() {
    assert!(is_event_folder_path("SavedClips/2026-05-17_18-47-59/2026-05-17_18-47-34-front.mp4"));
    assert!(is_event_folder_path("SentryClips/2026-05-17_18-46-39/2026-05-17_18-35-39-front.mp4"));
    assert!(is_event_folder_path("SavedClips\\2026-05-17_18-47-59\\2026-05-17_18-47-34-front.mp4"));
    assert!(is_event_folder_path("SentryClips\\foo\\bar-front.mp4"));
    assert!(!is_event_folder_path("RecentClips/2026-05-17/2026-05-17_18-47-34-front.mp4"));
    assert!(!is_event_folder_path("2026-05-17/2026-05-17_18-47-34-front.mp4"));
    assert!(!is_event_folder_path("2026-05-17\\2026-05-17_18-47-34-front.mp4"));
    assert!(!is_event_folder_path(""));
    assert!(!is_event_folder_path("foo/SavedClips/x.mp4"));
    assert!(!is_event_folder_path("MySavedClips/x.mp4"));
}

fn park_route(file: &str, lat: f64) -> Route {
    Route {
        file: file.to_string(),
        date: "SentryClips".to_string(),
        points: pts(&[[lat, -76.795]]),
        gear_states: vec![GEAR_PARK; 60],
        autopilot_states: vec![AUTOPILOT_OFF; 60],
        speeds: f32s(&[0.0; 60]),
        accel_positions: f32s(&[0.0; 60]),
        raw_park_count: 60,
        raw_frame_count: 60,
        gear_runs: vec![GearRun { gear: GEAR_PARK, frames: 60 }],
        ..Default::default()
    }
}

#[test]
fn test_group_clips_filters_event_folder_routes() {
    let routes = vec![
        test_route(
            "RecentClips/2025-01-15/2025-01-15_12-30-00-front.mp4",
            vec![[37.0, -122.0]],
        ),
        test_route(
            "SavedClips/2025-01-15_12-30-30/2025-01-15_12-30-00-front.mp4",
            vec![[37.0, -122.0]],
        ),
        test_route(
            "SentryClips/2025-01-15_12-29-30/2025-01-15_12-30-00-front.mp4",
            vec![[37.0, -122.0]],
        ),
    ];
    let groups = group_clips(&routes);
    assert_eq!(groups.len(), 1, "expected one drive after filtering");
    assert_eq!(groups[0].len(), 1, "expected one route in the drive");
    assert!(
        routes[groups[0][0].route].file.starts_with("RecentClips/"),
        "the surviving route should be the RecentClips one, got {}",
        routes[groups[0][0].route].file
    );
}

#[test]
fn test_group_clips_may17_regression() {
    let mut routes: Vec<Route> = Vec::new();

    for minute in 35..=45 {
        let file = format!(
            "SentryClips/2026-05-17_18-46-39/2026-05-17_18-{:02}-{:02}-front.mp4",
            minute,
            39 + (minute - 35),
        );
        routes.push(park_route(&file, 39.198_8 + (minute as f64) * 1e-6));
    }

    routes.push(test_route(
        "SavedClips/2026-05-17_18-47-59/2026-05-17_18-47-34-front.mp4",
        vec![[39.198_835, -76.795_246]],
    ));

    let drive_starts = [
        "RecentClips/2026-05-17/2026-05-17_18-47-34-front.mp4",
        "RecentClips/2026-05-17/2026-05-17_18-48-34-front.mp4",
        "RecentClips/2026-05-17/2026-05-17_18-49-34-front.mp4",
        "RecentClips/2026-05-17/2026-05-17_18-50-34-front.mp4",
        "RecentClips/2026-05-17/2026-05-17_18-51-34-front.mp4",
    ];
    for (i, f) in drive_starts.iter().enumerate() {
        routes.push(test_route(
            f,
            vec![[39.198_835 + (i as f64) * 1e-4, -76.795_246]],
        ));
    }

    let groups = group_clips(&routes);
    assert_eq!(
        groups.len(),
        1,
        "May 17 trip must group into a single drive; got {} groups",
        groups.len()
    );
    assert_eq!(
        groups[0].len(),
        drive_starts.len(),
        "the drive should contain exactly the {} RecentClips routes",
        drive_starts.len()
    );
    for clip in &groups[0] {
        assert!(
            routes[clip.route].file.starts_with("RecentClips/"),
            "unexpected non-RecentClips route in drive: {}",
            routes[clip.route].file
        );
    }
}


fn dts(s: &str) -> i64 {
    parse_iso_moment(&s.replace(' ', "T")).unwrap()
}

#[test]
fn test_parse_clip_timestamp_uses_filename_component() {
    assert_eq!(
        parse_clip_timestamp("SentryClips/2026-05-17_18-46-39/2026-05-17_18-35-39-front.mp4"),
        Some(dts("2026-05-17 18:35:39"))
    );
    assert_eq!(
        parse_clip_timestamp("SavedClips\\2026-05-17_18-47-59\\2026-05-17_18-47-34-front.mp4"),
        Some(dts("2026-05-17 18:47:34"))
    );
    assert_eq!(
        parse_clip_timestamp("RecentClips/2026-05-17/2026-05-17_18-47-34-front.mp4"),
        Some(dts("2026-05-17 18:47:34"))
    );
    assert_eq!(parse_clip_timestamp("SentryClips/2026-05-17_18-46-39/event.json"), None);
}

#[test]
fn test_fillable_holes_bounds() {
    let seq = vec![
        dts("2026-06-01 10:00:00"),
        dts("2026-06-01 10:01:00"),
        dts("2026-06-01 10:04:00"),
        dts("2026-06-01 10:05:00"),
        dts("2026-06-01 10:11:00"),
        dts("2026-06-01 10:46:00"),
    ];
    let holes = fillable_holes(&seq);
    assert_eq!(
        holes,
        vec![
            (dts("2026-06-01 10:01:00"), dts("2026-06-01 10:04:00")),
            (dts("2026-06-01 10:05:00"), dts("2026-06-01 10:11:00")),
        ]
    );
    assert!(ts_in_holes(&holes, dts("2026-06-01 10:02:00")));
    assert!(ts_in_holes(&holes, dts("2026-06-01 10:07:00")));
    assert!(!ts_in_holes(&holes, dts("2026-06-01 10:01:00")));
    assert!(!ts_in_holes(&holes, dts("2026-06-01 10:04:00")));
    assert!(!ts_in_holes(&holes, dts("2026-06-01 10:11:00")));
    assert!(!ts_in_holes(&holes, dts("2026-06-01 10:30:00")));
}

#[test]
fn test_select_gap_fill_events_dedup() {
    let recent = vec![
        dts("2026-06-01 10:00:00"),
        dts("2026-06-01 10:03:00"),
    ];
    let cands = vec![
        (dts("2026-06-01 10:01:00"), "SentryClips/2026-06-01_10-02-30/2026-06-01_10-01-00-front.mp4"),
        (dts("2026-06-01 10:01:00"), "SavedClips/2026-06-01_10-02-30/2026-06-01_10-01-00-front.mp4"),
        (dts("2026-06-01 10:02:00"), "SentryClips/2026-06-01_10-02-30/2026-06-01_10-02-00-front.mp4"),
        (dts("2026-06-01 09:30:00"), "SentryClips/2026-06-01_09-31-00/2026-06-01_09-30-00-front.mp4"),
    ];
    let mut picked: Vec<&str> =
        select_gap_fill_events(&recent, &cands).into_iter().map(|i| cands[i].1).collect();
    picked.sort();
    assert_eq!(
        picked,
        vec![
            "SavedClips/2026-06-01_10-02-30/2026-06-01_10-01-00-front.mp4",
            "SentryClips/2026-06-01_10-02-30/2026-06-01_10-02-00-front.mp4",
        ]
    );
}

#[test]
fn test_select_interior_fill_admits_parked_hole_clips_only() {
    let recent = vec![
        dts("2026-06-01 10:00:00"),
        dts("2026-06-01 10:03:00"),
        dts("2026-06-01 10:04:00"),
    ];
    let cands = vec![
        (dts("2026-06-01 10:01:00"), "SavedClips/2026-06-01_10-02-30/2026-06-01_10-01-00-front.mp4"),
        (dts("2026-06-01 10:02:00"), "SavedClips/2026-06-01_10-02-30/2026-06-01_10-02-00-front.mp4"),
        (dts("2026-06-01 09:58:00"), "SavedClips/2026-06-01_10-02-30/2026-06-01_09-58-00-front.mp4"),
        (dts("2026-06-01 10:06:00"), "SentryClips/2026-06-01_10-07-00/2026-06-01_10-06-00-front.mp4"),
        (dts("2026-06-01 10:04:01"), "SavedClips/2026-06-01_10-05-00/2026-06-01_10-04-01-front.mp4"),
    ];
    let picked: Vec<&str> = select_interior_fill(&recent, &cands)
        .into_iter()
        .map(|i| cands[i].1)
        .collect();
    assert_eq!(
        picked,
        vec![
            "SavedClips/2026-06-01_10-02-30/2026-06-01_10-01-00-front.mp4",
            "SavedClips/2026-06-01_10-02-30/2026-06-01_10-02-00-front.mp4",
        ]
    );
}

#[test]
fn test_select_interior_fill_twin_dedup_lowest_path_wins() {
    let recent = vec![
        dts("2026-06-01 10:00:00"),
        dts("2026-06-01 10:03:00"),
    ];
    let cands = vec![
        (dts("2026-06-01 10:01:00"), "SentryClips/2026-06-01_10-02-30/2026-06-01_10-01-00-front.mp4"),
        (dts("2026-06-01 10:01:00"), "SavedClips/2026-06-01_10-02-30/2026-06-01_10-01-00-front.mp4"),
    ];
    let picked: Vec<&str> = select_interior_fill(&recent, &cands)
        .into_iter()
        .map(|i| cands[i].1)
        .collect();
    assert_eq!(
        picked,
        vec!["SavedClips/2026-06-01_10-02-30/2026-06-01_10-01-00-front.mp4"]
    );
}

#[test]
fn test_select_interior_fill_no_holes_or_empty_recent() {
    let cands = vec![
        (dts("2026-06-01 10:01:00"), "SavedClips/2026-06-01_10-02-30/2026-06-01_10-01-00-front.mp4"),
    ];
    assert!(select_interior_fill(&[], &cands).is_empty());
    let recent = vec![dts("2026-06-01 10:00:00"), dts("2026-06-01 10:01:00")];
    assert!(select_interior_fill(&recent, &cands).is_empty());
}

#[test]
fn test_group_clips_gap_fills_event_route_into_hole() {
    let routes = vec![
        test_route("RecentClips/2026-06-01/2026-06-01_10-00-00-front.mp4", vec![[37.0, -122.0]]),
        test_route("RecentClips/2026-06-01/2026-06-01_10-02-00-front.mp4", vec![[37.002, -122.0]]),
        test_route("RecentClips/2026-06-01/2026-06-01_10-03-00-front.mp4", vec![[37.003, -122.0]]),
        test_route("SentryClips/2026-06-01_10-02-30/2026-06-01_10-01-00-front.mp4", vec![[37.001, -122.0]]),
        test_route("SavedClips/2026-06-01_10-02-30/2026-06-01_10-02-00-front.mp4", vec![[37.002, -122.0]]),
        park_route("SentryClips/2026-06-01_02-00-00/2026-06-01_01-59-00-front.mp4", 37.0),
    ];
    let groups = group_clips(&routes);
    assert_eq!(groups.len(), 1, "expected a single gap-filled drive");
    let files: Vec<&str> = groups[0].iter().map(|c| routes[c.route].file.as_str()).collect();
    assert_eq!(
        files,
        vec![
            "RecentClips/2026-06-01/2026-06-01_10-00-00-front.mp4",
            "SentryClips/2026-06-01_10-02-30/2026-06-01_10-01-00-front.mp4",
            "RecentClips/2026-06-01/2026-06-01_10-02-00-front.mp4",
            "RecentClips/2026-06-01/2026-06-01_10-03-00-front.mp4",
        ]
    );
}

#[test]
fn test_group_summary_clips_gap_fill_and_event_filter() {
    let mk = |file: &str| RouteSummary {
        file: file.to_string(),
        date: "2026-06-01".to_string(),
        raw_park_count: 0,
        raw_frame_count: 60,
        gear_runs: vec![GearRun { gear: 1, frames: 60 }],
        flag_runs: Vec::new(),
        aggregates: RouteAggregates::default(),
        source: None,
        external_signature: None,
        telemetry: Default::default(),
    };
    let mut parked_far = mk("SentryClips/2026-06-01_02-00-00/2026-06-01_01-59-00-front.mp4");
    parked_far.raw_park_count = 60;
    parked_far.gear_runs = vec![GearRun { gear: GEAR_PARK, frames: 60 }];
    let summaries = vec![
        mk("2026-06-01/2026-06-01_10-00-00-front.mp4"),
        mk("2026-06-01/2026-06-01_10-02-00-front.mp4"),
        mk("SentryClips/2026-06-01_10-02-30/2026-06-01_10-01-00-front.mp4"),
        parked_far,
    ];
    let groups = group_summary_clips(&summaries);
    assert_eq!(groups.len(), 1);
    let files: Vec<&str> = groups[0].iter().map(|c| summaries[c.summary].file.as_str()).collect();
    assert_eq!(
        files,
        vec![
            "2026-06-01/2026-06-01_10-00-00-front.mp4",
            "SentryClips/2026-06-01_10-02-30/2026-06-01_10-01-00-front.mp4",
            "2026-06-01/2026-06-01_10-02-00-front.mp4",
        ]
    );
}


#[test]
fn test_telemetry_has_driving() {
    let d = |g| GearRun { gear: g, frames: 30 };
    assert!(telemetry_has_driving(&[d(GEAR_PARK), d(1)], &[], &[], 0, 0));
    assert!(!telemetry_has_driving(&[d(GEAR_PARK)], &[GEAR_PARK; 60], &f32s(&[0.0; 60]), 60, 60));
    assert!(telemetry_has_driving(&[d(GEAR_PARK)], &[], &f32s(&[-2.0]), 0, 0));
    assert!(!telemetry_has_driving(&[], &[], &f32s(&[0.2]), 0, 0));
    assert!(telemetry_has_driving(&[], &[], &[], 40, 60));
    assert!(!telemetry_has_driving(&[], &[], &[], 0, 0));
}

#[test]
fn test_gap_fill_trailing_chain_admits_driving_rejects_parked_tail() {
    let routes = vec![
        test_route("RecentClips/2026-07-04/2026-07-04_20-42-50-front.mp4", vec![[37.0, -122.0]]),
        test_route("RecentClips/2026-07-04/2026-07-04_20-43-50-front.mp4", vec![[37.001, -122.0]]),
        test_route("SentryClips/2026-07-04_20-55-50/2026-07-04_20-44-51-front.mp4", vec![[37.002, -122.0]]),
        test_route("SentryClips/2026-07-04_20-55-50/2026-07-04_20-45-51-front.mp4", vec![[37.003, -122.0]]),
        park_route("SentryClips/2026-07-04_20-55-50/2026-07-04_20-46-52-front.mp4", 37.003),
        park_route("SentryClips/2026-07-04_20-55-50/2026-07-04_20-47-52-front.mp4", 37.003),
    ];
    let groups = group_clips(&routes);
    assert_eq!(groups.len(), 1, "expected a single extended drive");
    let files: Vec<&str> = groups[0].iter().map(|c| routes[c.route].file.as_str()).collect();
    assert_eq!(
        files,
        vec![
            "RecentClips/2026-07-04/2026-07-04_20-42-50-front.mp4",
            "RecentClips/2026-07-04/2026-07-04_20-43-50-front.mp4",
            "SentryClips/2026-07-04_20-55-50/2026-07-04_20-44-51-front.mp4",
            "SentryClips/2026-07-04_20-55-50/2026-07-04_20-45-51-front.mp4",
        ]
    );
}

#[test]
fn test_gap_fill_leading_chain_admits_departure_footage() {
    let routes = vec![
        test_route("SentryClips/2026-06-27_10-05-00/2026-06-27_09-58-10-front.mp4", vec![[37.0, -122.0]]),
        test_route("SentryClips/2026-06-27_10-05-00/2026-06-27_09-59-10-front.mp4", vec![[37.001, -122.0]]),
        test_route("RecentClips/2026-06-27/2026-06-27_10-00-10-front.mp4", vec![[37.002, -122.0]]),
        test_route("RecentClips/2026-06-27/2026-06-27_10-01-10-front.mp4", vec![[37.003, -122.0]]),
    ];
    let groups = group_clips(&routes);
    assert_eq!(groups.len(), 1, "expected a single drive starting at the leading fill");
    assert_eq!(groups[0].len(), 4);
    assert_eq!(
        routes[groups[0][0].route].file,
        "SentryClips/2026-06-27_10-05-00/2026-06-27_09-58-10-front.mp4"
    );
}

#[test]
fn test_gap_fill_isolated_driving_cluster_forms_own_drive() {
    let routes = vec![
        test_route("RecentClips/2026-05-28/2026-05-28_10-00-00-front.mp4", vec![[37.0, -122.0]]),
        test_route("SentryClips/2026-05-28_14-05-00/2026-05-28_14-00-00-front.mp4", vec![[37.1, -122.1]]),
        test_route("SentryClips/2026-05-28_14-05-00/2026-05-28_14-01-00-front.mp4", vec![[37.1, -122.1]]),
    ];
    let groups = group_clips(&routes);
    assert_eq!(groups.len(), 2, "unanchored driving cluster should be its own drive");
    assert!(routes[groups[0][0].route].file.starts_with("RecentClips/"));
    assert_eq!(groups[1].len(), 2);
    assert!(routes[groups[1][0].route].file.starts_with("SentryClips/"));
}

#[test]
fn test_gap_fill_honk_save_timeline_recovers_drive() {
    let routes = vec![
        test_route("RecentClips/2026-08-08/2026-08-08_18-11-46-front.mp4", vec![[39.0, -76.9]]),
        test_route("SavedClips/2026-08-08_20-05-16/2026-08-08_19-56-05-front.mp4", vec![[39.1, -76.91]]),
        test_route("SavedClips/2026-08-08_20-05-16/2026-08-08_19-57-05-front.mp4", vec![[39.11, -76.92]]),
        test_route("SavedClips/2026-08-08_20-05-16/2026-08-08_19-58-06-front.mp4", vec![[39.12, -76.93]]),
        test_route("SavedClips/2026-08-08_20-05-16/2026-08-08_19-59-06-front.mp4", vec![[39.13, -76.93]]),
        test_route("RecentClips/2026-08-08/2026-08-08_20-05-13-front.mp4", vec![[39.13, -76.932]]),
    ];
    let groups = group_clips(&routes);
    assert_eq!(groups.len(), 3, "18:11 stub, recovered drive, 20:05 stub");
    assert_eq!(groups[1].len(), 4, "all four SavedClips driving routes form the drive");
    assert!(groups[1].iter().all(|c| routes[c.route].file.starts_with("SavedClips/")));
}

#[test]
fn test_gap_fill_event_only_routes_still_group() {
    let routes = vec![
        test_route("SavedClips/2026-05-28_14-10-00/2026-05-28_14-00-00-front.mp4", vec![[37.1, -122.1]]),
        test_route("SavedClips/2026-05-28_14-10-00/2026-05-28_14-01-00-front.mp4", vec![[37.11, -122.1]]),
    ];
    let groups = group_clips(&routes);
    assert_eq!(groups.len(), 1, "event-only driving routes must form a drive");
    assert_eq!(groups[0].len(), 2);
}

#[test]
fn test_gap_fill_unanchored_gear_evidence_matches_summary_path() {
    let mut states_only = test_route(
        "SentryClips/2026-05-28_14-05-00/2026-05-28_14-00-00-front.mp4",
        vec![[37.1, -122.1]],
    );
    states_only.gear_runs = Vec::new();
    states_only.gear_states = vec![1];
    let routes = vec![
        test_route("RecentClips/2026-05-28/2026-05-28_10-00-00-front.mp4", vec![[37.0, -122.0]]),
        states_only,
    ];
    let groups = group_clips(&routes);
    assert_eq!(
        groups.len(),
        1,
        "map path must not admit what the summary path cannot see",
    );
    assert!(routes[groups[0][0].route].file.starts_with("RecentClips/"));

    let mut states_only_summary = clip_with_gear_runs(
        "SentryClips/2026-05-28_14-05-00/2026-05-28_14-00-00-front.mp4",
        &[(1, 60)],
        400.0,
    );
    states_only_summary.gear_runs = Vec::new();
    states_only_summary.raw_park_count = 0;
    states_only_summary.raw_frame_count = 60;
    let summaries = vec![
        clip_with_gear_runs(
            "RecentClips/2026-05-28/2026-05-28_10-00-00-front.mp4",
            &[(1, 60)],
            500.0,
        ),
        states_only_summary,
    ];
    let summary_groups = group_summary_clips(&summaries);
    assert_eq!(
        summary_groups.len(),
        groups.len(),
        "list and map must agree on unanchored admission: map={} list={}",
        groups.len(),
        summary_groups.len(),
    );
}

#[test]
fn test_gap_fill_unanchored_rejects_raw_count_only_evidence() {
    let mut raw_only = test_route(
        "SentryClips/2026-05-28_14-05-00/2026-05-28_14-00-00-front.mp4",
        vec![[37.1, -122.1]],
    );
    raw_only.gear_states = Vec::new();
    raw_only.gear_runs = Vec::new();
    raw_only.speeds = Vec::new();
    raw_only.raw_park_count = 0;
    raw_only.raw_frame_count = 10;
    let routes = vec![
        test_route("RecentClips/2026-05-28/2026-05-28_10-00-00-front.mp4", vec![[37.0, -122.0]]),
        raw_only,
    ];
    let groups = group_clips(&routes);
    assert_eq!(groups.len(), 1, "raw-count-only event clip must stay unanchored-ineligible");
    assert!(routes[groups[0][0].route].file.starts_with("RecentClips/"));
}

#[test]
fn test_gap_fill_unanchored_requires_gear_evidence() {
    let mut speed_only = test_route(
        "SentryClips/2026-05-28_14-05-00/2026-05-28_14-00-00-front.mp4",
        vec![[37.1, -122.1]],
    );
    speed_only.gear_states = vec![GEAR_PARK];
    speed_only.gear_runs = vec![GearRun { gear: GEAR_PARK, frames: 10 }];
    speed_only.raw_park_count = 10;
    speed_only.speeds = f32s(&[2.0]);
    let routes = vec![
        test_route("RecentClips/2026-05-28/2026-05-28_10-00-00-front.mp4", vec![[37.0, -122.0]]),
        speed_only,
    ];
    let groups = group_clips(&routes);
    assert_eq!(groups.len(), 1, "speed-only unanchored event clip stays out");
    assert!(routes[groups[0][0].route].file.starts_with("RecentClips/"));
}

#[test]
fn test_select_gap_fill_unanchored_ingest_candidates_stay_out() {
    let recent = vec![dts("2026-06-01 10:00:00")];
    let cands = vec![
        GapFillCandidate {
            ts: dts("2026-06-01 14:00:00"),
            file: "SentryClips/2026-06-01_14-05-00/a-front.mp4",
            driving: None,
            gear_driving: false,
        },
        GapFillCandidate {
            ts: dts("2026-06-01 14:01:00"),
            file: "SentryClips/2026-06-01_14-05-00/b-front.mp4",
            driving: None,
            gear_driving: false,
        },
    ];
    assert!(select_gap_fill(&recent, &cands).is_empty());
}

#[test]
fn test_group_summary_clips_unanchored_driving_cluster() {
    let summaries = vec![
        clip_with_gear_runs("RecentClips/2026-05-28/2026-05-28_10-00-00-front.mp4", &[(1, 60)], 500.0),
        clip_with_gear_runs("SavedClips/2026-05-28_14-10-00/2026-05-28_14-00-00-front.mp4", &[(1, 60)], 400.0),
        clip_with_gear_runs("SavedClips/2026-05-28_14-10-00/2026-05-28_14-01-00-front.mp4", &[(1, 60)], 400.0),
    ];
    let groups = group_summary_clips(&summaries);
    assert_eq!(groups.len(), 2, "summary path must admit the unanchored driving cluster");
    assert_eq!(groups[1].len(), 2);
    assert!(summaries[groups[1][0].summary].file.starts_with("SavedClips/"));
}

#[test]
fn test_select_gap_fill_chain_cap_and_hop_window() {
    let recent = vec![dts("2026-06-01 10:00:00")];
    let mk = |s: &str| dts(s);
    let files: Vec<(i64, String)> = vec![
        (mk("2026-06-01 10:01:01"), "a"),
        (mk("2026-06-01 10:02:02"), "b"),
        (mk("2026-06-01 10:04:34"), "c"),
        (mk("2026-06-01 10:07:00"), "d"),
        (mk("2026-06-01 10:12:00"), "e"),
    ]
    .into_iter()
    .map(|(ts, n)| (ts, format!("SentryClips/2026-06-01_10-20-00/{}-front.mp4", n)))
    .collect();
    let cands: Vec<GapFillCandidate> = files
        .iter()
        .map(|(ts, f)| GapFillCandidate { ts: *ts, file: f.as_str(), driving: Some(true), gear_driving: false })
        .collect();
    let picked = select_gap_fill(&recent, &cands);
    assert_eq!(picked, vec![0, 1, 2, 3], "chain must stop at the broken hop");

    let long: Vec<(i64, String)> = (1..=35)
        .map(|m| {
            (
                move_by(dts("2026-06-01 10:00:00"), m * 61_000),
                format!("SentryClips/2026-06-01_11-00-00/clip{:02}-front.mp4", m),
            )
        })
        .collect();
    let cands: Vec<GapFillCandidate> = long
        .iter()
        .map(|(ts, f)| GapFillCandidate { ts: *ts, file: f.as_str(), driving: Some(true), gear_driving: false })
        .collect();
    let picked = select_gap_fill(&recent, &cands);
    assert!(!picked.is_empty());
    for &i in &picked {
        assert!(
            span_ms(recent[0], cands[i].ts) <= GAP_FILL_MAX_MS,
            "{} exceeds the chain cap",
            cands[i].file
        );
    }
    assert!(picked.len() < cands.len(), "cap must cut the tail of the chain");
}

#[test]
fn test_select_gap_fill_rejects_recent_twin_and_overlap_dup() {
    let recent = vec![dts("2026-07-04 20:43:50"), dts("2026-07-04 20:44:50")];
    let cands = vec![
        GapFillCandidate {
            ts: dts("2026-07-04 20:44:51"),
            file: "SentryClips/e/2026-07-04_20-44-51-front.mp4",
            driving: Some(true),
            gear_driving: true,
        },
        GapFillCandidate {
            ts: dts("2026-07-04 20:45:51"),
            file: "SentryClips/e/2026-07-04_20-45-51-front.mp4",
            driving: Some(true),
            gear_driving: true,
        },
        GapFillCandidate {
            ts: dts("2026-07-04 20:46:11"),
            file: "SavedClips/e2/2026-07-04_20-46-11-front.mp4",
            driving: Some(true),
            gear_driving: true,
        },
    ];
    assert_eq!(select_gap_fill(&recent, &cands), vec![1]);
}

#[test]
fn test_select_gap_fill_events_superset_without_sei() {
    let recent = vec![dts("2026-06-01 10:00:00"), dts("2026-06-01 10:01:00")];
    let cands = vec![
        (dts("2026-06-01 10:02:01"), "SentryClips/e/2026-06-01_10-02-01-front.mp4"),
        (dts("2026-06-01 09:58:30"), "SentryClips/e/2026-06-01_09-58-30-front.mp4"),
        (dts("2026-06-01 12:00:00"), "SentryClips/far/2026-06-01_12-00-00-front.mp4"),
    ];
    let mut picked = select_gap_fill_events(&recent, &cands);
    picked.sort();
    assert_eq!(picked, vec![0, 1], "trailing+leading in, isolated out");
}

#[test]
fn test_gap_fill_trailing_clip_park_tail_is_trimmed() {
    let mut mixed = test_route(
        "SentryClips/2026-07-04_20-55-50/2026-07-04_20-45-51-front.mp4",
        (0..10).map(|i| [37.002 + i as f64 * 1e-4, -122.0]).collect(),
    );
    mixed.gear_runs = vec![
        GearRun { gear: 1, frames: 30 },
        GearRun { gear: GEAR_PARK, frames: 30 },
    ];
    mixed.gear_states = vec![1; 10];
    mixed.speeds = f32s(&[5.0; 10]);
    let routes = vec![
        test_route("RecentClips/2026-07-04/2026-07-04_20-44-50-front.mp4", vec![[37.001, -122.0]]),
        mixed,
    ];
    let groups = group_clips(&routes);
    assert_eq!(groups.len(), 1);
    let fill = groups[0]
        .iter()
        .find(|c| routes[c.route].file.starts_with("SentryClips/"))
        .expect("trailing fill admitted");
    assert_eq!(
        fill.end - fill.start,
        5,
        "parked half of the trailing clip must be trimmed off"
    );
}

#[test]
fn test_group_summary_clips_trailing_chain() {
    let mk = |file: &str| RouteSummary {
        file: file.to_string(),
        date: "2026-07-04".to_string(),
        raw_park_count: 0,
        raw_frame_count: 60,
        gear_runs: vec![GearRun { gear: 1, frames: 60 }],
        flag_runs: Vec::new(),
        aggregates: RouteAggregates::default(),
        source: None,
        external_signature: None,
        telemetry: Default::default(),
    };
    let parked = |file: &str| RouteSummary {
        file: file.to_string(),
        date: "2026-07-04".to_string(),
        raw_park_count: 60,
        raw_frame_count: 60,
        gear_runs: vec![GearRun { gear: GEAR_PARK, frames: 60 }],
        flag_runs: Vec::new(),
        aggregates: RouteAggregates::default(),
        source: None,
        external_signature: None,
        telemetry: Default::default(),
    };
    let summaries = vec![
        mk("2026-07-04/2026-07-04_20-43-50-front.mp4"),
        mk("SentryClips/2026-07-04_20-55-50/2026-07-04_20-44-51-front.mp4"),
        mk("SentryClips/2026-07-04_20-55-50/2026-07-04_20-45-51-front.mp4"),
        parked("SentryClips/2026-07-04_20-55-50/2026-07-04_20-46-52-front.mp4"),
    ];
    let groups = group_summary_clips(&summaries);
    assert_eq!(groups.len(), 1);
    let files: Vec<&str> = groups[0].iter().map(|c| summaries[c.summary].file.as_str()).collect();
    assert_eq!(
        files,
        vec![
            "2026-07-04/2026-07-04_20-43-50-front.mp4",
            "SentryClips/2026-07-04_20-55-50/2026-07-04_20-44-51-front.mp4",
            "SentryClips/2026-07-04_20-55-50/2026-07-04_20-45-51-front.mp4",
        ]
    );
}


fn clip_with_telemetry(
    file: &str,
    battery_start: Option<f64>,
    battery_end: Option<f64>,
    interior_min: Option<f64>,
    interior_max: Option<f64>,
    exterior_temp_avg: Option<f64>,
    hvac_runtime_s: Option<i64>,
) -> RouteSummary {
    RouteSummary {
        file: file.to_string(),
        date: "2025-01-15".to_string(),
        raw_park_count: 0,
        raw_frame_count: 60,
        gear_runs: vec![GearRun { gear: 1, frames: 60 }],
        flag_runs: Vec::new(),
        aggregates: RouteAggregates::default(),
        source: None,
        external_signature: None,
        telemetry: RouteTelemetryAggregates {
            battery_pct_start: battery_start.map(f),
            battery_pct_end: battery_end.map(f),
            interior_temp_min: interior_min.map(f),
            interior_temp_max: interior_max.map(f),
            exterior_temp_avg: exterior_temp_avg.map(f),
            hvac_runtime_s,
            ..Default::default()
        },
    }
}

fn ts(offset_min: i64) -> i64 {
    move_by(parse_iso_moment("2025-01-15T12:00:00").unwrap(), offset_min * 60_000)
}

#[test]
fn rollup_empty_drive_returns_all_none() {
    let r = roll_up_telemetry(&[], &[]);
    assert!(r.battery_pct_start.is_none());
    assert!(r.battery_pct_end.is_none());
    assert!(r.battery_pct_used.is_none());
    assert!(r.interior_temp_min_c.is_none());
    assert!(r.interior_temp_max_c.is_none());
    assert!(r.exterior_temp_avg_c.is_none());
    assert!(r.hvac_runtime_s.is_none());
}

#[test]
fn rollup_battery_start_end_derived_from_first_and_last_clips() {
    let s1 = clip_with_telemetry(
        "/cam/2025-01-15_12-00-00-front.mp4",
        Some(80.0), Some(79.5), None, None, None, None,
    );
    let s2 = clip_with_telemetry(
        "/cam/2025-01-15_12-01-00-front.mp4",
        Some(79.5), Some(78.8), None, None, None, None,
    );
    let s3 = clip_with_telemetry(
        "/cam/2025-01-15_12-02-00-front.mp4",
        Some(78.8), Some(78.0), None, None, None, None,
    );
    let summaries = vec![s1, s2, s3];
    let clips = wholes(&summaries, &[0, 1, 2]);
    let r = roll_up_telemetry(&summaries, &clips);
    assert_eq!(r.battery_pct_start.map(g), Some(80.0));
    assert_eq!(r.battery_pct_end.map(g), Some(78.0));
    assert_eq!(r.battery_pct_used.map(g), Some(2.0));
}

#[test]
fn rollup_interior_temp_uses_extremes_across_clips() {
    let s1 = clip_with_telemetry(
        "/cam/2025-01-15_12-00-00-front.mp4",
        None, None, Some(18.0), Some(22.0), None, None,
    );
    let s2 = clip_with_telemetry(
        "/cam/2025-01-15_12-01-00-front.mp4",
        None, None, Some(20.0), Some(28.0), None, None,
    );
    let s3 = clip_with_telemetry(
        "/cam/2025-01-15_12-02-00-front.mp4",
        None, None, Some(17.0), Some(25.0), None, None,
    );
    let summaries = vec![s1, s2, s3];
    let clips = wholes(&summaries, &[0, 1, 2]);
    let r = roll_up_telemetry(&summaries, &clips);
    assert_eq!(r.interior_temp_min_c.map(g), Some(17.0));
    assert_eq!(r.interior_temp_max_c.map(g), Some(28.0));
}

#[test]
fn rollup_hvac_runtime_sums_per_clip_estimates() {
    let s1 = clip_with_telemetry(
        "/cam/2025-01-15_12-00-00-front.mp4",
        None, None, None, None, None, Some(30),
    );
    let s2 = clip_with_telemetry(
        "/cam/2025-01-15_12-01-00-front.mp4",
        None, None, None, None, None, Some(60),
    );
    let s3 = clip_with_telemetry(
        "/cam/2025-01-15_12-02-00-front.mp4",
        None, None, None, None, None, Some(45),
    );
    let summaries = vec![s1, s2, s3];
    let clips = wholes(&summaries, &[0, 1, 2]);
    let r = roll_up_telemetry(&summaries, &clips);
    assert_eq!(r.hvac_runtime_s, Some(135));
}

#[test]
fn rollup_partial_telemetry_handles_missing_clips() {
    let s1 = clip_with_telemetry(
        "/cam/2025-01-15_12-00-00-front.mp4",
        Some(60.0), None, None, None, None, None,
    );
    let s2 = clip_with_telemetry(
        "/cam/2025-01-15_12-01-00-front.mp4",
        None, None, None, None, None, None,
    );
    let s3 = clip_with_telemetry(
        "/cam/2025-01-15_12-02-00-front.mp4",
        None, Some(55.0), None, None, None, None,
    );
    let summaries = vec![s1, s2, s3];
    let clips = wholes(&summaries, &[0, 1, 2]);
    let r = roll_up_telemetry(&summaries, &clips);
    assert_eq!(r.battery_pct_start.map(g), Some(60.0));
    assert_eq!(r.battery_pct_end.map(g), Some(55.0));
    assert_eq!(r.battery_pct_used.map(g), Some(5.0));
}

#[test]
fn rollup_dedupes_per_parent_file_across_sub_clips() {
    let s = clip_with_telemetry(
        "/cam/2025-01-15_12-00-00-front.mp4",
        Some(70.0), Some(69.0), None, None, None, Some(30),
    );
    let summaries = vec![s];
    let clips = vec![
        whole_clip(&summaries, Timed { index: 0, ts: ts(0) }),
        whole_clip(&summaries, Timed { index: 0, ts: ts(0) }),
    ];
    let r = roll_up_telemetry(&summaries, &clips);
    assert_eq!(r.hvac_runtime_s, Some(30), "dedupe: hvac counted once, not twice");
    assert_eq!(r.battery_pct_start.map(g), Some(70.0));
    assert_eq!(r.battery_pct_end.map(g), Some(69.0));
}
