use sentryusb_drives::aggregate::compute_route_aggregates;
use sentryusb_drives::analytics::fsd_analytics_from_summaries_for_period;
use sentryusb_drives::backfill::backfill_row;
use sentryusb_drives::float::{F32, F64};
use sentryusb_drives::import::{
    bom_length, check_import_shrink, remember_import, section_of, ImportDiagnostics,
    ImportHistoryEntry, ImportStats, ImportWalk, Section,
};
use sentryusb_drives::intake::{record_file, record_route};
use sentryusb_drives::list::{find_drive_start_time, group_summaries_fast};
use sentryusb_drives::rows::{
    build_route_from_row, build_summary_from_row, RouteRecord, RowColumn, SummaryRow,
};
use sentryusb_drives::store::{
    backup_path, cache_markers, check_copied, choose_import, group_tags, is_drive_cache_valid,
    normalize_path, plan_key_rewrite, plan_load, plan_sync, processed_keys, rand_suffix4,
    rebuilds_on_load, serves_cached, should_restore, tags_to_store, CopyError, ImportChoice,
    KeyStep, LiveCounts, SyncState, SyncStep, TagRow, AGGREGATE_FORMULA_VERSION,
};
use sentryusb_drives::totals::compute_drive_caches;
use sentryusb_drives::types::{
    DriveSummary, ExtractedGps, GearRun, GpsPoint, Route, RouteSummary, TagEntry, AUTOPILOT_FSD, AUTOPILOT_OFF,
    GEAR_PARK,
};

fn f(x: f64) -> F64 {
    F64::from_bits(x.to_bits())
}

fn g(x: F64) -> f64 {
    f64::from_bits(x.to_bits())
}

fn f32s(v: &[f32]) -> Vec<F32> {
    v.iter().map(|x| F32::from_bits(x.to_bits())).collect()
}

fn pts(v: &[[f64; 2]]) -> Vec<GpsPoint> {
    v.iter().map(|q| GpsPoint { lat: f(q[0]), lng: f(q[1]) }).collect()
}

fn texts(v: &[&str]) -> Vec<String> {
    v.iter().map(|s| s.to_string()).collect()
}

/// Distance on a sphere; close enough for short hops.
fn geodesic(lat1: F64, lon1: F64, lat2: F64, lon2: F64) -> F64 {
    let rad = std::f64::consts::PI / 180.0;
    let (lat1, lon1, lat2, lon2) = (g(lat1) * rad, g(lon1) * rad, g(lat2) * rad, g(lon2) * rad);
    let a = ((lat2 - lat1) / 2.0).sin().powi(2)
        + lat1.cos() * lat2.cos() * ((lon2 - lon1) / 2.0).sin().powi(2);
    f(2.0 * 6_371_000.0 * a.sqrt().atan2((1.0 - a).sqrt()))
}

fn record(r: &Route) -> RouteRecord {
    record_route(r, 1_700_000_000, geodesic)
}

/// What the list reads of a stored clip.
fn summary_row(rec: &RouteRecord) -> SummaryRow {
    SummaryRow {
        file: rec.row.file.clone(),
        date: rec.row.date.clone(),
        raw_park_count: rec.row.raw_park_count,
        raw_frame_count: rec.row.raw_frame_count,
        gear_runs_blob: rec.row.gear_runs_blob.clone(),
        aggregates: rec.aggregates.clone(),
        source: rec.row.source.clone(),
        external_signature: rec.row.external_signature.clone(),
        telemetry: rec.row.telemetry.clone(),
    }
}

fn stored(r: &Route) -> RouteSummary {
    build_summary_from_row(summary_row(&record(r))).unwrap()
}

fn clip_at(file: &str, ap: Vec<u8>, gears: Vec<u8>, base_lat: f64) -> Route {
    let n = 61;
    let mut points = Vec::with_capacity(n);
    for i in 0..n {
        points.push([base_lat + (i as f64) * 0.00001, -122.4194]);
    }
    Route {
        file: file.to_string(),
        date: "2025-01-01".to_string(),
        points: pts(&points),
        gear_states: gears,
        autopilot_states: ap,
        speeds: f32s(&vec![10.0f32; n]),
        accel_positions: f32s(&vec![0.0f32; n]),
        raw_frame_count: 61,
        ..Default::default()
    }
}

fn boundary_clip(file: &str, ap: Vec<u8>, gears: Vec<u8>) -> RouteSummary {
    stored(&clip_at(file, ap, gears, 37.7749))
}

fn list(summaries: &[RouteSummary]) -> Vec<DriveSummary> {
    group_summaries_fast(summaries, &[], geodesic)
}

fn small_route() -> Route {
    Route {
        file: "2025-01-15/clip-front.mp4".to_string(),
        date: "2025-01-15".to_string(),
        points: pts(&[[37.7749, -122.4194], [37.7750, -122.4195]]),
        gear_states: vec![4, 4],
        autopilot_states: vec![1, 1],
        speeds: f32s(&[25.0, 26.0]),
        accel_positions: f32s(&[0.5, 0.6]),
        raw_park_count: 0,
        raw_frame_count: 2,
        gear_runs: vec![GearRun { gear: 4, frames: 2 }],
        ..Default::default()
    }
}

#[test]
fn roundtrip_route_is_bit_identical() {
    let r = small_route();
    let back = build_route_from_row(record(&r).row).unwrap();
    assert_eq!(back.points, pts(&[[37.7749, -122.4194], [37.7750, -122.4195]]));
    assert_eq!(back.gear_states, vec![4, 4]);
    assert_eq!(back.autopilot_states, vec![1, 1]);
    assert_eq!(back.speeds, f32s(&[25.0, 26.0]));
    assert_eq!(back.accel_positions, f32s(&[0.5, 0.6]));
    assert_eq!(back.raw_frame_count, 2);
    assert_eq!(back.gear_runs.len(), 1);
}

#[test]
fn stored_aggregates_read_back() {
    let r = clip_at("x-front.mp4", vec![AUTOPILOT_FSD; 61], vec![4; 61], 37.0);
    let a = compute_route_aggregates(&r, geodesic);
    let back = stored(&r).aggregates;
    assert_eq!(back.distance_m, a.distance_m);
    assert_eq!(back.fsd_engaged_ms, a.fsd_engaged_ms);
    assert_eq!(back.fsd_at_end, true);
    assert_eq!(back.ap_at_start, Some(1));
    assert_eq!(back.start_lat, a.start_lat);
    assert_eq!(back.end_lng, a.end_lng);
}

#[test]
fn a_torn_row_names_its_column() {
    let mut row = record(&small_route()).row;
    row.speeds_blob = Some(vec![0; 5]);
    let e = build_route_from_row(row).unwrap_err();
    assert_eq!(e.file, "2025-01-15/clip-front.mp4");
    assert!(matches!(e.column, RowColumn::Speeds));
    let mut points = record(&small_route()).row;
    points.points_blob = Some(vec![0; 15]);
    assert!(matches!(build_route_from_row(points).unwrap_err().column, RowColumn::Points));
    let mut accel = record(&small_route()).row;
    accel.accel_blob = Some(vec![0; 7]);
    assert!(matches!(build_route_from_row(accel).unwrap_err().column, RowColumn::Accel));
    let mut runs = summary_row(&record(&small_route()));
    runs.gear_runs_blob = Some(vec![0; 4]);
    assert!(matches!(build_summary_from_row(runs).unwrap_err().column, RowColumn::GearRuns));
}

#[test]
fn aggregate_formula_migration_recomputes_without_violating_not_null() {
    let plan = plan_load(Some("canon-1"), Some("stale-test"));
    assert!(plan.recompute && !plan.rewrite_keys);
    let r = Route {
        file: "a.mp4".to_string(),
        date: "2025-01-01".to_string(),
        points: pts(&[[37.7749, -122.4194], [37.7760, -122.4180]]),
        gear_states: vec![4, 4],
        autopilot_states: vec![1, 1],
        speeds: f32s(&[20.0, 21.0]),
        accel_positions: f32s(&[0.0, 0.0]),
        raw_frame_count: 2,
        ..Default::default()
    };
    let mut stale = record(&r);
    stale.aggregates.distance_m = Some(f(999.0));
    stale.aggregates.max_speed_mps = Some(f(12.3));
    let before = build_summary_from_row(summary_row(&stale)).unwrap();
    assert_eq!(g(before.aggregates.distance_m), 999.0);
    let a = backfill_row(stale.row, geodesic).unwrap();
    assert!(g(a.distance_m) > 0.0);
    assert!(
        (g(a.distance_m) - 999.0).abs() > 1.0,
        "stale distance should have been recomputed, got {}",
        g(a.distance_m)
    );
    assert_eq!(g(a.max_speed_mps), 21.0);
    assert_eq!(a.valid_point_count, 2);
    assert!(!plan_load(Some("canon-1"), Some(AGGREGATE_FORMULA_VERSION)).recompute);
}

#[test]
fn disengagement_boundary_resolved_across_clips() {
    let pend_ap: Vec<u8> =
        (0..61).map(|i| if i < 59 { AUTOPILOT_FSD } else { AUTOPILOT_OFF }).collect();
    let mut park_gears = vec![4u8; 61];
    park_gears[0] = GEAR_PARK;
    park_gears[1] = GEAR_PARK;
    let summaries = vec![
        boundary_clip("2025-01-01/2025-01-01_10-00-00-front.mp4", pend_ap.clone(), vec![4; 61]),
        boundary_clip("2025-01-01/2025-01-01_10-01-00-front.mp4", vec![AUTOPILOT_OFF; 61], park_gears),
        boundary_clip("2025-01-01/2025-01-01_13-00-00-front.mp4", pend_ap, vec![4; 61]),
        boundary_clip("2025-01-01/2025-01-01_13-01-00-front.mp4", vec![AUTOPILOT_OFF; 61], vec![4; 61]),
    ];
    let drives = list(&summaries);
    assert_eq!(drives.len(), 2, "expected two drives");
    let dis_for = |start: &str| -> i32 {
        drives.iter().find(|d| d.start_time.starts_with(start)).unwrap().fsd_disengagements
    };
    assert_eq!(
        dis_for("2025-01-01T10:00"), 0,
        "park within grace across the clip seam must cancel the disengagement"
    );
    assert_eq!(
        dis_for("2025-01-01T13:00"), 1,
        "no park across the seam must count the disengagement"
    );
}

#[test]
fn trailing_pending_disengagement_counts_at_drive_end() {
    let pend_ap: Vec<u8> =
        (0..61).map(|i| if i < 59 { AUTOPILOT_FSD } else { AUTOPILOT_OFF }).collect();
    let drives = list(&[boundary_clip(
        "2025-01-01/2025-01-01_10-00-00-front.mp4",
        pend_ap,
        vec![4; 61],
    )]);
    assert_eq!(drives[0].fsd_disengagements, 1);
}

#[test]
fn non_sei_sources_excluded_from_fsd_stats() {
    let mut r = clip_at(
        "2025-01-01/2025-01-01_10-00-00-front.mp4",
        vec![AUTOPILOT_FSD; 61],
        vec![4; 61],
        37.7749,
    );
    r.source = Some("teslascope".to_string());
    let caches = compute_drive_caches(&[stored(&r)], &[], 20_000, geodesic);
    assert!(
        g(caches.totals.total_distance_km) > 0.0,
        "imported drives still count toward totals"
    );
    assert_eq!(
        g(caches.totals.fsd_distance_km), 0.0,
        "imported drives must not feed FSD analytics"
    );
}

#[test]
fn fsd_seam_time_and_bridge_distance_attributed() {
    let summaries = vec![
        stored(&clip_at(
            "2025-01-01/2025-01-01_10-00-00-front.mp4",
            vec![AUTOPILOT_FSD; 61],
            vec![4; 61],
            37.7749,
        )),
        stored(&clip_at(
            "2025-01-01/2025-01-01_10-01-02-front.mp4",
            vec![AUTOPILOT_FSD; 61],
            vec![4; 61],
            37.7760,
        )),
    ];
    let drives = list(&summaries);
    let engaged = drives[0].fsd_engaged_ms;
    assert!(
        (121_500..=122_500).contains(&engaged),
        "2s seam must join the 2x60s of engaged time, got {engaged}"
    );
    let fsd_km = g(drives[0].fsd_distance_km);
    assert!(
        fsd_km > 0.17,
        "bridge segment (~55m) must count as FSD distance on top of ~133m in-clip, got {fsd_km}"
    );
}

#[test]
fn analytics_avgs_use_sei_drive_denominator_and_sd_grades() {
    let ap1: Vec<u8> =
        (0..61).map(|i| if i < 55 { AUTOPILOT_FSD } else { AUTOPILOT_OFF }).collect();
    let summaries = vec![
        boundary_clip("2025-01-01/2025-01-01_10-00-00-front.mp4", ap1, vec![4; 61]),
        boundary_clip(
            "2025-01-01/2025-01-01_13-00-00-front.mp4",
            vec![AUTOPILOT_OFF; 61],
            vec![4; 61],
        ),
    ];
    let analytics = fsd_analytics_from_summaries_for_period(&summaries, "all", 20_000, geodesic);
    assert_eq!(
        g(analytics.avg_disengagements_per_drive), 0.5,
        "avg must use the SEI drive count as denominator"
    );
    assert!(
        (40.0..70.0).contains(&g(analytics.fsd_percent)),
        "fixture should land in the Okay band, got {}",
        g(analytics.fsd_percent)
    );
    assert_eq!(analytics.fsd_grade, "Okay");
}

#[test]
fn aggregate_formula_gate_invalidates_drive_caches() {
    let live = LiveCounts { route_count: 1, tags_count: 0, max_updated_at: 1_700_000_000 };
    let markers = cache_markers("[]".to_string(), live);
    let valid = is_drive_cache_valid(&markers, live);
    assert!(valid);
    // New aggregates force a rebuild though the markers still match.
    assert!(rebuilds_on_load(plan_load(Some("canon-1"), Some("stale-test")), valid));
    assert!(!rebuilds_on_load(plan_load(Some("canon-1"), Some("boundary-3")), valid));
}

#[test]
fn normalize_path_canonicalizes_recentclips_prefix() {
    assert_eq!(
        normalize_path("RecentClips/2026-06-07/x-front.mp4"),
        "2026-06-07/x-front.mp4"
    );
    assert_eq!(
        normalize_path("RecentClips\\2026-06-07\\x-front.mp4"),
        "2026-06-07/x-front.mp4"
    );
    assert_eq!(
        normalize_path("2026-06-07/x-front.mp4"),
        "2026-06-07/x-front.mp4"
    );
    assert_eq!(
        normalize_path("SavedClips/2026-06-07_10-00-00/x-front.mp4"),
        "SavedClips/2026-06-07_10-00-00/x-front.mp4"
    );
    assert_eq!(normalize_path("MyRecentClips/x.mp4"), "MyRecentClips/x.mp4");
    assert_eq!(normalize_path("RecentClips/x-front.mp4"), "x-front.mp4");
    assert_eq!(
        normalize_path("tessie/2026-04-18/x-front-tessie-1.mp4"),
        "tessie/2026-04-18/x-front-tessie-1.mp4"
    );
}

#[test]
fn native_and_imported_route_share_one_canonical_row() {
    let mut native = small_route();
    native.file = "RecentClips/2026-06-07/c-front.mp4".to_string();
    let mut imported = small_route();
    imported.file = "2026-06-07\\c-front.mp4".to_string();
    assert_eq!(record(&native).row.file, "2026-06-07/c-front.mp4");
    assert_eq!(record(&imported).row.file, "2026-06-07/c-front.mp4");

    let set = processed_keys(&vec![], &[native, imported]);
    assert!(set.contains(&"2026-06-07/c-front.mp4".to_string()));
    assert!(!set.iter().any(|k| k.starts_with("RecentClips/")));
}

#[test]
fn route_key_canon_migration_dedupes_and_renames() {
    let files = texts(&[
        "2026-06-07/dup-front.mp4",
        "RecentClips/2026-06-07/dup-front.mp4",
        "RecentClips/2026-06-08/lone-front.mp4",
        "SavedClips/2026-06-07_10-00-00/ev-front.mp4",
    ]);
    let plan = plan_key_rewrite(&files);
    assert_eq!(plan, vec![KeyStep::Delete, KeyStep::Rename, KeyStep::Rename, KeyStep::Delete]);
    let left: Vec<String> = files
        .iter()
        .zip(plan.iter())
        .filter(|(_, s)| **s != KeyStep::Delete)
        .map(|(k, _)| normalize_path(k))
        .collect();
    assert_eq!(left, vec!["2026-06-07/dup-front.mp4", "2026-06-08/lone-front.mp4"]);
    // What is canonical stays.
    assert_eq!(plan_key_rewrite(&left), vec![KeyStep::Keep, KeyStep::Keep]);
}

#[test]
fn route_summary_reads_precomputed_aggregates() {
    let mut r = small_route();
    r.points = pts(&[[37.7749, -122.4194], [37.7750, -122.4194]]);
    assert!(g(stored(&r).aggregates.distance_m) > 0.0);
}

#[test]
fn path_normalization_dedups_windows_and_posix() {
    let keys = processed_keys(&texts(&["2025\\01\\clip.mp4", "2025/01/clip.mp4"]), &[]);
    assert_eq!(keys.len(), 1);
    assert_eq!(keys[0], normalize_path("2025\\01\\clip.mp4"));
    assert_eq!(keys[0], normalize_path("2025/01/clip.mp4"));
}

#[test]
fn keys_are_settled() {
    let once = normalize_path("RecentClips\\2026\\x.mp4");
    assert_eq!(normalize_path(&once), once);
    // A doubled prefix loses one level at a time.
    let twice = normalize_path("RecentClips/RecentClips/x.mp4");
    assert_eq!(twice, "RecentClips/x.mp4");
}

#[test]
fn drive_tags_join_on_start_time_string_not_numeric_id() {
    let mut r = small_route();
    r.file = "2025-01-15_12-30-45-front.mp4".to_string();
    r.autopilot_states = vec![0, 0];
    r.speeds = f32s(&[10.0, 10.0]);
    r.accel_positions = f32s(&[0.0, 0.0]);
    let summaries = vec![stored(&r)];
    let drives = list(&summaries);
    assert_eq!(drives[0].id, 0);
    assert_eq!(drives[0].start_time, "2025-01-15T12:30:45");

    let resolved = find_drive_start_time(&summaries, "0");
    assert_eq!(resolved.as_deref(), Some("2025-01-15T12:30:45"));
    let resolved_st = find_drive_start_time(&summaries, "2025-01-15T12:30:45");
    assert_eq!(resolved_st.as_deref(), Some("2025-01-15T12:30:45"));
    assert!(find_drive_start_time(&summaries, "999").is_none());

    let bad = vec![TagEntry { key: "0".to_string(), tags: texts(&["BugCanary"]) }];
    assert!(group_summaries_fast(&summaries, &bad, geodesic)[0].tags.is_empty());
    let good = vec![TagEntry { key: resolved.unwrap(), tags: texts(&["Work"]) }];
    assert_eq!(group_summaries_fast(&summaries, &good, geodesic)[0].tags, texts(&["Work"]));
}

#[test]
fn tag_rows_are_grouped_by_key() {
    let row = |k: &str, t: &str| TagRow { key: k.to_string(), tag: t.to_string() };
    let out = group_tags(vec![row("a", "Home"), row("b", "Work"), row("a", "Long")]);
    assert_eq!(out.len(), 2);
    assert_eq!((out[0].key.as_str(), &out[0].tags), ("a", &texts(&["Home", "Long"])));
    assert_eq!((out[1].key.as_str(), &out[1].tags), ("b", &texts(&["Work"])));
    assert_eq!(tags_to_store(&texts(&["x", "", "y", "x"])), texts(&["x", "y"]));
}

#[test]
fn caches_go_stale() {
    let live = LiveCounts { route_count: 3, tags_count: 1, max_updated_at: -5 };
    let m = cache_markers("[1]".to_string(), live);
    assert!(is_drive_cache_valid(&m, live));
    assert!(!is_drive_cache_valid(&m, LiveCounts { route_count: 4, ..live }));
    assert!(!is_drive_cache_valid(&m, LiveCounts { tags_count: 0, ..live }));
    assert!(!is_drive_cache_valid(&m, LiveCounts { max_updated_at: 5, ..live }));
    let mut old = cache_markers("[1]".to_string(), live);
    old.algo = Some("5".to_string());
    assert!(!is_drive_cache_valid(&old, live));
    assert!(!is_drive_cache_valid(&cache_markers(String::new(), live), live));
}

#[test]
fn empty_caches_are_not_served() {
    assert!(serves_cached(false, Some("[]"), false));
    assert!(!serves_cached(true, Some("[]"), false));
    assert!(!serves_cached(false, Some(" {} "), true));
    assert!(serves_cached(false, Some("{\"a\":1}"), true));
    assert!(!serves_cached(false, Some(""), false));
    assert!(!serves_cached(false, None, false));
}

fn sync(archive: bool, mirror: bool, routes: i64, samples: i64, last: Option<(&str, &str)>) -> SyncStep {
    plan_sync(&SyncState {
        archive_exists: archive,
        mirror_exists: mirror,
        routes,
        samples,
        last_routes: last.map(|l| l.0.to_string()),
        last_samples: last.map(|l| l.1.to_string()),
    })
}

#[test]
fn archive_sync_pushes_then_skips_until_new_routes() {
    assert_eq!(sync(false, false, 1, 0, None), SyncStep::Export);
    assert_eq!(sync(true, true, 1, 0, Some(("1", "0"))), SyncStep::Skip);
    assert_eq!(sync(true, true, 2, 0, Some(("1", "0"))), SyncStep::Export);
}

#[test]
fn archive_sync_pushes_when_only_telemetry_added() {
    assert_eq!(sync(true, true, 1, 1, Some(("1", "0"))), SyncStep::Export);
    assert_eq!(sync(true, true, 1, 1, Some(("1", "1"))), SyncStep::Skip);
}

#[test]
fn archive_sync_noop_on_empty_store() {
    assert_eq!(sync(false, false, 0, 0, None), SyncStep::Nothing);
}

#[test]
fn archive_sync_restores_into_empty_store_without_clobbering() {
    assert_eq!(sync(true, false, 0, 0, None), SyncStep::Restore);
    assert_eq!(sync(true, true, 0, 0, None), SyncStep::Nothing);
    assert!(should_restore(true, false, 0));
    assert!(!should_restore(false, false, 0));
}

#[test]
fn archive_sync_prefers_push_when_store_has_data() {
    assert_eq!(sync(true, false, 1, 0, None), SyncStep::Export);
}

#[test]
fn short_copies_are_refused() {
    assert!(check_copied(10, 10).is_ok());
    assert!(matches!(check_copied(9, 10), Err(CopyError::Short(9, 10))));
}

#[test]
fn the_first_start_imports_once() {
    assert_eq!(choose_import(Some("2025"), &vec![true]), ImportChoice::Done);
    assert_eq!(choose_import(Some(""), &vec![false, true]), ImportChoice::From(1));
    assert_eq!(choose_import(None, &vec![false, false]), ImportChoice::Fresh);
}

#[test]
fn backups_carry_time_and_suffix() {
    assert_eq!(backup_path("/a.json", 1_700_000_000, 0x0b3f), "/a.json.bak-1700000000-0b3f");
    assert_eq!(rand_suffix4(0), 0);
    assert_eq!(rand_suffix4(1), 129);
}

fn walk(routes: &[(&str, usize, &str)]) -> ImportWalk {
    let mut w = ImportWalk::new();
    for (file, points, date) in routes {
        w.see_route(file, *points, date);
    }
    w
}

#[test]
fn diagnostics_flag_empty_points() {
    let w = walk(&[
        ("2025-01-15_12-00-00/clip.mp4", 0, "2025-01-15"),
        ("2025-01-15_12-05-00/clip.mp4", 1, "2025-01-15"),
    ]);
    assert_eq!(w.stats.routes, 2);
    assert_eq!(w.diag.empty_points, 1);
    assert_eq!(w.diag.empty_date, 0);
    assert_eq!(w.diag.duplicate_files_in_json, 0);
    assert!(w.diag.bad_examples.iter().any(|e| e.contains("12-00-00")));
}

#[test]
fn diagnostics_flag_duplicate_file_paths_after_normalization() {
    let w = walk(&[
        ("2025-01-15_12-00-00\\clip.mp4", 1, "2025-01-15"),
        ("2025-01-15_12-00-00/clip.mp4", 1, "2025-01-15"),
    ]);
    assert_eq!(w.diag.duplicate_files_in_json, 1);
    assert!(w.diag.has_problems());
}

#[test]
fn diagnostics_clean_import_has_no_problems() {
    let w = walk(&[("2025-01-15_12-00-00/clip.mp4", 2, "2025-01-15")]);
    assert_eq!(w.stats.routes, 1);
    assert_eq!(w.diag.seen, 1);
    assert!(!w.diag.has_problems(), "clean import should not flag problems");
}

#[test]
fn route_with_unparseable_filename_still_imports() {
    let w = walk(&[("weird-file-no-timestamp.mp4", 2, "2025-01-15")]);
    assert_eq!(w.stats.routes, 1);
    assert!(!w.diag.has_problems());
    let mut r = small_route();
    r.file = "weird-file-no-timestamp.mp4".to_string();
    assert!(list(&[stored(&r)]).is_empty());
}

#[test]
fn import_preserves_telemetry_columns() {
    let r = Route {
        file: "2025-01-15_12-00-00/clip.mp4".to_string(),
        date: "2025-01-15".to_string(),
        points: pts(&[[37.0, -122.0], [37.1, -122.1]]),
        battery_pct_start: Some(f(80.5)),
        battery_pct_end: Some(f(79.0)),
        hvac_runtime_s: Some(30),
        odometer_mi_start: Some(f(1000.5)),
        odometer_mi_end: Some(f(1001.0)),
        location_name_start: Some("Home St".to_string()),
        tire_fl_psi: Some(f(42.5)),
        ..Default::default()
    };
    let t = record(&r).row.telemetry;
    assert_eq!(t.battery_pct_start.map(g), Some(80.5));
    assert_eq!(t.battery_pct_end.map(g), Some(79.0));
    assert_eq!(t.hvac_runtime_s, Some(30));
    assert_eq!(t.odometer_mi_start.map(g), Some(1000.5));
    assert_eq!(t.odometer_mi_end.map(g), Some(1001.0));
    assert_eq!(t.location_name_start.as_deref(), Some("Home St"));
    assert_eq!(t.tire_fl_psi.map(g), Some(42.5));
}

#[test]
fn examples_are_few() {
    let mut w = ImportWalk::new();
    for i in 0..30 {
        w.see_route(&format!("{i}.mp4"), 0, "");
    }
    assert_eq!(w.diag.empty_points, 30);
    assert_eq!(w.diag.empty_date, 30);
    assert!(w.diag.bad_examples.len() < 30);
    assert_eq!(w.diag.bad_examples[0], "0.mp4");
}

#[test]
fn sections_are_counted() {
    let mut w = ImportWalk::new();
    for (key, n) in [
        ("processedFiles", 5),
        ("driveTags", 2),
        ("telemetrySamples", 7),
        ("telemetrySamples", 1),
        ("chargeTags", 3),
        ("chargeCosts", 4),
        ("somethingElse", 9),
    ] {
        w.note_section(section_of(key), n);
    }
    assert_eq!(w.stats.processed_files, 5);
    assert_eq!(w.stats.drive_tags, 2);
    assert_eq!(w.stats.telemetry_samples, 8);
    assert_eq!(w.stats.charge_tags, 3);
    assert_eq!(w.stats.charge_costs, 4);
    assert!(matches!(section_of("routes"), Section::Routes));
    assert!(matches!(section_of("somethingElse"), Section::Unknown));
}

#[test]
fn byte_order_marks_are_skipped() {
    assert_eq!(bom_length(&[0xEF, 0xBB, 0xBF, b'{']), 3);
    assert_eq!(bom_length(b"{}"), 0);
}

#[test]
fn an_import_must_not_lose_half_the_store() {
    let e = check_import_shrink(1000, 10).unwrap_err();
    assert_eq!((e.existing, e.routes), (1000, 10));
    assert!(check_import_shrink(1000, 1000).is_ok());
    assert!(check_import_shrink(1001, 500).is_err());
    assert!(check_import_shrink(1001, 501).is_ok());
    assert!(check_import_shrink(1000, 500).is_ok());
    assert!(check_import_shrink(999, 0).is_ok());
    assert!(check_import_shrink(0, 0).is_ok());
    // A smaller store takes what a larger one takes, and more of it.
    for (existing, routes) in [(1000, 500), (1001, 501)] {
        assert!(check_import_shrink(existing - 1, routes).is_ok());
        assert!(check_import_shrink(existing, routes + 1).is_ok());
    }
}

#[test]
fn old_imports_are_forgotten() {
    let mut history: Vec<ImportHistoryEntry> = Vec::new();
    for i in 0..50 {
        history = remember_import(
            history,
            ImportHistoryEntry {
                timestamp: i,
                stats: ImportStats::default(),
                diagnostics: ImportDiagnostics::default(),
            },
        );
    }
    assert!(history.len() < 50);
    assert_eq!(history.last().unwrap().timestamp, 49);
}

#[test]
fn a_file_is_stored_under_its_key() {
    let r = small_route();
    let mut gps = ExtractedGps::empty();
    assert!(record_file("RecentClips/d/x-front.mp4", "d", &gps, 5, geodesic).is_none());
    gps.points = r.points.clone();
    gps.gear_states = r.gear_states.clone();
    gps.autopilot_states = r.autopilot_states.clone();
    gps.speeds = r.speeds.clone();
    gps.accel_positions = r.accel_positions.clone();
    gps.raw_frame_count = 2;
    gps.gear_runs = r.gear_runs.clone();
    let rec = record_file("RecentClips/d/x-front.mp4", "d", &gps, 5, geodesic).unwrap();
    assert_eq!((rec.row.file.as_str(), rec.row.date.as_str()), ("d/x-front.mp4", "d"));
    assert_eq!((rec.point_count, rec.updated_at), (2, 5));
    assert_eq!(rec.first_lat.map(g), Some(37.7749));
    let back = build_route_from_row(rec.row).unwrap();
    assert_eq!(back.points, r.points);
    assert_eq!(back.gear_runs.len(), 1);
}
