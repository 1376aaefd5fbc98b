use sentryusb_drives::backfill::{
    backfill_batch_done, backfill_failed, backfill_start, is_disk_full, migration_begin,
    migration_finish_ok, migration_idle, migration_status, BackfillStats,
};
use sentryusb_drives::fsd_versions::fsd_version_for;
use sentryusb_drives::schema::{
    columns_to_add, stored_less_than, truncate, version_to_write, V2_ROUTE_AGGREGATE_COLUMNS,
};
use sentryusb_drives::syncguard::{
    check_sync_size_guard, parse_sync_cache, sync_cache_text, MIN_THRESHOLD_BYTES,
};

#[test]
fn known_mappings_resolve() {
    assert_eq!(fsd_version_for("2026.2.9.10"), Some("v14.3.2"));
    assert_eq!(fsd_version_for("2026.14.6.6"), Some("v14.3.3"));
}

#[test]
fn unknown_software_returns_none() {
    assert_eq!(fsd_version_for("9999.99.99.99"), None);
    assert_eq!(fsd_version_for(""), None);
}

#[test]
fn migrate_from_empty_sets_schema_version() {
    assert_eq!(version_to_write(None).as_deref(), Some("2"));
}

#[test]
fn migrate_idempotent() {
    let first = version_to_write(None).unwrap();
    assert_eq!(version_to_write(Some(&first)), None);
    let all: Vec<String> =
        V2_ROUTE_AGGREGATE_COLUMNS.iter().map(|c| c.0.to_string()).collect();
    assert!(columns_to_add(&all).is_empty());
}

#[test]
fn migrate_from_v1_adds_aggregate_columns() {
    let v1: Vec<String> = ["file", "date", "points_blob"].iter().map(|s| s.to_string()).collect();
    let steps = columns_to_add(&v1);
    assert_eq!(steps.len(), V2_ROUTE_AGGREGATE_COLUMNS.len());
    for (i, (name, typ)) in V2_ROUTE_AGGREGATE_COLUMNS.iter().enumerate() {
        assert_eq!(steps[i], format!("ALTER TABLE routes ADD COLUMN {} {}", name, typ));
    }
    assert_eq!(version_to_write(Some("1")).as_deref(), Some("2"));
}

#[test]
fn migrate_preserves_future_version_marker() {
    assert_eq!(
        version_to_write(Some("99")),
        None,
        "future-version marker must not be clobbered"
    );
}

#[test]
fn stored_less_than_handles_corrupted_values() {
    assert!(stored_less_than("", 2));
    assert!(stored_less_than("garbage", 2));
    assert!(stored_less_than("1", 2));
    assert!(!stored_less_than("2", 2));
    assert!(!stored_less_than("99", 2));
}

#[test]
fn stored_versions_are_read_as_numbers() {
    assert!(!stored_less_than(" +2\n", 2));
    assert!(stored_less_than("-7", 2));
    assert!(stored_less_than("99999999999", 2));
    assert!(stored_less_than("2 0", 2));
}

#[test]
fn only_missing_columns_are_added() {
    let mut all: Vec<String> =
        V2_ROUTE_AGGREGATE_COLUMNS.iter().map(|c| c.0.to_string()).collect();
    let gone = all.remove(3);
    let steps = columns_to_add(&all);
    assert_eq!(steps, vec![format!("ALTER TABLE routes ADD COLUMN {} INTEGER", gone)]);
}

#[test]
fn long_statements_are_cut() {
    assert_eq!(truncate("SELECT 1", 80), "SELECT 1");
    assert_eq!(truncate("SELECT 1", 6), "SELECT...");
}

#[test]
fn guard_fails_open_on_first_sync() {
    assert!(check_sync_size_guard(100, 0).is_ok());
}

#[test]
fn guard_fails_open_below_threshold() {
    assert!(check_sync_size_guard(10, 1024 * 1024).is_ok());
    assert!(check_sync_size_guard(100_000, 1024 * 1024).is_ok());
}

#[test]
fn guard_refuses_truncated_sync() {
    let err = check_sync_size_guard(5_000_000, 20_000_000).unwrap_err();
    assert_eq!(err.new_size, 5_000_000);
    assert_eq!(err.last_size, 20_000_000);
    assert_eq!(f64::from_bits(err.ratio_pct.to_bits()), 50.0);
}

#[test]
fn guard_allows_small_shrink() {
    assert!(check_sync_size_guard(15_000_000, 20_000_000).is_ok());
}

#[test]
fn guard_allows_growth() {
    assert!(check_sync_size_guard(100_000_000, 20_000_000).is_ok());
}

#[test]
fn guard_asks_for_half() {
    assert!(check_sync_size_guard(10_000_000, 20_000_000).is_ok());
    assert!(check_sync_size_guard(9_999_999, 20_000_000).is_err());
    let odd = check_sync_size_guard(10_000_000, 20_000_001).unwrap_err();
    assert_eq!((odd.new_size, odd.last_size), (10_000_000, 20_000_001));
    assert!(check_sync_size_guard(10_000_001, 20_000_001).is_ok());
    assert!(check_sync_size_guard(i64::MAX, i64::MAX).is_ok());
    assert!(check_sync_size_guard(i64::MIN, i64::MAX).is_err());
    assert!(check_sync_size_guard(0, MIN_THRESHOLD_BYTES - 1).is_ok());
    assert!(check_sync_size_guard(0, MIN_THRESHOLD_BYTES).is_err());
}

#[test]
fn bytes_are_lost_by_halves() {
    let sizes: [i64; 4] = [80_000_001, 40_000_001, 20_000_001, 10_000_001];
    for pair in sizes.windows(2) {
        assert!(check_sync_size_guard(pair[1], pair[0]).is_ok());
        assert!(check_sync_size_guard(pair[0] / 2, pair[0]).is_err());
    }
    assert!(sizes[0] <= 8 * sizes[3]);
}

#[test]
fn cache_read_fail_open_on_corrupt() {
    assert_eq!(parse_sync_cache("not-a-number"), 0);
    assert_eq!(parse_sync_cache(""), 0);
    assert_eq!(parse_sync_cache("-5"), 0);
    assert_eq!(parse_sync_cache("9223372036854775808"), 0);
    assert_eq!(parse_sync_cache(" 42000_000 "), 0);
    assert!(check_sync_size_guard(0, parse_sync_cache(" 42000_000 ")).is_ok());
}

#[test]
fn cache_roundtrip() {
    let text = sync_cache_text(42_000_000).unwrap();
    assert_eq!(text, "42000000");
    assert_eq!(parse_sync_cache(&text), 42_000_000);
    assert_eq!(parse_sync_cache(" 42000000\n"), 42_000_000);
    assert_eq!(parse_sync_cache(&sync_cache_text(i64::MAX).unwrap()), i64::MAX);
}

#[test]
fn cache_negative_size_rejected() {
    assert!(sync_cache_text(-1).is_none());
}

#[test]
fn a_full_disk_is_told_in_any_case() {
    assert!(is_disk_full("Database or DISK IS FULL"));
    assert!(is_disk_full("disk I/O error"));
    assert!(is_disk_full("write failed: No space left on device (os error 28)"));
    assert!(!is_disk_full("constraint failed"));
    assert!(!is_disk_full(""));
}

#[test]
fn a_backfill_counts_its_batches() {
    let mut state = migration_idle();
    let mut stats = BackfillStats { updated: 0 };
    assert!(!backfill_start(&mut state, 0));
    assert!(!state.active);
    assert!(backfill_start(&mut state, 250));
    assert!(state.active && state.total == 250 && state.done == 0);
    assert!(backfill_batch_done(&mut state, &mut stats, 200));
    assert!(backfill_batch_done(&mut state, &mut stats, 50));
    assert_eq!((state.done, stats.updated), (250, 250));
    assert!(!backfill_batch_done(&mut state, &mut stats, 0));
    assert!(!state.active);
    assert_eq!(migration_status(&state).done, 250);
}

#[test]
fn a_failed_backfill_keeps_its_message() {
    let mut state = migration_idle();
    migration_begin(&mut state, 3);
    backfill_failed(&mut state, "no space left on device");
    assert!(!state.active && state.disk_full);
    assert_eq!(state.error, "no space left on device");
    migration_begin(&mut state, 3);
    assert!(state.active && !state.disk_full && state.error.is_empty());
    migration_finish_ok(&mut state);
    assert!(!state.active);
}
