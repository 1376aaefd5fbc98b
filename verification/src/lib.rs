//! Verified core of the drive store: clip telemetry, drive grouping and analytics.
#![allow(unused_imports)]

pub mod aggregate;
pub mod aggregate_laws;
pub mod analytics;
pub mod analytics_laws;
pub mod backfill;
pub mod blob;
pub mod calc;
pub mod calc_laws;
pub mod calendar;
pub mod candidates;
pub mod charging;
pub mod charging_laws;
pub mod clock;
pub mod drive;
pub mod drive_laws;
pub mod extract;
pub mod extract_laws;
pub mod float;
pub mod fsd_versions;
pub mod gapfill;
pub mod gapfill_laws;
pub mod grouper;
pub mod grouping_laws;
pub mod import;
pub mod intake;
pub mod laws;
pub mod list;
pub mod media;
pub mod nearness;
pub mod overlap;
pub mod overview;
pub mod processor;
pub mod rounding;
pub mod row_laws;
pub mod rows;
pub mod schema;
pub mod spacing_laws;
pub mod split;
pub mod split_laws;
pub mod starts;
pub mod store;
pub mod store_laws;
pub mod subclips;
pub mod summary;
pub mod summary_laws;
pub mod summon;
pub mod summon_laws;
pub mod syncguard;
pub mod text;
pub mod time_laws;
pub mod timeline;
pub mod totals;
pub mod track;
pub mod types;
