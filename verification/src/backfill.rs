//! Progress of the aggregate backfill.

use crate::aggregate::{aggregates_of, compute_route_aggregates, measured};
use crate::clock::{sat_add, sum_held};
use crate::float::F64;
use crate::rows::{RouteRow, RowError, broken_column, build_route_from_row, bytes_in, is_clip_of};
use crate::store::lower;
use crate::text::{chars_of, contains_text, holds};
use crate::types::{Route, RouteAggregates};
use vstd::prelude::*;

verus! {

/// Clips per batch.
pub const BACKFILL_BATCH_SIZE: i64 = 200;

/// What a backfill did.
#[derive(Clone, Copy, Debug, PartialEq, Eq, Structural)]
pub struct BackfillStats {
    pub updated: i64,
}

/// Where the migration stands.
#[derive(Clone, Debug)]
pub struct MigrationStatus {
    pub active: bool,
    pub done: i64,
    pub total: i64,
    pub error: String,
    pub disk_full: bool,
}

/// What `str::to_lowercase` makes of a text with characters beyond ASCII.
pub uninterp spec fn lowercased_beyond(text: Seq<char>) -> Seq<char>;

/// The text is ASCII.
pub open spec fn is_plain(text: Seq<char>) -> bool {
    forall|i: int| 0 <= i < text.len() ==> (#[trigger] text[i]) as u32 <= 127
}

/// An ASCII text in lower case.
pub open spec fn lowered(text: Seq<char>) -> Seq<char> {
    Seq::new(text.len(), |i: int| lower(text[i]))
}

/// `str::to_lowercase` of the standard library. Claims that an ASCII text has its
/// letters A to Z in lower case, and that the result depends on the text alone for
/// any other. What it is there is left unsaid.
#[verifier::external_body]
pub(crate) fn lowercase(text: &str) -> (r: String)
    ensures
        is_plain(text@) ==> r@ == lowered(text@),
        !is_plain(text@) ==> r@ == lowercased_beyond(text@),
{
    text.to_lowercase()
}

/// A text in lower case.
pub open spec fn lowercased(text: Seq<char>) -> Seq<char> {
    if is_plain(text) {
        lowered(text)
    } else {
        lowercased_beyond(text)
    }
}

/// Two states agree.
pub open spec fn same_status(a: MigrationStatus, b: MigrationStatus) -> bool {
    a.active == b.active && a.done == b.done && a.total == b.total && a.error@ == b.error@
        && a.disk_full == b.disk_full
}

/// No migration has run.
pub fn migration_idle() -> (r: MigrationStatus)
    ensures
        !r.active,
        r.done == 0,
        r.total == 0,
        r.error@.len() == 0,
        !r.disk_full,
{
    MigrationStatus { active: false, done: 0, total: 0, error: String::new(), disk_full: false }
}

/// A snapshot of the state.
pub fn migration_status(state: &MigrationStatus) -> (r: MigrationStatus)
    ensures
        same_status(r, *state),
{
    MigrationStatus {
        active: state.active,
        done: state.done,
        total: state.total,
        error: state.error.clone(),
        disk_full: state.disk_full,
    }
}

/// A migration of `total` clips begins.
pub fn migration_begin(state: &mut MigrationStatus, total: i64)
    ensures
        final(state).active,
        final(state).done == 0,
        final(state).total == total,
        final(state).error@.len() == 0,
        !final(state).disk_full,
{
    state.done = 0;
    state.total = total;
    state.disk_full = false;
    state.error = String::new();
    state.active = true;
}

/// The migration ended well.
pub fn migration_finish_ok(state: &mut MigrationStatus)
    ensures
        !final(state).active,
        final(state).done == old(state).done,
        final(state).total == old(state).total,
        final(state).error@ == old(state).error@,
        final(state).disk_full == old(state).disk_full,
{
    state.active = false;
}

/// The migration failed.
pub fn migration_finish_err(state: &mut MigrationStatus, msg: &str, disk_full: bool)
    ensures
        !final(state).active,
        final(state).done == old(state).done,
        final(state).total == old(state).total,
        final(state).error@ == msg@,
        final(state).disk_full == disk_full,
{
    state.error = msg.to_string();
    state.disk_full = disk_full;
    state.active = false;
}

/// A message in lower case tells of a full disk.
pub open spec fn tells_of_full_disk(text: Seq<char>) -> bool {
    holds(text, "disk is full"@) || holds(text, "disk i/o error"@) || holds(
        text,
        "no space left"@,
    )
}

/// Whether a message in lower case tells of a full disk.
pub fn mentions_full_disk(text: &str) -> (r: bool)
    ensures
        r == tells_of_full_disk(text@),
{
    let cs: Vec<char> = chars_of(text);
    contains_text(cs.as_slice(), "disk is full") || contains_text(
        cs.as_slice(),
        "disk i/o error",
    ) || contains_text(cs.as_slice(), "no space left")
}

/// Whether a message tells of a full disk, in any case.
pub fn is_disk_full(msg: &str) -> (r: bool)
    ensures
        r == tells_of_full_disk(lowercased(msg@)),
{
    let lower: String = lowercase(msg);
    mentions_full_disk(lower.as_str())
}

/// `total` clips lack their aggregates: whether there is work to begin.
pub fn backfill_start(state: &mut MigrationStatus, total: i64) -> (run: bool)
    ensures
        run == (total != 0),
        !run ==> *final(state) == *old(state),
        run ==> final(state).active && final(state).done == 0 && final(state).total == total
            && final(state).error@.len() == 0 && !final(state).disk_full,
{
    if total == 0 {
        return false;
    }
    migration_begin(state, total);
    true
}

/// A batch updated so many clips: whether to go on. A batch that updated none is
/// the last.
pub fn backfill_batch_done(
    state: &mut MigrationStatus,
    stats: &mut BackfillStats,
    updated: i64,
) -> (more: bool)
    ensures
        more == (updated != 0),
        final(stats).updated == sat_add(old(stats).updated as int, updated as int),
        final(state).done == if more {
            final(stats).updated
        } else {
            old(state).done
        },
        final(state).active == (more && old(state).active),
        final(state).total == old(state).total,
        final(state).error@ == old(state).error@,
        final(state).disk_full == old(state).disk_full,
{
    if updated == 0 {
        migration_finish_ok(state);
        return false;
    }
    stats.updated = sum_held(stats.updated, updated);
    state.done = stats.updated;
    true
}

/// A batch failed with a message.
pub fn backfill_failed(state: &mut MigrationStatus, msg: &str)
    ensures
        !final(state).active,
        final(state).done == old(state).done,
        final(state).total == old(state).total,
        final(state).error@ == msg@,
        final(state).disk_full == tells_of_full_disk(lowercased(msg@)),
{
    let full: bool = is_disk_full(msg);
    migration_finish_err(state, msg, full);
}

/// The clip and the aggregates of a row that lacks them.
pub fn backfill_row<G: Fn(F64, F64, F64, F64) -> F64>(
    row: RouteRow,
    geodesic: G,
) -> (r: Result<RouteAggregates, RowError>)
    requires
        bytes_in(row.points_blob).len() <= 0x7FFF_FFFF,
        bytes_in(row.gear_runs_blob).len() <= 0x7FFF_FFFF,
        forall|w: F64, x: F64, y: F64, z: F64| call_requires(geodesic, (w, x, y, z)),
    ensures
        match r {
            Ok(a) => broken_column(row) is None && exists|route: Route, hops: Seq<F64>|
                is_clip_of(row, route) && #[trigger] measured(route, geodesic, hops) && a
                    == aggregates_of(route, hops),
            Err(e) => broken_column(row) == Some(e.column) && e.file@ == row.file@,
        },
{
    match build_route_from_row(row) {
        Ok(route) => Ok(compute_route_aggregates(&route, geodesic)),
        Err(e) => Err(e),
    }
}

} // verus!
