//! Totals over all drives, and the caches built from them.

use crate::analytics::{
    Distance, FIRST_DAY, LAST_DAY, Tally, add_distances, add_tallies, are_analytics, distance_sum,
    fsd_analytics_from_drives, held64, is_imported, marks, percentage, share_percent, tally_sum,
};
use crate::calc::{round2, rounded2};
use crate::float::{F64, fadd};
use crate::list::{are_rows, group_summaries_fast};
use crate::overlap::{hide_tessie_overlapping_sei, kept_from};
use crate::subclips::summaries_fit;
use crate::summary::{flag_runs_fit, held32, hold32, hold64, imported, text_view};
use crate::types::{DriveSummary, FsdAnalytics, RouteSummary, TagEntry};
use vstd::prelude::*;

verus! {

/// Totals over all drives; what concerns self-driving counts recorded drives
/// alone.
#[derive(Clone, Copy, Debug)]
pub struct DriveTotals {
    pub drives_count: i64,
    pub routes_count: i64,
    pub total_distance_km: F64,
    pub total_distance_mi: F64,
    pub total_duration_ms: i64,
    pub fsd_engaged_ms: i64,
    pub fsd_distance_km: F64,
    pub fsd_distance_mi: F64,
    pub fsd_percent: F64,
    pub fsd_disengagements: i32,
    pub fsd_accel_pushes: i32,
    pub autosteer_engaged_ms: i64,
    pub autosteer_distance_km: F64,
    pub autosteer_distance_mi: F64,
    pub tacc_engaged_ms: i64,
    pub tacc_distance_km: F64,
    pub tacc_distance_mi: F64,
    pub assisted_percent: F64,
}

/// All drives.
pub open spec fn every_drive() -> spec_fn(int) -> bool {
    |i: int| true
}

/// Drives of the car's own recording.
pub open spec fn recorded(ds: Seq<DriveSummary>) -> spec_fn(int) -> bool {
    |i: int| !imported(text_view(ds[i].source))
}

/// `t` are the totals over `ds`.
pub open spec fn are_totals(ds: Seq<DriveSummary>, routes: int, t: DriveTotals) -> bool {
    let n = ds.len() as int;
    let own = recorded(ds);
    let own_km = distance_sum(ds, own, Distance::TotalKm, n);
    let fsd_km = distance_sum(ds, own, Distance::FsdKm, n);
    let steer_km = distance_sum(ds, own, Distance::AutosteerKm, n);
    let tacc_km = distance_sum(ds, own, Distance::TaccKm, n);
    &&& t.drives_count == hold64(n)
    &&& t.routes_count == hold64(routes)
    &&& t.total_distance_km == rounded2(distance_sum(ds, every_drive(), Distance::TotalKm, n))
    &&& t.total_distance_mi == rounded2(distance_sum(ds, every_drive(), Distance::TotalMi, n))
    &&& t.total_duration_ms == hold64(tally_sum(ds, every_drive(), Tally::DurationMs, n))
    &&& t.fsd_engaged_ms == hold64(tally_sum(ds, own, Tally::FsdMs, n))
    &&& t.fsd_distance_km == rounded2(fsd_km)
    &&& t.fsd_distance_mi == rounded2(distance_sum(ds, own, Distance::FsdMi, n))
    &&& t.fsd_percent == share_percent(fsd_km, own_km)
    &&& t.fsd_disengagements == hold32(tally_sum(ds, own, Tally::Disengagements, n))
    &&& t.fsd_accel_pushes == hold32(tally_sum(ds, own, Tally::AccelPushes, n))
    &&& t.autosteer_engaged_ms == hold64(tally_sum(ds, own, Tally::AutosteerMs, n))
    &&& t.autosteer_distance_km == rounded2(steer_km)
    &&& t.autosteer_distance_mi == rounded2(distance_sum(ds, own, Distance::AutosteerMi, n))
    &&& t.tacc_engaged_ms == hold64(tally_sum(ds, own, Tally::TaccMs, n))
    &&& t.tacc_distance_km == rounded2(tacc_km)
    &&& t.tacc_distance_mi == rounded2(distance_sum(ds, own, Distance::TaccMi, n))
    &&& t.assisted_percent == share_percent(fadd(fadd(fsd_km, steer_km), tacc_km), own_km)
}

/// Totals over all drives of a store of `routes` clips.
#[verifier::rlimit(30)]
pub fn total_drives(ds: &[DriveSummary], routes: usize) -> (t: DriveTotals)
    ensures
        are_totals(ds@, routes as int, t),
{
    let n: usize = ds.len();
    let mut all: Vec<bool> = Vec::new();
    let mut own: Vec<bool> = Vec::new();
    let ghost keep = every_drive();
    let ghost keep_own = recorded(ds@);
    let mut i: usize = 0;
    while i < n
        invariant
            i <= n,
            n == ds@.len(),
            keep == every_drive(),
            keep_own == recorded(ds@),
            all@.len() == i,
            own@.len() == i,
            marks(all@, keep),
            marks(own@, keep_own),
        decreases n - i,
    {
        all.push(true);
        own.push(!is_imported(&ds[i].source));
        i = i + 1;
    }
    let own_km: F64 = add_distances(ds, &own, Ghost(keep_own), Distance::TotalKm);
    let fsd_km: F64 = add_distances(ds, &own, Ghost(keep_own), Distance::FsdKm);
    let steer_km: F64 = add_distances(ds, &own, Ghost(keep_own), Distance::AutosteerKm);
    let tacc_km: F64 = add_distances(ds, &own, Ghost(keep_own), Distance::TaccKm);
    DriveTotals {
        drives_count: held64(n as i128),
        routes_count: held64(routes as i128),
        total_distance_km: round2(add_distances(ds, &all, Ghost(keep), Distance::TotalKm)),
        total_distance_mi: round2(add_distances(ds, &all, Ghost(keep), Distance::TotalMi)),
        total_duration_ms: held64(add_tallies(ds, &all, Ghost(keep), Tally::DurationMs)),
        fsd_engaged_ms: held64(add_tallies(ds, &own, Ghost(keep_own), Tally::FsdMs)),
        fsd_distance_km: round2(fsd_km),
        fsd_distance_mi: round2(add_distances(ds, &own, Ghost(keep_own), Distance::FsdMi)),
        fsd_percent: percentage(fsd_km, own_km),
        fsd_disengagements: held32(add_tallies(ds, &own, Ghost(keep_own), Tally::Disengagements)),
        fsd_accel_pushes: held32(add_tallies(ds, &own, Ghost(keep_own), Tally::AccelPushes)),
        autosteer_engaged_ms: held64(add_tallies(ds, &own, Ghost(keep_own), Tally::AutosteerMs)),
        autosteer_distance_km: round2(steer_km),
        autosteer_distance_mi: round2(
            add_distances(ds, &own, Ghost(keep_own), Distance::AutosteerMi),
        ),
        tacc_engaged_ms: held64(add_tallies(ds, &own, Ghost(keep_own), Tally::TaccMs)),
        tacc_distance_km: round2(tacc_km),
        tacc_distance_mi: round2(add_distances(ds, &own, Ghost(keep_own), Distance::TaccMi)),
        assisted_percent: percentage(fsd_km.plus(steer_km).plus(tacc_km), own_km),
    }
}

/// What the store caches.
#[derive(Clone, Debug)]
pub struct DriveCaches {
    /// The list as shown, repeated drives left out.
    pub visible: Vec<DriveSummary>,
    pub totals: DriveTotals,
    pub fsd: FsdAnalytics,
    /// How many drives there are, repeated ones included.
    pub drives_total: usize,
}

/// `c` holds what is to be cached of the drives `ds`.
pub open spec fn are_caches(ds: Seq<DriveSummary>, routes: int, today: int, c: DriveCaches) -> bool {
    &&& c.visible@ == kept_from(ds, 0)
    &&& are_totals(ds, routes, c.totals)
    &&& are_analytics(ds, "week"@, today, c.fsd)
    &&& c.drives_total == ds.len()
}

/// What to cache of rows at hand.
pub fn caches_of_rows(rows: Vec<DriveSummary>, routes: usize, today: i64) -> (c: DriveCaches)
    requires
        FIRST_DAY <= today <= LAST_DAY,
    ensures
        are_caches(rows@, routes as int, today as int, c),
{
    let totals: DriveTotals = total_drives(rows.as_slice(), routes);
    let fsd: FsdAnalytics = fsd_analytics_from_drives(rows.as_slice(), today);
    let drives_total: usize = rows.len();
    let visible: Vec<DriveSummary> = hide_tessie_overlapping_sei(rows);
    DriveCaches { visible, totals, fsd, drives_total }
}

/// What to cache of the stored clips.
pub fn compute_drive_caches<G: Fn(F64, F64, F64, F64) -> F64>(
    summaries: &[RouteSummary],
    tags: &[TagEntry],
    today: i64,
    geodesic: G,
) -> (c: DriveCaches)
    requires
        FIRST_DAY <= today <= LAST_DAY,
        summaries_fit(summaries@),
        flag_runs_fit(summaries@),
        forall|w: F64, x: F64, y: F64, z: F64| call_requires(geodesic, (w, x, y, z)),
    ensures
        exists|ds: Seq<DriveSummary>|
            #[trigger] are_rows(summaries@, tags@, geodesic, ds) && are_caches(
                ds,
                summaries@.len() as int,
                today as int,
                c,
            ),
{
    let rows: Vec<DriveSummary> = group_summaries_fast(summaries, tags, geodesic);
    let ghost ds = rows@;
    let c: DriveCaches = caches_of_rows(rows, summaries.len(), today);
    proof {
        assert(are_rows(summaries@, tags@, geodesic, ds));
    }
    c
}

/// Imported drives add to the totals of all drives and to nothing else.
pub proof fn law_imported_drives_add_mileage_alone(
    ds: Seq<DriveSummary>,
    d: DriveSummary,
    distance: Distance,
    tally: Tally,
    n: int,
)
    requires
        imported(text_view(d.source)),
        0 <= n <= ds.len(),
    ensures
        ({
            let more = ds.push(d);
            let own = recorded(more);
            &&& distance_sum(more, own, distance, n) == distance_sum(ds, recorded(ds), distance, n)
            &&& tally_sum(more, own, tally, n) == tally_sum(ds, recorded(ds), tally, n)
            &&& n == ds.len() ==> distance_sum(more, own, distance, n + 1) == distance_sum(
                ds,
                recorded(ds),
                distance,
                n,
            ) && tally_sum(more, own, tally, n + 1) == tally_sum(ds, recorded(ds), tally, n)
        }),
    decreases n,
{
    if n > 0 {
        law_imported_drives_add_mileage_alone(ds, d, distance, tally, n - 1);
        assert(recorded(ds.push(d))(n - 1) == recorded(ds)(n - 1));
    }
    assert(!recorded(ds.push(d))(ds.len() as int));
    assert(distance_sum(ds.push(d), recorded(ds.push(d)), distance, ds.len() as int + 1) == distance_sum(
        ds.push(d),
        recorded(ds.push(d)),
        distance,
        ds.len() as int,
    ));
    assert(tally_sum(ds.push(d), recorded(ds.push(d)), tally, ds.len() as int + 1) == tally_sum(
        ds.push(d),
        recorded(ds.push(d)),
        tally,
        ds.len() as int,
    ));
}

} // verus!
