//! What a row of the list tells of the car and its driver.

use crate::calc::rounded2;
use crate::charging_laws::{is_first, is_last};
use crate::clock::{date_text, shifted, span, stamp_text};
use crate::float::{F64, fdiv, fle, fmul, from_int, fsub, fsum, is_nan, zero};
use crate::list::{drive_files, drive_named, drive_starting, key_of_drive};
use crate::nearness::{
    lemma_near_int, lemma_near_product, lemma_near_quotient, lemma_rounded_near, lemma_within_int,
    lemma_within_more, lemma_within_product, within,
};
use crate::rounding::one;
use crate::subclips::{SubClipSummary, sub_drives};
use crate::summary::{
    DriveTelemetryRollup, Gauge, bridged_by, climate_sum, closing_ms, disengagements,
    drive_evidence, extreme_reading, fastest, file_count, first_place, first_reading, first_start,
    gap_ends, hold32, hold64, is_row, labelled, last_end, last_place, last_reading,
    measured_columns, member_ms, moved_at_all, outside_sum, pedal_pushes, reading, rolls_up,
    tags_under, text_view, texts, vehicle,
};
use crate::summary_laws::{clip_behind, lemma_opens_file, opens_file};
use crate::summon::is_summon;
use crate::text::spelled;
use crate::types::{DriveSummary, GpsPoint, RouteSummary, RouteTelemetryAggregates, TagEntry};
use vstd::prelude::*;

verus! {

// ---------------------------------------------------------------------------
// Telemetry
// ---------------------------------------------------------------------------

/// A reading of every file of the drive, where it was first met.
pub open spec fn readings(
    s: Seq<RouteSummary>,
    c: Seq<SubClipSummary>,
    what: spec_fn(RouteTelemetryAggregates) -> Option<F64>,
) -> Seq<Option<F64>> {
    Seq::new(
        c.len(),
        |i: int|
            if opens_file(s, c, i) {
                what(clip_behind(s, c, i).telemetry)
            } else {
                None
            },
    )
}

pub open spec fn of_battery_pct_start() -> spec_fn(RouteTelemetryAggregates) -> Option<F64> {
    |t: RouteTelemetryAggregates| t.battery_pct_start
}

pub open spec fn of_battery_pct_end() -> spec_fn(RouteTelemetryAggregates) -> Option<F64> {
    |t: RouteTelemetryAggregates| t.battery_pct_end
}

pub open spec fn of_odometer_mi_start() -> spec_fn(RouteTelemetryAggregates) -> Option<F64> {
    |t: RouteTelemetryAggregates| t.odometer_mi_start
}

pub open spec fn of_odometer_mi_end() -> spec_fn(RouteTelemetryAggregates) -> Option<F64> {
    |t: RouteTelemetryAggregates| t.odometer_mi_end
}

pub open spec fn of_tire_fl_psi() -> spec_fn(RouteTelemetryAggregates) -> Option<F64> {
    |t: RouteTelemetryAggregates| t.tire_fl_psi
}

pub open spec fn of_tire_fr_psi() -> spec_fn(RouteTelemetryAggregates) -> Option<F64> {
    |t: RouteTelemetryAggregates| t.tire_fr_psi
}

pub open spec fn of_tire_rl_psi() -> spec_fn(RouteTelemetryAggregates) -> Option<F64> {
    |t: RouteTelemetryAggregates| t.tire_rl_psi
}

pub open spec fn of_tire_rr_psi() -> spec_fn(RouteTelemetryAggregates) -> Option<F64> {
    |t: RouteTelemetryAggregates| t.tire_rr_psi
}

pub open spec fn of_interior_temp_min() -> spec_fn(RouteTelemetryAggregates) -> Option<F64> {
    |t: RouteTelemetryAggregates| t.interior_temp_min
}

pub open spec fn of_interior_temp_max() -> spec_fn(RouteTelemetryAggregates) -> Option<F64> {
    |t: RouteTelemetryAggregates| t.interior_temp_max
}

spec fn reads_alike(what: spec_fn(RouteTelemetryAggregates) -> Option<F64>, g: Gauge) -> bool {
    forall|t: RouteTelemetryAggregates| #[trigger] reading(t, g) == what(t)
}

proof fn lemma_first_reading(
    s: Seq<RouteSummary>,
    c: Seq<SubClipSummary>,
    g: Gauge,
    what: spec_fn(RouteTelemetryAggregates) -> Option<F64>,
    n: int,
)
    requires
        0 <= n <= c.len(),
        reads_alike(what, g),
    ensures
        is_first(readings(s, c, what).take(n), first_reading(s, c, g, n)),
    decreases n,
{
    let v = readings(s, c, what);
    if n > 0 {
        lemma_first_reading(s, c, g, what, n - 1);
        lemma_opens_file(s, c, n - 1);
        let (a, b) = (v.take(n - 1), v.take(n));
        assert(forall|i: int| 0 <= i < n - 1 ==> a[i] == b[i]);
        assert(b[n - 1] == v[n - 1]);
        assert(reading(vehicle(s, c, n - 1), g) == what(clip_behind(s, c, n - 1).telemetry));
        let x = first_reading(s, c, g, n);
        if first_reading(s, c, g, n - 1) is Some {
            let i = choose|i: int|
                0 <= i < a.len() && #[trigger] a[i] == x && forall|j: int|
                    0 <= j < i ==> a[j] is None;
            assert(b[i] == x);
        } else if x is Some {
            assert(b[n - 1] == x);
        } else {
            assert forall|i: int| 0 <= i < b.len() implies #[trigger] b[i] is None by {
                if i < n - 1 {
                    assert(a[i] is None);
                }
            }
        }
    }
}

proof fn lemma_last_reading(
    s: Seq<RouteSummary>,
    c: Seq<SubClipSummary>,
    g: Gauge,
    what: spec_fn(RouteTelemetryAggregates) -> Option<F64>,
    n: int,
)
    requires
        0 <= n <= c.len(),
        reads_alike(what, g),
    ensures
        is_last(readings(s, c, what).take(n), last_reading(s, c, g, n)),
    decreases n,
{
    let v = readings(s, c, what);
    if n > 0 {
        lemma_last_reading(s, c, g, what, n - 1);
        lemma_opens_file(s, c, n - 1);
        let (a, b) = (v.take(n - 1), v.take(n));
        assert(forall|i: int| 0 <= i < n - 1 ==> a[i] == b[i]);
        assert(b[n - 1] == v[n - 1]);
        assert(reading(vehicle(s, c, n - 1), g) == what(clip_behind(s, c, n - 1).telemetry));
        let x = last_reading(s, c, g, n);
        if b[n - 1] is Some {
            assert(b[n - 1] == x);
        } else if x is Some {
            let i = choose|i: int|
                0 <= i < a.len() && #[trigger] a[i] == x && forall|j: int|
                    i < j < a.len() ==> a[j] is None;
            assert(b[i] == x);
        } else {
            assert forall|i: int| 0 <= i < b.len() implies #[trigger] b[i] is None by {
                if i < n - 1 {
                    assert(a[i] is None);
                }
            }
        }
    }
}

/// `x` is the least of the readings, or the greatest.
pub open spec fn is_extreme(v: Seq<Option<F64>>, lowest: bool, x: Option<F64>) -> bool {
    match x {
        Some(m) => (exists|i: int| 0 <= i < v.len() && #[trigger] v[i] == x) && forall|i: int|
            0 <= i < v.len() && #[trigger] v[i] is Some ==> if lowest {
                fle(m, v[i]->0)
            } else {
                fle(v[i]->0, m)
            },
        None => forall|i: int| 0 <= i < v.len() ==> #[trigger] v[i] is None,
    }
}

proof fn lemma_extreme_reading(
    s: Seq<RouteSummary>,
    c: Seq<SubClipSummary>,
    g: Gauge,
    what: spec_fn(RouteTelemetryAggregates) -> Option<F64>,
    lowest: bool,
    n: int,
)
    requires
        0 <= n <= c.len(),
        reads_alike(what, g),
        forall|i: int|
            0 <= i < c.len() ==> ((#[trigger] readings(s, c, what)[i]) matches Some(x) ==> !is_nan(
                x,
            )),
    ensures
        is_extreme(readings(s, c, what).take(n), lowest, extreme_reading(s, c, g, lowest, n)),
    decreases n,
{
    let v = readings(s, c, what);
    if n > 0 {
        lemma_extreme_reading(s, c, g, what, lowest, n - 1);
        lemma_opens_file(s, c, n - 1);
        let (a, b) = (v.take(n - 1), v.take(n));
        assert(forall|i: int| 0 <= i < n - 1 ==> a[i] == b[i]);
        assert(b[n - 1] == v[n - 1]);
        assert(reading(vehicle(s, c, n - 1), g) == what(clip_behind(s, c, n - 1).telemetry));
        let before = extreme_reading(s, c, g, lowest, n - 1);
        let x = extreme_reading(s, c, g, lowest, n);
        if x is Some {
            if x == b[n - 1] {
                assert(b[n - 1] == x);
            } else {
                let i = choose|i: int| 0 <= i < a.len() && #[trigger] a[i] == before;
                assert(b[i] == x);
            }
            assert forall|i: int| 0 <= i < b.len() && #[trigger] b[i] is Some implies if lowest {
                fle(x->0, b[i]->0)
            } else {
                fle(b[i]->0, x->0)
            } by {
                assert(v[i] is Some);
                if i < n - 1 {
                    assert(a[i] is Some);
                }
            }
        } else {
            assert forall|i: int| 0 <= i < b.len() implies #[trigger] b[i] is None by {
                if i < n - 1 {
                    assert(a[i] is None);
                }
            }
        }
    }
}

/// `shown` is `x` to two decimals.
pub open spec fn shows(shown: Option<F64>, x: Option<F64>) -> bool {
    match x {
        Some(v) => shown == Some(rounded2(v)),
        None => shown is None,
    }
}

/// A drive starts with the first charge and mileage that a file reports and ends with the
/// last ones; what was used and driven lies between. Tyres are told by the last file that
/// knows them.
pub proof fn law_telemetry_leads_from_first_to_last(
    s: Seq<RouteSummary>,
    c: Seq<SubClipSummary>,
    r: DriveTelemetryRollup,
)
    requires
        rolls_up(s, c, r),
    ensures
        exists|a: Option<F64>, b: Option<F64>, m: Option<F64>, o: Option<F64>|
            {
                &&& #[trigger] is_first(readings(s, c, of_battery_pct_start()), a)
                &&& #[trigger] is_last(readings(s, c, of_battery_pct_end()), b)
                &&& #[trigger] is_first(readings(s, c, of_odometer_mi_start()), m)
                &&& #[trigger] is_last(readings(s, c, of_odometer_mi_end()), o)
                &&& shows(r.battery_pct_start, a)
                &&& shows(r.battery_pct_end, b)
                &&& shows(r.odometer_mi_start, m)
                &&& shows(r.odometer_mi_end, o)
                &&& a is Some && b is Some ==> r.battery_pct_used == Some(rounded2(fsub(a->0, b->0)))
                &&& a is None || b is None ==> r.battery_pct_used is None
                &&& m is Some && o is Some && fle(m->0, o->0) ==> r.odometer_mi_driven == Some(
                    rounded2(fsub(o->0, m->0)),
                )
                &&& m is None || o is None || !fle(m->0, o->0) ==> r.odometer_mi_driven is None
            },
        exists|x: Option<F64>|
            #[trigger] is_last(readings(s, c, of_tire_fl_psi()), x) && shows(r.tire_fl_psi, x),
        exists|x: Option<F64>|
            #[trigger] is_last(readings(s, c, of_tire_fr_psi()), x) && shows(r.tire_fr_psi, x),
        exists|x: Option<F64>|
            #[trigger] is_last(readings(s, c, of_tire_rl_psi()), x) && shows(r.tire_rl_psi, x),
        exists|x: Option<F64>|
            #[trigger] is_last(readings(s, c, of_tire_rr_psi()), x) && shows(r.tire_rr_psi, x),
{
    let n = c.len() as int;
    lemma_first_of(s, c, Gauge::BatteryStart, of_battery_pct_start());
    lemma_last_of(s, c, Gauge::BatteryEnd, of_battery_pct_end());
    lemma_first_of(s, c, Gauge::OdometerStart, of_odometer_mi_start());
    lemma_last_of(s, c, Gauge::OdometerEnd, of_odometer_mi_end());
    lemma_last_of(s, c, Gauge::TireFl, of_tire_fl_psi());
    lemma_last_of(s, c, Gauge::TireFr, of_tire_fr_psi());
    lemma_last_of(s, c, Gauge::TireRl, of_tire_rl_psi());
    lemma_last_of(s, c, Gauge::TireRr, of_tire_rr_psi());
}

proof fn lemma_first_of(
    s: Seq<RouteSummary>,
    c: Seq<SubClipSummary>,
    g: Gauge,
    what: spec_fn(RouteTelemetryAggregates) -> Option<F64>,
)
    requires
        reads_alike(what, g),
    ensures
        is_first(readings(s, c, what), first_reading(s, c, g, c.len() as int)),
{
    let n = c.len() as int;
    lemma_first_reading(s, c, g, what, n);
    assert(readings(s, c, what).take(n) =~= readings(s, c, what));
}

proof fn lemma_last_of(
    s: Seq<RouteSummary>,
    c: Seq<SubClipSummary>,
    g: Gauge,
    what: spec_fn(RouteTelemetryAggregates) -> Option<F64>,
)
    requires
        reads_alike(what, g),
    ensures
        is_last(readings(s, c, what), last_reading(s, c, g, c.len() as int)),
{
    let n = c.len() as int;
    lemma_last_reading(s, c, g, what, n);
    assert(readings(s, c, what).take(n) =~= readings(s, c, what));
}

/// The cabin's lowest temperature is the lowest of any file, its highest the highest.
pub proof fn law_cabin_temperatures_are_extremes(
    s: Seq<RouteSummary>,
    c: Seq<SubClipSummary>,
    r: DriveTelemetryRollup,
)
    requires
        rolls_up(s, c, r),
        forall|i: int|
            0 <= i < c.len() ==> ((#[trigger] readings(
                s,
                c,
                of_interior_temp_min(),
            )[i]) matches Some(x) ==> !is_nan(x)),
        forall|i: int|
            0 <= i < c.len() ==> ((#[trigger] readings(
                s,
                c,
                of_interior_temp_max(),
            )[i]) matches Some(x) ==> !is_nan(x)),
    ensures
        exists|x: Option<F64>|
            #[trigger] is_extreme(
                readings(s, c, of_interior_temp_min()),
                true,
                x,
            ) && shows(r.interior_temp_min_c, x),
        exists|x: Option<F64>|
            #[trigger] is_extreme(
                readings(s, c, of_interior_temp_max()),
                false,
                x,
            ) && shows(r.interior_temp_max_c, x),
{
    let n = c.len() as int;
    let (a, b) = (
        of_interior_temp_min(),
        of_interior_temp_max(),
    );
    lemma_extreme_reading(s, c, Gauge::InteriorMin, a, true, n);
    lemma_extreme_reading(s, c, Gauge::InteriorMax, b, false, n);
    assert(readings(s, c, a).take(n) =~= readings(s, c, a));
    assert(readings(s, c, b).take(n) =~= readings(s, c, b));
}

/// The readings that are known, in order.
pub open spec fn known<T>(v: Seq<Option<T>>) -> Seq<T>
    decreases v.len(),
{
    if v.len() == 0 {
        Seq::empty()
    } else {
        match v.last() {
            Some(x) => known(v.drop_last()).push(x),
            None => known(v.drop_last()),
        }
    }
}

proof fn lemma_outside_sum(s: Seq<RouteSummary>, c: Seq<SubClipSummary>, n: int)
    requires
        0 <= n <= c.len(),
    ensures
        ({
            let k = known(readings(s, c, of_exterior_temp_avg()).take(n));
            outside_sum(s, c, n) == (fsum(k), k.len() as int)
        }),
    decreases n,
{
    let v = readings(s, c, of_exterior_temp_avg());
    if n > 0 {
        lemma_outside_sum(s, c, n - 1);
        lemma_opens_file(s, c, n - 1);
        assert(v.take(n).drop_last() =~= v.take(n - 1));
        assert(v.take(n).last() == v[n - 1]);
        let k = known(v.take(n - 1));
        if v[n - 1] is Some {
            assert(k.push(v[n - 1]->0).drop_last() =~= k);
        }
    }
}

pub open spec fn of_exterior_temp_avg() -> spec_fn(RouteTelemetryAggregates) -> Option<F64> {
    |t: RouteTelemetryAggregates| t.exterior_temp_avg
}

/// The temperature outside is the mean of what the files report.
pub proof fn law_outside_temperature_is_the_mean(
    s: Seq<RouteSummary>,
    c: Seq<SubClipSummary>,
    r: DriveTelemetryRollup,
)
    requires
        rolls_up(s, c, r),
    ensures
        ({
            let k = known(readings(s, c, of_exterior_temp_avg()));
            r.exterior_temp_avg_c == if k.len() > 0 {
                Some(rounded2(fdiv(fsum(k), from_int(k.len() as int))))
            } else {
                None
            }
        }),
{
    let n = c.len() as int;
    lemma_outside_sum(s, c, n);
    let v = readings(s, c, of_exterior_temp_avg());
    assert(v.take(n) =~= v);
}

/// Climate seconds of every file, where it was first met.
pub open spec fn climate_read(s: Seq<RouteSummary>, c: Seq<SubClipSummary>) -> Seq<Option<i64>> {
    Seq::new(
        c.len(),
        |i: int|
            if opens_file(s, c, i) {
                clip_behind(s, c, i).telemetry.hvac_runtime_s
            } else {
                None
            },
    )
}

/// Integers added up.
pub open spec fn added(v: Seq<i64>) -> int
    decreases v.len(),
{
    if v.len() == 0 {
        0
    } else {
        added(v.drop_last()) + v.last()
    }
}

proof fn lemma_climate_sum(s: Seq<RouteSummary>, c: Seq<SubClipSummary>, n: int)
    requires
        0 <= n <= c.len(),
    ensures
        ({
            let k = known(climate_read(s, c).take(n));
            climate_sum(s, c, n) == if k.len() > 0 {
                Some(added(k))
            } else {
                None
            }
        }),
    decreases n,
{
    let v = climate_read(s, c);
    if n > 0 {
        lemma_climate_sum(s, c, n - 1);
        lemma_opens_file(s, c, n - 1);
        assert(v.take(n).drop_last() =~= v.take(n - 1));
        assert(v.take(n).last() == v[n - 1]);
        let k = known(v.take(n - 1));
        if v[n - 1] is Some {
            let more = k.push(v[n - 1]->0);
            assert(more.drop_last() =~= k);
            assert(added(more) == added(k) + v[n - 1]->0);
            if k.len() == 0 {
                assert(added(k) == 0);
            }
            assert(known(v.take(n)) == more);
        }
    }
}

/// The climate ran as long as in all files together.
pub proof fn law_climate_time_adds_up(
    s: Seq<RouteSummary>,
    c: Seq<SubClipSummary>,
    r: DriveTelemetryRollup,
)
    requires
        rolls_up(s, c, r),
    ensures
        ({
            let k = known(climate_read(s, c));
            match r.hvac_runtime_s {
                Some(t) => k.len() > 0 && t == hold64(added(k)),
                None => k.len() == 0,
            }
        }),
{
    let n = c.len() as int;
    lemma_climate_sum(s, c, n);
    assert(climate_read(s, c).take(n) =~= climate_read(s, c));
}

/// Names of the places where the files start, or end.
pub open spec fn place_names(s: Seq<RouteSummary>, c: Seq<SubClipSummary>, start: bool) -> Seq<Option<Seq<char>>> {
    Seq::new(
        c.len(),
        |i: int|
            if !opens_file(s, c, i) {
                None
            } else if start {
                text_view(clip_behind(s, c, i).telemetry.location_name_start)
            } else {
                text_view(clip_behind(s, c, i).telemetry.location_name_end)
            },
    )
}

proof fn lemma_places(s: Seq<RouteSummary>, c: Seq<SubClipSummary>, n: int)
    requires
        0 <= n <= c.len(),
    ensures
        is_first(place_names(s, c, true).take(n), first_place(s, c, n)),
        is_last(place_names(s, c, false).take(n), last_place(s, c, n)),
    decreases n,
{
    if n > 0 {
        lemma_places(s, c, n - 1);
        lemma_opens_file(s, c, n - 1);
        lemma_first_grows(place_names(s, c, true), n, first_place(s, c, n - 1));
        lemma_last_grows(place_names(s, c, false), n, last_place(s, c, n - 1));
    }
}

/// The first reading of one more is the first so far, or the new one.
proof fn lemma_first_grows<T>(v: Seq<Option<T>>, n: int, x: Option<T>)
    requires
        0 < n <= v.len(),
        is_first(v.take(n - 1), x),
    ensures
        is_first(
            v.take(n),
            if x is Some {
                x
            } else {
                v[n - 1]
            },
        ),
{
    let (a, b) = (v.take(n - 1), v.take(n));
    assert(forall|i: int| 0 <= i < n - 1 ==> a[i] == b[i]);
    if x is Some {
        let i = choose|i: int|
            0 <= i < a.len() && #[trigger] a[i] == x && forall|j: int| 0 <= j < i ==> a[j] is None;
        assert(b[i] == x);
    } else {
        assert(forall|i: int| 0 <= i < n - 1 ==> a[i] is None);
        assert(b[n - 1] == v[n - 1]);
    }
}

/// The last reading of one more is the new one, or the last so far.
pub proof fn lemma_last_grows<T>(v: Seq<Option<T>>, n: int, x: Option<T>)
    requires
        0 < n <= v.len(),
        is_last(v.take(n - 1), x),
    ensures
        is_last(
            v.take(n),
            if v[n - 1] is Some {
                v[n - 1]
            } else {
                x
            },
        ),
{
    let (a, b) = (v.take(n - 1), v.take(n));
    assert(forall|i: int| 0 <= i < n - 1 ==> a[i] == b[i]);
    assert(b[n - 1] == v[n - 1]);
    if v[n - 1] is None {
        if x is Some {
            let i = choose|i: int|
                0 <= i < a.len() && #[trigger] a[i] == x && forall|j: int|
                    i < j < a.len() ==> a[j] is None;
            assert(b[i] == x);
        } else {
            assert(forall|i: int| 0 <= i < n - 1 ==> a[i] is None);
        }
    }
}

/// A drive starts at the first place that a file names for its start and ends at the last
/// one that a file names for its end.
pub proof fn law_places_lead_from_first_to_last(
    s: Seq<RouteSummary>,
    c: Seq<SubClipSummary>,
    r: DriveTelemetryRollup,
)
    requires
        rolls_up(s, c, r),
    ensures
        is_first(place_names(s, c, true), text_view(r.location_name_start)),
        is_last(place_names(s, c, false), text_view(r.location_name_end)),
{
    let n = c.len() as int;
    lemma_places(s, c, n);
    assert(place_names(s, c, true).take(n) =~= place_names(s, c, true));
    assert(place_names(s, c, false).take(n) =~= place_names(s, c, false));
}

// ---------------------------------------------------------------------------
// Labels
// ---------------------------------------------------------------------------

/// Positions at which the members start, or end.
pub open spec fn member_spots(s: Seq<RouteSummary>, c: Seq<SubClipSummary>, start: bool) -> Seq<Option<GpsPoint>> {
    Seq::new(
        c.len(),
        |i: int|
            {
                let a = clip_behind(s, c, i).aggregates;
                match (
                    if start {
                        a.start_lat
                    } else {
                        a.end_lat
                    },
                    if start {
                        a.start_lng
                    } else {
                        a.end_lng
                    },
                ) {
                    (Some(lat), Some(lng)) => Some(GpsPoint { lat, lng }),
                    _ => None,
                }
            },
    )
}

proof fn lemma_ends(s: Seq<RouteSummary>, c: Seq<SubClipSummary>, n: int)
    requires
        0 <= n <= c.len(),
    ensures
        is_first(member_spots(s, c, true).take(n), first_start(s, c, n)),
        is_last(member_spots(s, c, false).take(n), last_end(s, c, n)),
    decreases n,
{
    if n > 0 {
        lemma_ends(s, c, n - 1);
        lemma_first_grows(member_spots(s, c, true), n, first_start(s, c, n - 1));
        lemma_last_grows(member_spots(s, c, false), n, last_end(s, c, n - 1));
    }
}

proof fn lemma_file_count(s: Seq<RouteSummary>, c: Seq<SubClipSummary>, n: int)
    requires
        0 <= n,
    ensures
        Set::new(|i: int| 0 <= i < n && opens_file(s, c, i)).finite(),
        file_count(s, c, n) == Set::new(|i: int| 0 <= i < n && opens_file(s, c, i)).len(),
    decreases n,
{
    let t = Set::new(|i: int| 0 <= i < n && opens_file(s, c, i));
    if n <= 0 {
        assert(t =~= Set::empty());
    } else {
        lemma_file_count(s, c, n - 1);
        lemma_opens_file(s, c, n - 1);
        let b = Set::new(|i: int| 0 <= i < n - 1 && opens_file(s, c, i));
        if opens_file(s, c, n - 1) {
            assert(t =~= b.insert(n - 1));
        } else {
            assert(t =~= b);
        }
    }
}

/// A row counts the files of its drive, starts where the first member with a position
/// starts and ends where the last one with a position ends.
pub proof fn law_rows_lead_from_first_to_last(
    s: Seq<RouteSummary>,
    c: Seq<SubClipSummary>,
    idx: int,
    tags: Seq<TagEntry>,
    d: DriveSummary,
)
    requires
        labelled(s, c, idx, tags, d),
    ensures
        is_first(member_spots(s, c, true), d.start_point),
        is_last(member_spots(s, c, false), d.end_point),
        d.clip_count == Set::new(|i: int| 0 <= i < c.len() && opens_file(s, c, i)).len(),
        d.duration_ms == span(
            c[0].ts as int,
            shifted(c.last().ts as int, closing_ms(c.last())),
        ),
        d.start_time@ == stamp_text(c[0].ts as int),
        d.date@ == date_text(c[0].ts as int),
        d.end_time@ == stamp_text(shifted(c.last().ts as int, closing_ms(c.last()))),
{
    let n = c.len() as int;
    lemma_ends(s, c, n);
    lemma_file_count(s, c, n);
    assert(member_spots(s, c, true).take(n) =~= member_spots(s, c, true));
    assert(member_spots(s, c, false).take(n) =~= member_spots(s, c, false));
    assert(Set::new(|i: int| 0 <= i < n && opens_file(s, c, i)) =~= Set::new(
        |i: int| 0 <= i < c.len() && opens_file(s, c, i),
    ));
}

/// The last member of a drive lasts as long as its frames of the minute of its clip, to
/// the millisecond; so does any member up to the seam behind it.
pub proof fn law_members_last_by_their_frames(m: SubClipSummary)
    requires
        m.start_frame < m.end_frame <= m.total_frames,
    ensures
        ({
            let frames = m.end_frame - m.start_frame;
            &&& closing_ms(m) * m.total_frames < 60_000 * frames + m.total_frames
            &&& 60_000 * frames < closing_ms(m) * m.total_frames + m.total_frames
            &&& member_ms(m) * m.total_frames < 60_000 * frames + m.total_frames
            &&& 60_000 * frames < member_ms(m) * m.total_frames + m.total_frames
        }),
{
    let f = (m.end_frame - m.start_frame) as nat;
    let t = m.total_frames as nat;
    let u = one();
    lemma_near_int(f);
    lemma_near_int(t);
    lemma_near_int(60_000);
    lemma_within_int(f);
    lemma_within_int(t);
    lemma_within_int(60_000);
    lemma_within_more(f, 1, 32, 400);
    lemma_within_more(t, 1, 32, 400);
    lemma_within_more(60_000, 1, 32, 400);
    assert(0nat * 0 == 0);
    let per = fdiv(from_int(60_000), from_int(t as int));
    lemma_near_quotient(from_int(60_000), from_int(t as int), 60_000, 1, t, 1, 0, 0, 400);
    assert(60_000 * 1 == 60_000 && 1 * t == t);
    lemma_within_quotient(60_000, t);
    assert(0nat * 2 == 0);
    lemma_within_more(60_000, t, 64, 400);
    lemma_near_product(from_int(f as int), per, f, 1, 60_000, t, 0, 2, 400);
    assert(f * 60_000 <= (1 * t) * 60_000) by (nonlinear_arith)
        requires
            f <= t,
    ;
    assert(4 * 60_000 <= 0x1_0000_0000_0000nat);
    lemma_rounded_near(
        fmul(from_int(f as int), per),
        f * 60_000,
        1 * t,
        4,
        60_000,
        i64::MIN as int,
        i64::MAX as int,
    );
    lemma_near_product(from_int(f as int), from_int(60_000), f, 1, 60_000, 1, 0, 0, 400);
    lemma_within_product(f, 1, 32, 60_000, 1, 32);
    lemma_within_more(f * 60_000, 1, 64, 400);
    assert(2nat * 0 == 0);
    let p = fmul(from_int(f as int), from_int(60_000));
    lemma_near_quotient(p, from_int(t as int), f * 60_000, 1, t, 1, 2, 0, 400);
    assert(f * 60_000 * 1 == f * 60_000 && 1 * t == t);
    lemma_rounded_near(
        fdiv(p, from_int(t as int)),
        f * 60_000,
        t,
        4,
        60_000,
        i64::MIN as int,
        i64::MAX as int,
    );
}

pub proof fn lemma_within_quotient(a: nat, t: nat)
    requires
        1 <= a <= 0xFFFF_FFFF,
        1 <= t <= 0xFFFF_FFFF,
    ensures
        within(a, t, 64),
{
    vstd::arithmetic::power2::lemma2_to64();
    vstd::arithmetic::power2::lemma2_to64_rest();
    let w = vstd::arithmetic::power2::pow2(64);
    assert(a <= t * w && t <= a * w) by (nonlinear_arith)
        requires
            1 <= a <= 0xFFFF_FFFF,
            1 <= t <= 0xFFFF_FFFF,
            w >= 0x1_0000_0000,
    ;
}

// ---------------------------------------------------------------------------
// The driver
// ---------------------------------------------------------------------------

/// Integers added up over the members.
pub open spec fn tally(f: spec_fn(int) -> int, n: int) -> int
    decreases n,
{
    if n <= 0 {
        0
    } else {
        tally(f, n - 1) + f(n - 1)
    }
}

/// The age of a disengagement that the clip before member `i` left undecided at its end.
pub open spec fn left_open(s: Seq<RouteSummary>, c: Seq<SubClipSummary>, i: int) -> Option<F64> {
    if i > 0 && c[i - 1].end_frame == c[i - 1].total_frames {
        clip_behind(s, c, i - 1).aggregates.fsd_pend_ms_end
    } else {
        None
    }
}

/// Member `i` goes into Park before that disengagement is two seconds old.
pub open spec fn parks_in_time(s: Seq<RouteSummary>, c: Seq<SubClipSummary>, i: int) -> bool {
    clip_behind(s, c, i).aggregates.park_ms_start matches Some(ms) && fle(
        ms,
        fsub(from_int(2000), left_open(s, c, i)->0),
    )
}

/// Disengagements that member `i` adds: its own, told once per file, and one that the
/// clip before left open, unless Park cancels it.
pub open spec fn disengaged_in(s: Seq<RouteSummary>, c: Seq<SubClipSummary>) -> spec_fn(int) -> int {
    |i: int|
        if opens_file(s, c, i) {
            clip_behind(s, c, i).aggregates.fsd_disengagements + if left_open(s, c, i) is Some
                && c[i].start_frame == 0 && !parks_in_time(s, c, i) {
                1int
            } else {
                0int
            }
        } else {
            0
        }
}

/// Pushes of the pedal that member `i` adds: its own, told once per file, and those in its
/// first seconds where the clip before ended in full self-driving.
pub open spec fn pushed_in(s: Seq<RouteSummary>, c: Seq<SubClipSummary>) -> spec_fn(int) -> int {
    |i: int|
        if opens_file(s, c, i) {
            clip_behind(s, c, i).aggregates.fsd_accel_pushes + if i > 0 && c[i - 1].end_frame
                == c[i - 1].total_frames && clip_behind(s, c, i - 1).aggregates.fsd_at_end
                && c[i].start_frame == 0 {
                clip_behind(s, c, i).aggregates.fsd_accel_pushes_early as int
            } else {
                0int
            }
        } else {
            0
        }
}

proof fn lemma_driver(s: Seq<RouteSummary>, c: Seq<SubClipSummary>, n: int)
    ensures
        disengagements(s, c, n) == tally(disengaged_in(s, c), n),
        pedal_pushes(s, c, n) == tally(pushed_in(s, c), n),
    decreases n,
{
    if n > 0 {
        lemma_driver(s, c, n - 1);
        lemma_opens_file(s, c, n - 1);
    }
}

/// A drive has the disengagements and the pushes of its files, with what happened at the
/// seams between them; what the last clip leaves open counts.
pub proof fn law_row_counts_what_the_driver_did(
    s: Seq<RouteSummary>,
    c: Seq<SubClipSummary>,
    bridges: Seq<F64>,
    d: DriveSummary,
)
    requires
        measured_columns(s, c, bridges, d),
    ensures
        d.fsd_disengagements == hold32(
            tally(disengaged_in(s, c), c.len() as int) + if left_open(s, c, c.len() as int) is Some {
                1int
            } else {
                0int
            },
        ),
        d.fsd_accel_pushes == hold32(tally(pushed_in(s, c), c.len() as int)),
{
    lemma_driver(s, c, c.len() as int);
}

/// A row carries the number of its drive, the source and the signature of its first clip,
/// and counts as the car's own recording where that names no source.
pub proof fn law_rows_are_named_by_their_first_clip(
    s: Seq<RouteSummary>,
    c: Seq<SubClipSummary>,
    idx: int,
    tags: Seq<TagEntry>,
    d: DriveSummary,
)
    requires
        labelled(s, c, idx, tags, d),
        0 <= idx <= i32::MAX,
        c.len() > 0,
    ensures
        d.id == idx,
        d.source is Some,
        clip_behind(s, c, 0).source is Some ==> d.source->0@ == clip_behind(s, c, 0).source->0@,
        clip_behind(s, c, 0).source is None ==> d.source->0@ == "sei"@,
        text_view(d.external_signature) == text_view(clip_behind(s, c, 0).external_signature),
        texts(d.tags@) == tags_under(tags, stamp_text(c[0].ts as int), 0),
{
}

/// A row is judged as a summon by the frames of its members, their recorded speeds and its
/// length.
pub proof fn law_rows_are_judged_by_their_frames(
    s: Seq<RouteSummary>,
    c: Seq<SubClipSummary>,
    idx: int,
    tags: Seq<TagEntry>,
    d: DriveSummary,
)
    requires
        labelled(s, c, idx, tags, d),
    ensures
        ({
            let n = c.len() as int;
            d.summon == is_summon(
                drive_evidence(s, c),
                if moved_at_all(s, c, n) {
                    fastest(s, c, n)
                } else {
                    zero()
                },
                d.duration_ms as int,
                moved_at_all(s, c, n),
            )
        }),
        drive_evidence(s, c).len() == c.len(),
        forall|i: int|
            0 <= i < c.len() ==> (#[trigger] drive_evidence(s, c)[i]).runs == clip_behind(
                s,
                c,
                i,
            ).flag_runs@ && (c[i].total_frames > 1 ==> drive_evidence(s, c)[i].start
                == c[i].start_frame && drive_evidence(s, c)[i].end == c[i].end_frame
                && drive_evidence(s, c)[i].total == c[i].total_frames) && (c[i].total_frames <= 1
                && clip_behind(s, c, i).raw_frame_count > 0 ==> drive_evidence(s, c)[i].start == 0
                && drive_evidence(s, c)[i].end == clip_behind(s, c, i).raw_frame_count
                && drive_evidence(s, c)[i].total == clip_behind(s, c, i).raw_frame_count),
{
}

/// A row shows the telemetry of its drive, each reading in its own column.
pub proof fn law_rows_show_their_telemetry(
    s: Seq<RouteSummary>,
    c: Seq<SubClipSummary>,
    idx: int,
    tags: Seq<TagEntry>,
    bridges: Seq<F64>,
    d: DriveSummary,
)
    requires
        is_row(s, c, idx, tags, bridges, d),
    ensures
        exists|r: DriveTelemetryRollup|
            {
                &&& #[trigger] rolls_up(s, c, r)
                &&& d.battery_pct_start == r.battery_pct_start
                &&& d.battery_pct_end == r.battery_pct_end
                &&& d.battery_pct_used == r.battery_pct_used
                &&& d.interior_temp_min_c == r.interior_temp_min_c
                &&& d.interior_temp_max_c == r.interior_temp_max_c
                &&& d.exterior_temp_avg_c == r.exterior_temp_avg_c
                &&& d.hvac_runtime_s == r.hvac_runtime_s
                &&& d.tire_fl_psi == r.tire_fl_psi
                &&& d.tire_fr_psi == r.tire_fr_psi
                &&& d.tire_rl_psi == r.tire_rl_psi
                &&& d.tire_rr_psi == r.tire_rr_psi
                &&& d.odometer_mi_start == r.odometer_mi_start
                &&& d.odometer_mi_end == r.odometer_mi_end
                &&& d.odometer_mi_driven == r.odometer_mi_driven
                &&& text_view(d.start_location) == text_view(r.location_name_start)
                &&& text_view(d.end_location) == text_view(r.location_name_end)
            },
        labelled(s, c, idx, tags, d),
        measured_columns(s, c, bridges, d),
{
}

/// A drive lists the file of every member, and no other, in the order in which they are
/// first met.
pub proof fn law_drives_list_every_file(s: Seq<RouteSummary>, c: Seq<SubClipSummary>, n: int)
    requires
        0 <= n <= c.len(),
    ensures
        forall|i: int| 0 <= i < n ==> drive_files(s, c, n).contains((#[trigger] clip_behind(s, c, i)).file@),
        forall|j: int|
            0 <= j < drive_files(s, c, n).len() ==> exists|i: int|
                0 <= i < n && (#[trigger] clip_behind(s, c, i)).file@ == #[trigger] drive_files(s, c, n)[j],
    decreases n,
{
    if n > 0 {
        law_drives_list_every_file(s, c, n - 1);
        lemma_opens_file(s, c, n - 1);
        let b = drive_files(s, c, n - 1);
        let r = drive_files(s, c, n);
        assert forall|i: int| 0 <= i < n implies r.contains((#[trigger] clip_behind(s, c, i)).file@) by {
            let x = clip_behind(s, c, i).file@;
            if i < n - 1 {
                assert(b.contains(x));
                let j = choose|j: int| 0 <= j < b.len() && b[j] == x;
                assert(r[j] == x);
            } else if opens_file(s, c, i) {
                assert(r[r.len() - 1] == x);
            } else {
                let k = choose|k: int| 0 <= k < i && (#[trigger] clip_behind(s, c, k)).file@ == x;
                assert(b.contains(clip_behind(s, c, k).file@));
            }
        }
        assert forall|j: int| 0 <= j < r.len() implies exists|i: int|
            0 <= i < n && (#[trigger] clip_behind(s, c, i)).file@ == #[trigger] r[j] by {
            if j < b.len() {
                assert(r[j] == b[j]);
                let i = choose|i: int| 0 <= i < n - 1 && (#[trigger] clip_behind(s, c, i)).file@ == b[j];
                assert(clip_behind(s, c, i).file@ == r[j]);
            } else {
                assert(clip_behind(s, c, n - 1).file@ == r[j]);
            }
        }
    }
}

/// A drive goes by its number, and where a text names no drive by number, by the first
/// drive that starts at it.
pub proof fn law_drives_go_by_number_or_start(s: Seq<RouteSummary>, id: Seq<char>, i: int)
    requires
        0 <= i <= sub_drives(s).len(),
        forall|j: int| 0 <= j < i ==> #[trigger] key_of_drive(s, j) != id,
    ensures
        spelled(id, false) matches Some(n) ==> n < sub_drives(s).len() ==> drive_named(s, id) == Some(n),
        match drive_starting(s, id, i) {
            Some(k) => i <= k < sub_drives(s).len() && stamp_text(sub_drives(s)[k][0].ts as int) == id
                && forall|j: int| 0 <= j < k ==> #[trigger] key_of_drive(s, j) != id,
            None => forall|j: int| 0 <= j < sub_drives(s).len() ==> #[trigger] key_of_drive(s, j) != id,
        },
    decreases sub_drives(s).len() - i,
{
    if i < sub_drives(s).len() && key_of_drive(s, i) != id {
        law_drives_go_by_number_or_start(s, id, i + 1);
    }
}

/// The gap in front of a clip is measured from where the car was last seen to where the
/// clip starts.
pub proof fn law_gaps_are_measured<G: Fn(F64, F64, F64, F64) -> F64>(
    s: Seq<RouteSummary>,
    c: Seq<SubClipSummary>,
    geodesic: G,
    bridges: Seq<F64>,
    i: int,
)
    requires
        bridged_by(s, c, geodesic, bridges),
        0 <= i < c.len(),
        gap_ends(s, c, i) is Some,
    ensures
        ({
            let (p, q) = gap_ends(s, c, i)->0;
            call_ensures(geodesic, (p.lat, p.lng, q.lat, q.lng), bridges[i])
        }),
{
}

} // verus!
