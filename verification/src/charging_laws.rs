//! What the summary of a charge session tells of its samples.

use crate::charging::{
    ChargeRow, ChargeSessionSummary, Reading, area, dominant_fix, fix_count, fix_of, is_summary_of,
    last_limit, law_sessions_keep_every_row, peak_power, place_from, point_of, power_points,
    reading_before, reading_from, reading_of, row_charges, sessions_of,
};
use crate::clock::gap;
use crate::float::{F64, fabs, fadd, fdiv, fle, flt, fmul, from_int, fsub, is_nan, zero};
use crate::nearness::{
    lemma_near_int, lemma_near_itself, lemma_near_more, lemma_near_product, lemma_near_quotient,
    lemma_near_sum, lemma_rounded_near, lemma_sign_of_near, lemma_total_within, lemma_within_int,
    lemma_within_more, lemma_within_product, near, total, within,
};
use crate::rounding::{lemma_one, lemma_order, one, size_of};
use crate::row_laws::{known, lemma_within_quotient};
use crate::summary::text_view;
use crate::summary_laws::tame;
use crate::types::GpsPoint;
use vstd::prelude::*;

verus! {

// ---------------------------------------------------------------------------
// Sessions
// ---------------------------------------------------------------------------

/// A session ends only at a pause: from its last sample to the first one of the next
/// session more than half an hour passes, and between neighbours within it no more
/// than that.
pub proof fn law_sessions_end_at_a_pause(rows: Seq<ChargeRow>, n: int, k: int)
    requires
        0 <= n <= rows.len(),
        0 <= k < sessions_of(rows, n).len(),
    ensures
        sessions_of(rows, n)[k].len() > 0,
        k + 1 < sessions_of(rows, n).len() ==> sessions_of(rows, n)[k + 1].len() > 0 && gap(
            sessions_of(rows, n)[k].last().ts as int,
            sessions_of(rows, n)[k + 1][0].ts as int,
        ) > 1800,
        forall|i: int|
            0 < i < sessions_of(rows, n)[k].len() ==> gap(
                sessions_of(rows, n)[k][i - 1].ts as int,
                #[trigger] sessions_of(rows, n)[k][i].ts as int,
            ) <= 1800,
    decreases n,
{
    law_sessions_keep_every_row(rows, n);
    if n > 0 {
        law_sessions_keep_every_row(rows, n - 1);
        let s = sessions_of(rows, n - 1);
        let t = sessions_of(rows, n);
        if k < s.len() {
            law_sessions_end_at_a_pause(rows, n - 1, k);
        }
        assert forall|i: int| 0 < i < t[k].len() implies gap(
            t[k][i - 1].ts as int,
            #[trigger] t[k][i].ts as int,
        ) <= 1800 by {
            if k < s.len() && i < s[k].len() {
                assert(t[k][i] == s[k][i] && t[k][i - 1] == s[k][i - 1]);
            }
        }
    }
}

// ---------------------------------------------------------------------------
// Readings
// ---------------------------------------------------------------------------

proof fn lemma_peak_power(rows: Seq<ChargeRow>, n: int)
    requires
        0 <= n <= rows.len(),
    ensures
        forall|i: int|
            0 <= i < n && (#[trigger] rows[i]).power_kw is Some ==> peak_power(rows, n) is Some
                && rows[i].power_kw->0 <= peak_power(rows, n)->0,
        peak_power(rows, n) is Some ==> exists|i: int|
            0 <= i < n && (#[trigger] rows[i]).power_kw == peak_power(rows, n),
    decreases n,
{
    if n > 0 {
        lemma_peak_power(rows, n - 1);
        if peak_power(rows, n) is Some {
            if peak_power(rows, n) == rows[n - 1].power_kw {
                assert(rows[n - 1].power_kw == peak_power(rows, n));
            } else {
                let i = choose|i: int|
                    0 <= i < n - 1 && (#[trigger] rows[i]).power_kw == peak_power(rows, n - 1);
                assert(rows[i].power_kw == peak_power(rows, n));
            }
        }
    }
}

/// The peak power of a session is its greatest: no sample has more, and some sample has
/// it. There is none only where no sample has a power. Charging counts as fast where a
/// sample has more than 22 kW.
pub proof fn law_peak_is_the_greatest_power(rows: Seq<ChargeRow>, s: ChargeSessionSummary)
    requires
        rows.len() > 0,
        is_summary_of(rows, s),
    ensures
        forall|i: int|
            0 <= i < rows.len() && (#[trigger] rows[i]).power_kw is Some ==> s.peak_power_kw is Some
                && rows[i].power_kw->0 <= s.peak_power_kw->0,
        s.peak_power_kw is Some ==> exists|i: int|
            0 <= i < rows.len() && (#[trigger] rows[i]).power_kw == s.peak_power_kw,
        s.fast_charging <==> exists|i: int|
            0 <= i < rows.len() && (#[trigger] rows[i]).power_kw is Some && rows[i].power_kw->0
                > 22,
{
    lemma_peak_power(rows, rows.len() as int);
    if s.fast_charging {
        let i = choose|i: int|
            0 <= i < rows.len() && (#[trigger] rows[i]).power_kw == s.peak_power_kw;
        assert(rows[i].power_kw->0 > 22);
    }
}

/// `x` is what the first sample with such a reading reads.
pub open spec fn is_first<T>(v: Seq<Option<T>>, x: Option<T>) -> bool {
    match x {
        Some(_) => exists|i: int|
            0 <= i < v.len() && #[trigger] v[i] == x && forall|j: int| 0 <= j < i ==> v[j] is None,
        None => forall|i: int| 0 <= i < v.len() ==> #[trigger] v[i] is None,
    }
}

/// `x` is what the last sample with such a reading reads.
pub open spec fn is_last<T>(v: Seq<Option<T>>, x: Option<T>) -> bool {
    match x {
        Some(_) => exists|i: int|
            0 <= i < v.len() && #[trigger] v[i] == x && forall|j: int|
                i < j < v.len() ==> v[j] is None,
        None => forall|i: int| 0 <= i < v.len() ==> #[trigger] v[i] is None,
    }
}

pub open spec fn charges_read(rows: Seq<ChargeRow>) -> Seq<Option<F64>> {
    Seq::new(rows.len(), |i: int| rows[i].battery_pct)
}

pub open spec fn ranges_read(rows: Seq<ChargeRow>) -> Seq<Option<F64>> {
    Seq::new(rows.len(), |i: int| rows[i].range_mi)
}

pub open spec fn limits_read(rows: Seq<ChargeRow>) -> Seq<Option<i64>> {
    Seq::new(rows.len(), |i: int| rows[i].limit_soc)
}

pub open spec fn places_read(rows: Seq<ChargeRow>) -> Seq<Option<Seq<char>>> {
    Seq::new(rows.len(), |i: int| text_view(rows[i].location))
}

proof fn lemma_reading_from(rows: Seq<ChargeRow>, what: Reading, v: Seq<Option<F64>>, i: int)
    requires
        0 <= i <= rows.len(),
        v.len() == rows.len(),
        forall|k: int| 0 <= k < v.len() ==> #[trigger] v[k] == reading_of(rows[k], what),
        forall|k: int| 0 <= k < i ==> #[trigger] v[k] is None,
    ensures
        is_first(v, reading_from(rows, what, i)),
    decreases rows.len() - i,
{
    if i < rows.len() {
        if reading_of(rows[i], what) is None {
            lemma_reading_from(rows, what, v, i + 1);
        } else {
            assert(v[i] == reading_from(rows, what, i));
        }
    }
}

proof fn lemma_reading_before(rows: Seq<ChargeRow>, what: Reading, v: Seq<Option<F64>>, n: int)
    requires
        0 <= n <= rows.len(),
        v.len() == rows.len(),
        forall|k: int| 0 <= k < v.len() ==> #[trigger] v[k] == reading_of(rows[k], what),
        forall|k: int| n <= k < v.len() ==> #[trigger] v[k] is None,
    ensures
        is_last(v, reading_before(rows, what, n)),
    decreases n,
{
    if n > 0 {
        if reading_of(rows[n - 1], what) is None {
            lemma_reading_before(rows, what, v, n - 1);
        } else {
            assert(v[n - 1] == reading_before(rows, what, n));
        }
    }
}

proof fn lemma_last_limit(rows: Seq<ChargeRow>, n: int)
    requires
        0 <= n <= rows.len(),
        forall|k: int| n <= k < rows.len() ==> (#[trigger] limits_read(rows)[k]) is None,
    ensures
        is_last(limits_read(rows), last_limit(rows, n)),
    decreases n,
{
    if n > 0 {
        if rows[n - 1].limit_soc is None {
            lemma_last_limit(rows, n - 1);
        } else {
            assert(limits_read(rows)[n - 1] == last_limit(rows, n));
        }
    }
}

proof fn lemma_place_from(rows: Seq<ChargeRow>, i: int)
    requires
        0 <= i <= rows.len(),
        forall|k: int| 0 <= k < i ==> (#[trigger] places_read(rows)[k]) is None,
    ensures
        is_first(places_read(rows), place_from(rows, i)),
    decreases rows.len() - i,
{
    if i < rows.len() {
        if rows[i].location is None {
            lemma_place_from(rows, i + 1);
        } else {
            assert(places_read(rows)[i] == place_from(rows, i));
        }
    }
}

/// A session starts with the first charge and range that were read and ends with the
/// last ones; its limit is the last, its place the first that was named.
pub proof fn law_sessions_lead_from_first_to_last(rows: Seq<ChargeRow>, s: ChargeSessionSummary)
    requires
        rows.len() > 0,
        is_summary_of(rows, s),
    ensures
        is_first(charges_read(rows), s.start_soc),
        is_last(charges_read(rows), s.end_soc),
        is_first(ranges_read(rows), s.start_range_mi),
        is_last(ranges_read(rows), s.end_range_mi),
        is_last(limits_read(rows), s.charge_limit_soc),
        is_first(places_read(rows), text_view(s.location)),
{
    let n = rows.len() as int;
    lemma_reading_from(rows, Reading::BatteryPct, charges_read(rows), 0);
    lemma_reading_before(rows, Reading::BatteryPct, charges_read(rows), n);
    lemma_reading_from(rows, Reading::RangeMi, ranges_read(rows), 0);
    lemma_reading_before(rows, Reading::RangeMi, ranges_read(rows), n);
    lemma_last_limit(rows, n);
    lemma_place_from(rows, 0);
}

/// A session is named by the second of its first sample, and lasts from there to its
/// last sample.
pub proof fn law_sessions_last_from_first_to_last(rows: Seq<ChargeRow>, s: ChargeSessionSummary)
    requires
        rows.len() > 0,
        is_summary_of(rows, s),
        -9_000_000_000_000_000 <= rows[0].ts <= rows.last().ts <= 9_000_000_000_000_000,
    ensures
        s.id == rows[0].ts,
        s.start_ms == 1000 * s.id,
        s.end_ms == s.start_ms + 1000 * s.duration_secs,
        s.duration_secs == rows.last().ts - rows[0].ts,
{
}

// ---------------------------------------------------------------------------
// Where
// ---------------------------------------------------------------------------

/// The samples that stand at `p`.
pub open spec fn samples_at(rows: Seq<ChargeRow>, p: GpsPoint, n: int) -> Set<int> {
    Set::new(|i: int| 0 <= i < n && rows[i].lat == Some(p.lat) && rows[i].lon == Some(p.lng))
}

proof fn lemma_fix_count(rows: Seq<ChargeRow>, p: GpsPoint, n: int)
    requires
        0 <= n <= rows.len(),
    ensures
        samples_at(rows, p, n).finite(),
        fix_count(rows, p, n) == samples_at(rows, p, n).len(),
    decreases n,
{
    if n <= 0 {
        assert(samples_at(rows, p, n) =~= Set::empty());
    } else {
        lemma_fix_count(rows, p, n - 1);
        if rows[n - 1].lat == Some(p.lat) && rows[n - 1].lon == Some(p.lng) {
            assert(samples_at(rows, p, n) =~= samples_at(rows, p, n - 1).insert(n - 1));
        } else {
            assert(samples_at(rows, p, n) =~= samples_at(rows, p, n - 1));
        }
    }
}

proof fn lemma_dominant_fix(rows: Seq<ChargeRow>, n: int)
    requires
        0 <= n <= rows.len(),
    ensures
        forall|i: int|
            0 <= i < n && fix_of(#[trigger] rows[i]) is Some ==> dominant_fix(rows, n) is Some
                && fix_count(rows, fix_of(rows[i])->0, rows.len() as int) <= fix_count(
                rows,
                dominant_fix(rows, n)->0,
                rows.len() as int,
            ),
        dominant_fix(rows, n) is Some ==> exists|i: int|
            0 <= i < n && fix_of(#[trigger] rows[i]) == dominant_fix(rows, n) && forall|j: int|
                i < j < n && fix_of(#[trigger] rows[j]) is Some ==> fix_count(
                    rows,
                    fix_of(rows[j])->0,
                    rows.len() as int,
                ) < fix_count(rows, dominant_fix(rows, n)->0, rows.len() as int),
    decreases n,
{
    if n > 0 {
        lemma_dominant_fix(rows, n - 1);
        let d = dominant_fix(rows, n);
        if d is Some {
            if fix_of(rows[n - 1]) == d {
                assert(fix_of(rows[n - 1]) == d);
            } else {
                let i = choose|i: int|
                    0 <= i < n - 1 && fix_of(#[trigger] rows[i]) == d && forall|j: int|
                        i < j < n - 1 && fix_of(#[trigger] rows[j]) is Some ==> fix_count(
                            rows,
                            fix_of(rows[j])->0,
                            rows.len() as int,
                        ) < fix_count(rows, d->0, rows.len() as int);
                assert(fix_of(rows[i]) == d);
            }
        }
    }
}

/// A session is where most of its samples stand; of places with as many, at the one
/// seen last.
pub proof fn law_sessions_are_where_most_samples_are(rows: Seq<ChargeRow>, s: ChargeSessionSummary)
    requires
        rows.len() > 0,
        is_summary_of(rows, s),
    ensures
        s.location_lat is Some <==> s.location_lon is Some,
        s.location_lat is None <==> forall|i: int|
            0 <= i < rows.len() ==> (#[trigger] rows[i]).lat is None || rows[i].lon is None,
        s.location_lat is Some ==> ({
            let p = GpsPoint { lat: s.location_lat->0, lng: s.location_lon->0 };
            let n = rows.len() as int;
            exists|i: int|
                0 <= i < n && (#[trigger] rows[i]).lat == Some(p.lat) && rows[i].lon == Some(p.lng)
                    && forall|j: int|
                    0 <= j < n && (#[trigger] rows[j]).lat is Some && rows[j].lon is Some ==> ({
                        let q = GpsPoint { lat: rows[j].lat->0, lng: rows[j].lon->0 };
                        samples_at(rows, q, n).len() <= samples_at(rows, p, n).len() && (j > i
                            ==> samples_at(rows, q, n).len() < samples_at(rows, p, n).len())
                    })
        }),
{
    let n = rows.len() as int;
    lemma_dominant_fix(rows, n);
    let d = dominant_fix(rows, n);
    if d is Some {
        let p = d->0;
        let i = choose|i: int|
            0 <= i < n && fix_of(#[trigger] rows[i]) == d && forall|j: int|
                i < j < n && fix_of(#[trigger] rows[j]) is Some ==> fix_count(
                    rows,
                    fix_of(rows[j])->0,
                    n,
                ) < fix_count(rows, d->0, n);
        assert(rows[i].lat == Some(p.lat) && rows[i].lon == Some(p.lng));
        lemma_fix_count(rows, p, n);
        assert forall|j: int|
            0 <= j < n && (#[trigger] rows[j]).lat is Some && rows[j].lon is Some implies ({
            let q = GpsPoint { lat: rows[j].lat->0, lng: rows[j].lon->0 };
            samples_at(rows, q, n).len() <= samples_at(rows, p, n).len() && (j > i ==> samples_at(
                rows,
                q,
                n,
            ).len() < samples_at(rows, p, n).len())
        }) by {
            let q = GpsPoint { lat: rows[j].lat->0, lng: rows[j].lon->0 };
            assert(fix_of(rows[j]) == Some(q));
            lemma_fix_count(rows, q, n);
        }
    } else {
        assert forall|i: int| 0 <= i < rows.len() implies (#[trigger] rows[i]).lat is None
            || rows[i].lon is None by {
            assert(fix_of(rows[i]) is None);
        }
    }
}

// ---------------------------------------------------------------------------
// Energy
// ---------------------------------------------------------------------------

/// Volts times amps in kilowatts.
pub open spec fn fine_power(volts: i64, amps: i64) -> F64 {
    fdiv(fmul(from_int(volts as int), from_int(amps as int)), from_int(1000))
}

/// Time and power of a sample: volts times amps where they are within one kilowatt of the
/// power that was read, else what was read.
pub open spec fn power_read(r: ChargeRow) -> Option<(i64, F64)> {
    if r.power_kw is None {
        None
    } else if r.voltage_v is Some && r.current_a is Some && fle(
        fabs(fsub(fine_power(r.voltage_v->0, r.current_a->0), from_int(r.power_kw->0 as int))),
        from_int(1),
    ) {
        Some((r.ts, fine_power(r.voltage_v->0, r.current_a->0)))
    } else {
        Some((r.ts, from_int(r.power_kw->0 as int)))
    }
}

pub open spec fn powers_read(rows: Seq<ChargeRow>) -> Seq<Option<(i64, F64)>> {
    Seq::new(rows.len(), |i: int| power_read(rows[i]))
}

proof fn lemma_power_points(rows: Seq<ChargeRow>, n: int)
    requires
        0 <= n <= rows.len(),
    ensures
        power_points(rows, n) == known(powers_read(rows).take(n)),
    decreases n,
{
    let v = powers_read(rows);
    if n > 0 {
        lemma_power_points(rows, n - 1);
        assert(v.take(n).drop_last() =~= v.take(n - 1));
        assert(v.take(n).last() == v[n - 1]);
    }
}

/// Seconds into point `i + 1`; none where time goes back.
pub open spec fn seconds_on(pts: Seq<(i64, F64)>, i: int) -> nat {
    if pts[i].0 < pts[i + 1].0 {
        (pts[i + 1].0 - pts[i].0) as nat
    } else {
        0
    }
}

/// Twice the area between points `i` and `i + 1`, in units times seconds.
pub open spec fn trapezoids(pts: Seq<(i64, F64)>) -> spec_fn(int) -> nat {
    |i: int| (size_of(pts[i].1) + size_of(pts[i + 1].1)) * seconds_on(pts, i)
}

/// Powers and times are in order.
pub open spec fn powers_tame(pts: Seq<(i64, F64)>) -> bool {
    &&& forall|i: int| 0 <= i < pts.len() ==> tame((#[trigger] pts[i]).1)
    &&& forall|i: int| 0 <= i < pts.len() - 1 ==> seconds_on(pts, i) <= 0xFFFF_FFFF && pts[i].0
        <= (#[trigger] pts[i + 1]).0
}

proof fn lemma_trapezoid(a: F64, b: F64, t: nat)
    requires
        tame(a),
        tame(b),
        1 <= t <= 0xFFFF_FFFF,
    ensures
        near(
            fmul(fdiv(fadd(a, b), from_int(2)), fdiv(from_int(t as int), from_int(3600))),
            (size_of(a) + size_of(b)) * t,
            one() * 7200,
            7,
        ),
        flt(zero(), fdiv(from_int(t as int), from_int(3600))),
        within((size_of(a) + size_of(b)) * t, one() * 7200, 200),
{
    let u = one();
    let (x, y) = (size_of(a), size_of(b));
    let m = x + y;
    lemma_one();
    lemma_near_itself(a);
    lemma_near_itself(b);
    lemma_within_more(x, u, 100, 900);
    lemma_within_more(y, u, 100, 900);
    lemma_near_sum(a, b, x, y, u, 0);
    lemma_near_int(2);
    lemma_near_int(3600);
    lemma_near_int(t);
    lemma_within_int(2);
    lemma_within_int(3600);
    lemma_within_int(t);
    lemma_within_sum(x, y, u);
    lemma_within_more(m, u, 101, 400);
    lemma_within_more(2, 1, 32, 400);
    lemma_within_more(3600, 1, 32, 400);
    lemma_within_more(t, 1, 32, 400);
    assert(1nat * 0 == 0 && 0nat * 0 == 0 && 3nat * 2 == 6);
    let half = fdiv(fadd(a, b), from_int(2));
    let hours = fdiv(from_int(t as int), from_int(3600));
    lemma_near_quotient(fadd(a, b), from_int(2), m, u, 2, 1, 1, 0, 400);
    lemma_near_quotient(from_int(t as int), from_int(3600), t, 1, 3600, 1, 0, 0, 400);
    assert(m * 1 == m && t * 1 == t && 1 * 3600 == 3600nat);
    lemma_within_ratio(m, u);
    lemma_within_quotient(t, 3600);
    lemma_within_more(m, u * 2, 102, 400);
    lemma_within_more(t, 3600, 64, 400);
    lemma_near_product(half, hours, m, u * 2, t, 3600, 3, 2, 400);
    assert((u * 2) * 3600 == u * 7200) by (nonlinear_arith);
    lemma_within_product(m, u * 2, 102, t, 3600, 64);
    lemma_within_more(m * t, u * 7200, 166, 200);
    lemma_sign_of_near(hours, t, 3600, 2);
    assert(size_of(zero()) == 0);
    lemma_order(zero(), hours);
}

proof fn lemma_within_sum(x: nat, y: nat, u: nat)
    requires
        within(x, u, 100),
        within(y, u, 100),
    ensures
        within(x + y, u, 101),
{
    vstd::arithmetic::power2::lemma_pow2_unfold(101);
    let t = vstd::arithmetic::power2::pow2(100);
    assert(x + y <= u * (2 * t)) by (nonlinear_arith)
        requires
            x <= u * t,
            y <= u * t,
    ;
    assert(x + y > 0 ==> u <= (x + y) * (2 * t)) by (nonlinear_arith)
        requires
            x > 0 ==> u <= x * t,
            y > 0 ==> u <= y * t,
    ;
}

proof fn lemma_within_ratio(m: nat, u: nat)
    requires
        within(m, u, 101),
    ensures
        within(m, u * 2, 102),
{
    vstd::arithmetic::power2::lemma_pow2_unfold(102);
    let t = vstd::arithmetic::power2::pow2(101);
    assert(m <= (u * 2) * (2 * t)) by (nonlinear_arith)
        requires
            m <= u * t,
    ;
    assert(m > 0 ==> u * 2 <= m * (2 * t)) by (nonlinear_arith)
        requires
            m > 0 ==> u <= m * t,
    ;
}

proof fn lemma_area(pts: Seq<(i64, F64)>, n: int)
    requires
        1 <= n <= pts.len(),
        n <= 0x8000_0000,
        powers_tame(pts),
    ensures
        near(area(pts, n), total(trapezoids(pts), n - 1), one() * 7200, (n + 6) as nat),
        within(total(trapezoids(pts), n - 1), one() * 7200, 232),
    decreases n,
{
    let u = one();
    let q = trapezoids(pts);
    lemma_one();
    assert(u * 7200 > 0);
    assert forall|i: int| 0 <= i < n - 1 implies within(#[trigger] q(i), u * 7200, 200) by {
        lemma_step_within(pts, i);
    }
    lemma_total_within(q, n - 1, u * 7200, 200);
    if n == 1 {
        assert(size_of(zero()) == 0);
        assert(0 * one() == 0 && 0 * (u * 7200) == 0) by (nonlinear_arith);
    } else {
        lemma_area(pts, n - 1);
        let i = n - 2;
        let (a, b) = (pts[i].1, pts[i + 1].1);
        let t = seconds_on(pts, i);
        assert(tame(pts[i].1) && tame(pts[i + 1].1));
        let e = (n + 5) as nat;
        let before = area(pts, n - 1);
        if t > 0 {
            lemma_trapezoid(a, b, t);
            let term = fmul(
                fdiv(fadd(a, b), from_int(2)),
                fdiv(from_int(t as int), from_int(3600)),
            );
            lemma_near_more(term, q(i), u * 7200, 7, e);
            lemma_within_more(total(q, n - 2), u * 7200, 232, 900);
            lemma_within_more(q(i), u * 7200, 200, 900);
            lemma_near_sum(before, term, total(q, n - 2), q(i), u * 7200, e);
        } else {
            assert((size_of(a) + size_of(b)) * 0 == 0) by (nonlinear_arith);
            assert(q(i) == 0);
            assert(gap(pts[i].0 as int, pts[i + 1].0 as int) == 0);
            lemma_no_hours();
            lemma_near_more(before, total(q, n - 2), u * 7200, e, e + 1);
        }
    }
}

proof fn lemma_no_hours()
    ensures
        !flt(zero(), fdiv(from_int(0), from_int(3600))),
{
    lemma_near_int(0);
    lemma_near_int(3600);
    lemma_within_int(0);
    lemma_within_int(3600);
    lemma_within_more(0, 1, 32, 400);
    lemma_within_more(3600, 1, 32, 400);
    assert(0nat * 0 == 0);
    lemma_near_quotient(from_int(0), from_int(3600), 0, 1, 3600, 1, 0, 0, 400);
    let h = fdiv(from_int(0), from_int(3600));
    assert(0nat * 1 == 0);
    lemma_sign_of_near(h, 0, 1 * 3600, 2);
    assert(size_of(zero()) == 0);
    lemma_order(zero(), h);
}

proof fn lemma_step_within(pts: Seq<(i64, F64)>, i: int)
    requires
        0 <= i < pts.len() - 1,
        powers_tame(pts),
    ensures
        within(trapezoids(pts)(i), one() * 7200, 200),
{
    let t = seconds_on(pts, i);
    assert(tame(pts[i].1) && tame(pts[i + 1].1));
    if t > 0 {
        lemma_trapezoid(pts[i].1, pts[i + 1].1, t);
    } else {
        assert((size_of(pts[i].1) + size_of(pts[i + 1].1)) * 0 == 0) by (nonlinear_arith);
        lemma_one();
    }
}

/// The energy that a session drew is the area under its power: between any two samples in
/// a row the mean of their powers for the time between them, in kilowatt hours, up to
/// rounding. There is none without two samples, or where the area is none.
pub proof fn law_energy_is_the_area_under_the_power(rows: Seq<ChargeRow>, s: ChargeSessionSummary)
    requires
        0 < rows.len() <= 0x8000_0000,
        is_summary_of(rows, s),
        powers_tame(known(powers_read(rows))),
    ensures
        ({
            let pts = known(powers_read(rows));
            let n = pts.len() as int;
            match s.energy_used_kwh {
                Some(kwh) => n >= 2 && total(trapezoids(pts), n - 1) > 0 && near(
                    kwh,
                    total(trapezoids(pts), n - 1),
                    one() * 7200,
                    (n + 6) as nat,
                ),
                None => n < 2 || total(trapezoids(pts), n - 1) == 0,
            }
        }),
{
    let m = rows.len() as int;
    let pts = known(powers_read(rows));
    lemma_power_points(rows, m);
    assert(powers_read(rows).take(m) =~= powers_read(rows));
    lemma_known_len(powers_read(rows));
    let n = pts.len() as int;
    if n >= 2 {
        lemma_area(pts, n);
        let kwh = area(pts, n);
        lemma_sign_of_near(kwh, total(trapezoids(pts), n - 1), one() * 7200, (n + 6) as nat);
        assert(size_of(zero()) == 0);
        lemma_order(zero(), kwh);
    }
}

proof fn lemma_known_len<T>(v: Seq<Option<T>>)
    ensures
        known(v).len() <= v.len(),
    decreases v.len(),
{
    if v.len() > 0 {
        lemma_known_len(v.drop_last());
    }
}

/// The energy that a session added is what its counter grew by from the first sample to
/// the last: never below zero, and all of it where the first sample has none.
pub proof fn law_energy_added_is_the_growth(rows: Seq<ChargeRow>, s: ChargeSessionSummary)
    requires
        rows.len() > 0,
        is_summary_of(rows, s),
    ensures
        rows.last().energy_added_kwh is None <==> s.energy_added_kwh is None,
        rows[0].energy_added_kwh is None ==> s.energy_added_kwh == rows.last().energy_added_kwh,
        rows[0].energy_added_kwh is Some && rows.last().energy_added_kwh is Some ==> ({
            let grown = fsub(rows.last().energy_added_kwh->0, rows[0].energy_added_kwh->0);
            s.energy_added_kwh == Some(
                if fle(zero(), grown) && !fle(grown, zero()) {
                    grown
                } else if is_nan(grown) || flt(grown, zero()) {
                    zero()
                } else {
                    grown
                },
            )
        }),
{
}

/// Efficiency is energy added of energy used; a session that added what it used is at
/// 100 percent, and there is none without energy used.
pub proof fn law_efficiency_is_added_of_used(rows: Seq<ChargeRow>, s: ChargeSessionSummary)
    requires
        rows.len() > 0,
        is_summary_of(rows, s),
    ensures
        s.efficiency_pct is Some <==> s.energy_added_kwh is Some && s.energy_used_kwh is Some,
        s.efficiency_pct is Some && fle(
            zero(),
            fmul(fdiv(s.energy_added_kwh->0, s.energy_used_kwh->0), from_int(100)),
        ) && fle(
            fmul(fdiv(s.energy_added_kwh->0, s.energy_used_kwh->0), from_int(100)),
            from_int(100),
        ) ==> s.efficiency_pct->0 == fmul(
            fdiv(s.energy_added_kwh->0, s.energy_used_kwh->0),
            from_int(100),
        ),
{
}

// ---------------------------------------------------------------------------
// What counts as charging
// ---------------------------------------------------------------------------

/// A sample counts as charging by the car's own phase where it is known; else by its rate;
/// else by its power.
pub proof fn law_charging_goes_by_phase_then_rate_then_power(r: ChargeRow)
    ensures
        r.charging_state matches Some(p) ==> (row_charges(r) <==> p@ == "charging"@ || p@
            == "starting"@ || p@ == "calibrating"@),
        r.charging_state is None && r.rate_mph is Some ==> (row_charges(r) <==> flt(
            zero(),
            r.rate_mph->0,
        )),
        r.charging_state is None && r.rate_mph is None ==> (row_charges(r) <==> r.power_kw is Some
            && r.power_kw->0 > 0),
{
}

/// A chart point tells of its sample, with the time in milliseconds; a current that was
/// not measured is worked out from power and voltage.
pub proof fn law_chart_points_tell_of_their_samples(r: ChargeRow)
    requires
        -9_000_000_000_000_000 <= r.ts <= 9_000_000_000_000_000,
    ensures
        point_of(r).ts == 1000 * r.ts,
        point_of(r).power_kw == r.power_kw,
        point_of(r).voltage_v == r.voltage_v,
        point_of(r).rate_mph == r.rate_mph,
        point_of(r).soc == r.battery_pct,
        point_of(r).range_mi == r.range_mi,
        point_of(r).energy_added_kwh == r.energy_added_kwh,
        r.current_a is Some && r.current_a->0 > 0 ==> point_of(r).current_a == r.current_a,
        r.power_kw is None || r.voltage_v is None || r.power_kw->0 <= 0 || r.voltage_v->0 <= 0
            ==> point_of(r).current_a == r.current_a,
        (r.current_a is None || r.current_a->0 <= 0) && r.power_kw is Some && r.voltage_v is Some && 0
            < r.power_kw->0 <= 0xF_FFFF && 0 < r.voltage_v->0 <= 0xFFFF_FFFF
            ==> point_of(r).current_a is Some && ({
            let (amps, volts) = (point_of(r).current_a->0, r.voltage_v->0);
            amps * volts < 1000 * r.power_kw->0 + volts && 1000 * r.power_kw->0 < amps * volts
                + volts
        }),
{
    if (r.current_a is None || r.current_a->0 <= 0) && r.power_kw is Some && r.voltage_v is Some && 0
        < r.power_kw->0 <= 0xF_FFFF && 0 < r.voltage_v->0 <= 0xFFFF_FFFF {
        let p = r.power_kw->0 as nat;
        let v = r.voltage_v->0 as nat;
        lemma_near_int(p);
        lemma_near_int(1000);
        lemma_near_int(v);
        lemma_within_int(p);
        lemma_within_int(1000);
        lemma_within_int(v);
        lemma_within_more(p, 1, 32, 400);
        lemma_within_more(1000, 1, 32, 400);
        lemma_within_more(v, 1, 32, 400);
        assert(0nat * 0 == 0 && 2nat * 0 == 0);
        lemma_near_product(from_int(p as int), from_int(1000), p, 1, 1000, 1, 0, 0, 400);
        lemma_within_product(p, 1, 32, 1000, 1, 32);
        lemma_within_more(p * 1000, 1, 64, 400);
        let w = fmul(from_int(p as int), from_int(1000));
        assert(1nat * 1 == 1);
        lemma_near_quotient(w, from_int(v as int), p * 1000, 1, v, 1, 2, 0, 400);
        assert(p * 1000 * 1 == p * 1000 && 1 * v == v);
        assert(p * 1000 <= v * 0x4000_0000) by (nonlinear_arith)
            requires
                p <= 0xF_FFFF,
                v >= 1,
        ;
        lemma_rounded_near(
            fdiv(w, from_int(v as int)),
            p * 1000,
            v,
            4,
            0x4000_0000,
            i64::MIN as int,
            i64::MAX as int,
        );
    }
}

} // verus!
