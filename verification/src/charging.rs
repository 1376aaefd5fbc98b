//! Charge sessions derived from telemetry samples.

use crate::aggregate::{mul_held, sat_mul};
use crate::clock::{gap, gap_held};
use crate::float::{
    F64, HALF64, fabs, fadd, fdiv, fle, flt, fmax, fmul, from_int, fround, fsub, fsum, is_nan,
    to_int, zero,
};
use crate::rounding::{lemma_from_int_exact, lemma_order, lemma_rounded_spots};
use crate::summary::{copy_text, text_view};
use crate::text::same_text;
use crate::timeline::views;
use crate::types::GpsPoint;
use vstd::prelude::*;

verus! {

/// A longer pause between two charging samples ends the session.
pub const SESSION_GAP_SECS: i64 = 1_800;

/// Peak power in kW above which a session counts as fast charging.
pub const FAST_CHARGE_THRESHOLD_KW: i64 = 22;

/// One telemetry sample of a charging car.
#[derive(Clone, Debug)]
pub struct ChargeRow {
    pub ts: i64,
    pub power_kw: Option<i64>,
    pub current_a: Option<i64>,
    pub voltage_v: Option<i64>,
    pub rate_mph: Option<F64>,
    pub energy_added_kwh: Option<F64>,
    pub limit_soc: Option<i64>,
    pub range_mi: Option<F64>,
    pub battery_pct: Option<F64>,
    pub location: Option<String>,
    pub lat: Option<F64>,
    pub lon: Option<F64>,
    /// The car's own charge phase, where it was recorded.
    pub charging_state: Option<String>,
}

/// Summary of one charge session.
#[derive(Clone, Debug)]
pub struct ChargeSessionSummary {
    /// Start of the session in seconds.
    pub id: i64,
    pub start_ms: i64,
    pub end_ms: i64,
    pub duration_secs: i64,
    pub location: Option<String>,
    pub location_lat: Option<F64>,
    pub location_lon: Option<F64>,
    pub energy_added_kwh: Option<F64>,
    /// Energy drawn from the charger.
    pub energy_used_kwh: Option<F64>,
    /// Energy added of energy used, in percent.
    pub efficiency_pct: Option<F64>,
    pub peak_power_kw: Option<i64>,
    pub start_soc: Option<F64>,
    pub end_soc: Option<F64>,
    pub start_range_mi: Option<F64>,
    pub end_range_mi: Option<F64>,
    pub charge_limit_soc: Option<i64>,
    pub tags: Vec<String>,
    pub cost: Option<F64>,
    pub rate: Option<F64>,
    pub currency: String,
    pub fast_charging: bool,
    pub cost_overridden: bool,
}

/// One point of the charts of a session.
#[derive(Clone, Copy, Debug, PartialEq, Eq)]
pub struct ChargePoint {
    pub ts: i64,
    pub power_kw: Option<i64>,
    pub current_a: Option<i64>,
    pub voltage_v: Option<i64>,
    pub rate_mph: Option<F64>,
    pub soc: Option<F64>,
    pub range_mi: Option<F64>,
    pub energy_added_kwh: Option<F64>,
}

// ---------------------------------------------------------------------------
// Power and energy
// ---------------------------------------------------------------------------

/// Mean of the values; `None` without any.
pub fn avg(values: &[F64]) -> (r: Option<F64>)
    ensures
        r == if values@.len() == 0 {
            None
        } else {
            Some(fdiv(fsum(values@), from_int(values@.len() as int)))
        },
{
    let n: usize = values.len();
    let mut sum: F64 = F64::from_bits(0);
    let mut i: usize = 0;
    proof {
        assert(values@.take(0) =~= Seq::<F64>::empty());
    }
    while i < n
        invariant
            i <= n,
            n == values@.len(),
            sum == fsum(values@.take(i as int)),
        decreases n - i,
    {
        sum = sum.plus(values[i]);
        proof {
            assert(values@.take(i + 1).drop_last() =~= values@.take(i as int));
        }
        i = i + 1;
    }
    proof {
        assert(values@.take(n as int) =~= values@);
    }
    if n == 0 {
        None
    } else {
        Some(sum.over(F64::of_usize(n)))
    }
}

/// Power of a sample: volts times amps where they agree with the whole kilowatts
/// to within one, else the whole kilowatts.
pub open spec fn power_of(r: ChargeRow) -> Option<F64> {
    match r.power_kw {
        None => None,
        Some(p) => {
            let coarse = from_int(p as int);
            match (r.voltage_v, r.current_a) {
                (Some(v), Some(a)) => {
                    let fine = fdiv(fmul(from_int(v as int), from_int(a as int)), from_int(1000));
                    if fle(fabs(fsub(fine, coarse)), from_int(1)) {
                        Some(fine)
                    } else {
                        Some(coarse)
                    }
                },
                _ => Some(coarse),
            }
        },
    }
}

pub fn sample_power_kw(r: &ChargeRow) -> (p: Option<F64>)
    ensures
        p == power_of(*r),
{
    match r.power_kw {
        None => None,
        Some(p) => {
            let coarse: F64 = F64::of_i64(p);
            match (r.voltage_v, r.current_a) {
                (Some(v), Some(a)) => {
                    let fine: F64 = F64::of_i64(v).times(F64::of_i64(a)).over(F64::of_u64(1000));
                    if fine.minus(coarse).abs().le(F64::of_u64(1)) {
                        Some(fine)
                    } else {
                        Some(coarse)
                    }
                },
                _ => Some(coarse),
            }
        },
    }
}

/// Current to show: what was measured, or power over voltage where the car
/// reported none.
pub open spec fn current_shown(
    power_kw: Option<i64>,
    voltage_v: Option<i64>,
    raw: Option<i64>,
) -> Option<i64> {
    match (raw, power_kw, voltage_v) {
        (Some(a), _, _) if a > 0 => Some(a),
        (_, Some(p), Some(v)) if v > 0 && p > 0 => Some(
            to_int(
                fround(fdiv(fmul(from_int(p as int), from_int(1000)), from_int(v as int))),
                i64::MIN as int,
                i64::MAX as int,
            ) as i64,
        ),
        _ => raw,
    }
}

/// Charger current in amps for display.
pub fn display_current_a(
    power_kw: Option<i64>,
    voltage_v: Option<i64>,
    raw: Option<i64>,
) -> (r: Option<i64>)
    ensures
        r == current_shown(power_kw, voltage_v, raw),
{
    match raw {
        Some(a) if a > 0 => Some(a),
        _ => match (power_kw, voltage_v) {
            (Some(p), Some(v)) if v > 0 && p > 0 => Some(
                F64::of_i64(p).times(F64::of_u64(1000)).over(F64::of_i64(v)).round().to_i64(),
            ),
            _ => raw,
        },
    }
}

/// Times and powers of the samples with a power, among the first `n`.
pub open spec fn power_points(rows: Seq<ChargeRow>, n: int) -> Seq<(i64, F64)>
    decreases n,
{
    if n <= 0 {
        Seq::empty()
    } else {
        match power_of(rows[n - 1]) {
            Some(p) => power_points(rows, n - 1).push((rows[n - 1].ts, p)),
            None => power_points(rows, n - 1),
        }
    }
}

/// Hours from point `i - 1` to point `i`.
pub open spec fn hours_before(pts: Seq<(i64, F64)>, i: int) -> F64 {
    fdiv(from_int(gap(pts[i - 1].0 as int, pts[i].0 as int)), from_int(3600))
}

/// Trapezoids under the first `n` points; steps back in time add nothing.
pub open spec fn area(pts: Seq<(i64, F64)>, n: int) -> F64
    decreases n,
{
    if n <= 1 {
        zero()
    } else if flt(zero(), hours_before(pts, n - 1)) {
        fadd(
            area(pts, n - 1),
            fmul(
                fdiv(fadd(pts[n - 2].1, pts[n - 1].1), from_int(2)),
                hours_before(pts, n - 1),
            ),
        )
    } else {
        area(pts, n - 1)
    }
}

/// Energy of a session in kWh: the integral of its power, where there are two
/// readings or more and it is above zero.
pub open spec fn energy_of(rows: Seq<ChargeRow>) -> Option<F64> {
    let pts = power_points(rows, rows.len() as int);
    let kwh = area(pts, pts.len() as int);
    if pts.len() >= 2 && flt(zero(), kwh) {
        Some(kwh)
    } else {
        None
    }
}

pub fn integrate_power_kwh(rows: &[ChargeRow]) -> (r: Option<F64>)
    ensures
        r == energy_of(rows@),
{
    let mut pts: Vec<(i64, F64)> = Vec::new();
    let mut i: usize = 0;
    while i < rows.len()
        invariant
            i <= rows@.len(),
            pts@ == power_points(rows@, i as int),
        decreases rows.len() - i,
    {
        if let Some(p) = sample_power_kw(&rows[i]) {
            pts.push((rows[i].ts, p));
        }
        i = i + 1;
    }
    let n: usize = pts.len();
    if n < 2 {
        return None;
    }
    let mut kwh: F64 = F64::from_bits(0);
    let mut k: usize = 1;
    while k < n
        invariant
            1 <= k <= n,
            n == pts@.len(),
            kwh == area(pts@, k as int),
        decreases n - k,
    {
        let hours: F64 = F64::of_i64(gap_held(pts[k - 1].0, pts[k].0)).over(F64::of_u64(3600));
        if F64::from_bits(0).lt(hours) {
            kwh = kwh.plus(pts[k - 1].1.plus(pts[k].1).over(F64::of_u64(2)).times(hours));
        }
        k = k + 1;
    }
    if F64::from_bits(0).lt(kwh) {
        Some(kwh)
    } else {
        None
    }
}

// ---------------------------------------------------------------------------
// Phase
// ---------------------------------------------------------------------------

/// Charging by rate, or by power where there is no rate.
pub open spec fn charges(power_kw: Option<i64>, rate_mph: Option<F64>) -> bool {
    match rate_mph {
        Some(r) => flt(zero(), r),
        None => power_kw matches Some(p) && p > 0,
    }
}

pub fn is_charging(power_kw: Option<i64>, rate_mph: Option<F64>) -> (b: bool)
    ensures
        b == charges(power_kw, rate_mph),
{
    match rate_mph {
        Some(r) => F64::from_bits(0).lt(r),
        None => match power_kw {
            Some(p) => p > 0,
            None => false,
        },
    }
}

/// The phases in which the car charges.
pub open spec fn is_active_phase(phase: Seq<char>) -> bool {
    phase == "charging"@ || phase == "starting"@ || phase == "calibrating"@
}

/// Whether a recorded phase is one of charging; `None` without a phase.
pub fn phase_is_active(phase: Option<&str>) -> (r: Option<bool>)
    ensures
        r == match phase {
            Some(p) => Some(is_active_phase(p@)),
            None => None,
        },
{
    match phase {
        Some(p) => Some(
            same_text(p, "charging") || same_text(p, "starting") || same_text(p, "calibrating"),
        ),
        None => None,
    }
}

/// Whether a sample belongs to a charge session: by its phase, or by rate and
/// power where no phase was recorded.
pub fn is_actively_charging(
    phase: Option<&str>,
    power_kw: Option<i64>,
    rate_mph: Option<F64>,
) -> (b: bool)
    ensures
        b == match phase {
            Some(p) => is_active_phase(p@),
            None => charges(power_kw, rate_mph),
        },
{
    match phase_is_active(phase) {
        Some(active) => active,
        None => is_charging(power_kw, rate_mph),
    }
}

/// The sample was taken while the car charged.
pub open spec fn row_charges(r: ChargeRow) -> bool {
    match r.charging_state {
        Some(p) => is_active_phase(p@),
        None => charges(r.power_kw, r.rate_mph),
    }
}

/// Keeps the samples that belong to a charge session, in their order.
pub fn keep_charging(rows: Vec<ChargeRow>) -> (r: Vec<ChargeRow>)
    ensures
        r@ == rows@.filter(|x: ChargeRow| row_charges(x)),
{
    let ghost all = rows@;
    let ghost keeps = |x: ChargeRow| row_charges(x);
    let mut out: Vec<ChargeRow> = Vec::new();
    proof {
        assert(all.take(0).filter(keeps) =~= Seq::empty()) by {
            reveal(Seq::filter);
        }
    }
    for row in it: rows
        invariant
            it.seq() == all,
            keeps == (|x: ChargeRow| row_charges(x)),
            out@ == all.take(it.index() as int).filter(keeps),
    {
        proof {
            let i = it.index() as int;
            assert(all.take(i + 1).drop_last() =~= all.take(i));
            assert(all.take(i + 1).last() == row);
            reveal(Seq::filter);
        }
        let phase: Option<&str> = match &row.charging_state {
            Some(p) => Some(p.as_str()),
            None => None,
        };
        if is_actively_charging(phase, row.power_kw, row.rate_mph) {
            out.push(row);
        }
    }
    proof {
        assert(all.take(all.len() as int) =~= all);
    }
    out
}

// ---------------------------------------------------------------------------
// Sessions
// ---------------------------------------------------------------------------

/// Row `i` opens a session.
pub open spec fn opens_session(rows: Seq<ChargeRow>, i: int) -> bool {
    i == 0 || gap(rows[i - 1].ts as int, rows[i].ts as int) > SESSION_GAP_SECS
}

/// The first `n` rows cut into sessions.
pub open spec fn sessions_of(rows: Seq<ChargeRow>, n: int) -> Seq<Seq<ChargeRow>>
    decreases n,
{
    if n <= 0 {
        Seq::empty()
    } else if opens_session(rows, n - 1) {
        sessions_of(rows, n - 1).push(seq![rows[n - 1]])
    } else {
        let s = sessions_of(rows, n - 1);
        s.drop_last().push(s.last().push(rows[n - 1]))
    }
}

/// Cuts rows in time into sessions.
pub fn group_sessions(rows: Vec<ChargeRow>) -> (r: Vec<Vec<ChargeRow>>)
    ensures
        views(r@) == sessions_of(rows@, rows@.len() as int),
{
    let ghost all = rows@;
    let mut out: Vec<Vec<ChargeRow>> = Vec::new();
    let mut current: Vec<ChargeRow> = Vec::new();
    let mut last: i64 = 0;
    proof {
        assert(views(out@) =~= sessions_of(all, 0));
    }
    for row in it: rows
        invariant
            it.seq() == all,
            it.index() == 0 ==> out@.len() == 0 && current@.len() == 0,
            it.index() > 0 ==> current@.len() > 0 && last == all[it.index() - 1].ts && views(
                out@,
            ).push(current@) == sessions_of(all, it.index() as int),
    {
        let ghost i = it.index() as int;
        let ghost before = views(out@).push(current@);
        let opens: bool = current.len() == 0 || gap_held(last, row.ts) > SESSION_GAP_SECS;
        if opens && current.len() > 0 {
            let mut done: Vec<ChargeRow> = Vec::new();
            std::mem::swap(&mut done, &mut current);
            out.push(done);
            proof {
                assert(views(out@) =~= before);
            }
        }
        let ghost cur = current@;
        last = row.ts;
        current.push(row);
        proof {
            if opens {
                assert(current@ =~= seq![all[i]]);
                if i == 0 {
                    assert(sessions_of(all, 0) =~= views(out@));
                    assert(views(out@).push(current@) =~= sessions_of(all, 1));
                }
            } else {
                assert(before.drop_last() =~= views(out@));
                assert(before.last() == cur);
            }
        }
    }
    if current.len() > 0 {
        let ghost before = views(out@).push(current@);
        out.push(current);
        proof {
            assert(views(out@) =~= before);
        }
    }
    out
}

// ---------------------------------------------------------------------------
// Summary
// ---------------------------------------------------------------------------

/// The position of a sample, where it has both coordinates.
pub open spec fn fix_of(r: ChargeRow) -> Option<GpsPoint> {
    match (r.lat, r.lon) {
        (Some(lat), Some(lng)) => Some(GpsPoint { lat, lng }),
        _ => None,
    }
}

/// How many of the first `n` samples stand at `p`.
pub open spec fn fix_count(rows: Seq<ChargeRow>, p: GpsPoint, n: int) -> int
    decreases n,
{
    if n <= 0 {
        0
    } else if fix_of(rows[n - 1]) == Some(p) {
        fix_count(rows, p, n - 1) + 1
    } else {
        fix_count(rows, p, n - 1)
    }
}

/// The position reported most often, of equals the one seen latest, looking for
/// it among the first `n` samples.
pub open spec fn dominant_fix(rows: Seq<ChargeRow>, n: int) -> Option<GpsPoint>
    decreases n,
{
    if n <= 0 {
        None
    } else {
        let before = dominant_fix(rows, n - 1);
        match (fix_of(rows[n - 1]), before) {
            (None, _) => before,
            (Some(p), None) => Some(p),
            (Some(p), Some(q)) => if fix_count(rows, p, rows.len() as int) >= fix_count(
                rows,
                q,
                rows.len() as int,
            ) {
                Some(p)
            } else {
                Some(q)
            },
        }
    }
}

fn fix(r: &ChargeRow) -> (p: Option<GpsPoint>)
    ensures
        p == fix_of(*r),
{
    match (r.lat, r.lon) {
        (Some(lat), Some(lng)) => Some(GpsPoint { lat, lng }),
        _ => None,
    }
}

fn count_fix(rows: &[ChargeRow], p: GpsPoint) -> (c: usize)
    ensures
        c == fix_count(rows@, p, rows@.len() as int),
{
    let mut c: usize = 0;
    let mut i: usize = 0;
    while i < rows.len()
        invariant
            i <= rows@.len(),
            c <= i,
            c == fix_count(rows@, p, i as int),
        decreases rows.len() - i,
    {
        if let Some(q) = fix(&rows[i]) {
            if q.lat.to_bits() == p.lat.to_bits() && q.lng.to_bits() == p.lng.to_bits() {
                c = c + 1;
            }
        }
        i = i + 1;
    }
    c
}

/// The position of a session: the one reported most often, of equals the one
/// seen latest.
pub fn session_coord(rows: &[ChargeRow]) -> (r: (Option<F64>, Option<F64>))
    ensures
        r == match dominant_fix(rows@, rows@.len() as int) {
            Some(p) => (Some(p.lat), Some(p.lng)),
            None => (None, None),
        },
{
    let mut best: Option<GpsPoint> = None;
    let mut best_count: usize = 0;
    let mut i: usize = 0;
    while i < rows.len()
        invariant
            i <= rows@.len(),
            best == dominant_fix(rows@, i as int),
            best matches Some(q) ==> best_count == fix_count(rows@, q, rows@.len() as int),
        decreases rows.len() - i,
    {
        if let Some(p) = fix(&rows[i]) {
            let c: usize = count_fix(rows, p);
            if best.is_none() || c >= best_count {
                best = Some(p);
                best_count = c;
            }
        }
        i = i + 1;
    }
    match best {
        Some(p) => (Some(p.lat), Some(p.lng)),
        None => (None, None),
    }
}

/// Columns of a sample that a summary takes from the first or last that has one.
#[derive(Clone, Copy, Debug)]
pub enum Reading {
    BatteryPct,
    RangeMi,
}

pub open spec fn reading_of(r: ChargeRow, what: Reading) -> Option<F64> {
    match what {
        Reading::BatteryPct => r.battery_pct,
        Reading::RangeMi => r.range_mi,
    }
}

fn reading(r: &ChargeRow, what: Reading) -> (v: Option<F64>)
    ensures
        v == reading_of(*r, what),
{
    match what {
        Reading::BatteryPct => r.battery_pct,
        Reading::RangeMi => r.range_mi,
    }
}

/// The first reading from row `i` on.
pub open spec fn reading_from(rows: Seq<ChargeRow>, what: Reading, i: int) -> Option<F64>
    decreases rows.len() - i,
{
    if i < 0 || i >= rows.len() {
        None
    } else if reading_of(rows[i], what) is Some {
        reading_of(rows[i], what)
    } else {
        reading_from(rows, what, i + 1)
    }
}

/// The last reading among the first `n` rows.
pub open spec fn reading_before(rows: Seq<ChargeRow>, what: Reading, n: int) -> Option<F64>
    decreases n,
{
    if n <= 0 {
        None
    } else if reading_of(rows[n - 1], what) is Some {
        reading_of(rows[n - 1], what)
    } else {
        reading_before(rows, what, n - 1)
    }
}

/// The last charge limit among the first `n` rows.
pub open spec fn last_limit(rows: Seq<ChargeRow>, n: int) -> Option<i64>
    decreases n,
{
    if n <= 0 {
        None
    } else if rows[n - 1].limit_soc is Some {
        rows[n - 1].limit_soc
    } else {
        last_limit(rows, n - 1)
    }
}

/// The first named place from row `i` on.
pub open spec fn place_from(rows: Seq<ChargeRow>, i: int) -> Option<Seq<char>>
    decreases rows.len() - i,
{
    if i < 0 || i >= rows.len() {
        None
    } else if rows[i].location is Some {
        text_view(rows[i].location)
    } else {
        place_from(rows, i + 1)
    }
}

/// The greatest power among the first `n` rows.
pub open spec fn peak_power(rows: Seq<ChargeRow>, n: int) -> Option<i64>
    decreases n,
{
    if n <= 0 {
        None
    } else {
        match (peak_power(rows, n - 1), rows[n - 1].power_kw) {
            (Some(a), Some(b)) => Some(
                if b >= a {
                    b
                } else {
                    a
                },
            ),
            (None, b) => b,
            (a, None) => a,
        }
    }
}

/// Energy a session added: the growth of the counter, never below zero.
pub open spec fn energy_gain(first: Option<F64>, last: Option<F64>) -> Option<F64> {
    match (first, last) {
        (Some(a), Some(b)) => Some(fmax(fsub(b, a), zero())),
        (None, Some(b)) => Some(b),
        _ => None,
    }
}

/// Energy added of energy used, held between 0 and 100 percent.
pub open spec fn efficiency(added: Option<F64>, used: Option<F64>) -> Option<F64> {
    match (added, used) {
        (Some(a), Some(u)) if flt(zero(), u) => {
            let pct = fmul(fdiv(a, u), from_int(100));
            Some(
                if flt(pct, zero()) {
                    zero()
                } else if flt(from_int(100), pct) {
                    from_int(100)
                } else {
                    pct
                },
            )
        },
        _ => None,
    }
}

/// `s` is the summary of the session `rows`.
pub open spec fn is_summary_of(rows: Seq<ChargeRow>, s: ChargeSessionSummary) -> bool {
    let n = rows.len() as int;
    let first = rows[0];
    let last = rows[n - 1];
    let at = dominant_fix(rows, n);
    let peak = peak_power(rows, n);
    &&& s.id == first.ts
    &&& s.start_ms == sat_mul(first.ts as int, 1000)
    &&& s.end_ms == sat_mul(last.ts as int, 1000)
    &&& s.duration_secs == gap(first.ts as int, last.ts as int)
    &&& text_view(s.location) == place_from(rows, 0)
    &&& (s.location_lat, s.location_lon) == match at {
        Some(p) => (Some(p.lat), Some(p.lng)),
        None => (None, None),
    }
    &&& s.energy_added_kwh == energy_gain(first.energy_added_kwh, last.energy_added_kwh)
    &&& s.energy_used_kwh == energy_of(rows)
    &&& s.efficiency_pct == efficiency(s.energy_added_kwh, s.energy_used_kwh)
    &&& s.peak_power_kw == peak
    &&& s.start_soc == reading_from(rows, Reading::BatteryPct, 0)
    &&& s.end_soc == reading_before(rows, Reading::BatteryPct, n)
    &&& s.start_range_mi == reading_from(rows, Reading::RangeMi, 0)
    &&& s.end_range_mi == reading_before(rows, Reading::RangeMi, n)
    &&& s.charge_limit_soc == last_limit(rows, n)
    &&& s.tags@.len() == 0
    &&& s.cost is None
    &&& s.rate is None
    &&& s.currency@.len() == 0
    &&& s.fast_charging == (peak matches Some(p) && p > FAST_CHARGE_THRESHOLD_KW)
    &&& !s.cost_overridden
}

fn find_first(rows: &[ChargeRow], what: Reading) -> (v: Option<F64>)
    ensures
        v == reading_from(rows@, what, 0),
{
    let mut i: usize = 0;
    while i < rows.len()
        invariant
            i <= rows@.len(),
            reading_from(rows@, what, 0) == reading_from(rows@, what, i as int),
        decreases rows.len() - i,
    {
        let v: Option<F64> = reading(&rows[i], what);
        if v.is_some() {
            return v;
        }
        i = i + 1;
    }
    None
}

fn find_last(rows: &[ChargeRow], what: Reading) -> (v: Option<F64>)
    ensures
        v == reading_before(rows@, what, rows@.len() as int),
{
    let mut n: usize = rows.len();
    while n > 0
        invariant
            n <= rows@.len(),
            reading_before(rows@, what, rows@.len() as int) == reading_before(rows@, what, n as int),
        decreases n,
    {
        let v: Option<F64> = reading(&rows[n - 1], what);
        if v.is_some() {
            return v;
        }
        n = n - 1;
    }
    None
}

fn find_limit(rows: &[ChargeRow]) -> (v: Option<i64>)
    ensures
        v == last_limit(rows@, rows@.len() as int),
{
    let mut n: usize = rows.len();
    while n > 0
        invariant
            n <= rows@.len(),
            last_limit(rows@, rows@.len() as int) == last_limit(rows@, n as int),
        decreases n,
    {
        if rows[n - 1].limit_soc.is_some() {
            return rows[n - 1].limit_soc;
        }
        n = n - 1;
    }
    None
}

fn find_place(rows: &[ChargeRow]) -> (v: Option<String>)
    ensures
        text_view(v) == place_from(rows@, 0),
{
    let mut i: usize = 0;
    while i < rows.len()
        invariant
            i <= rows@.len(),
            place_from(rows@, 0) == place_from(rows@, i as int),
        decreases rows.len() - i,
    {
        if rows[i].location.is_some() {
            return copy_text(&rows[i].location);
        }
        i = i + 1;
    }
    None
}

fn find_peak(rows: &[ChargeRow]) -> (v: Option<i64>)
    ensures
        v == peak_power(rows@, rows@.len() as int),
{
    let mut peak: Option<i64> = None;
    let mut i: usize = 0;
    while i < rows.len()
        invariant
            i <= rows@.len(),
            peak == peak_power(rows@, i as int),
        decreases rows.len() - i,
    {
        if let Some(b) = rows[i].power_kw {
            peak = match peak {
                Some(a) if b < a => Some(a),
                _ => Some(b),
            };
        }
        i = i + 1;
    }
    peak
}

/// Summary of the samples of one session.
pub fn summarize(rows: &[ChargeRow]) -> (s: ChargeSessionSummary)
    requires
        rows@.len() > 0,
    ensures
        is_summary_of(rows@, s),
{
    let n: usize = rows.len();
    let added: Option<F64> = match (rows[0].energy_added_kwh, rows[n - 1].energy_added_kwh) {
        (Some(a), Some(b)) => Some(b.minus(a).max(F64::from_bits(0))),
        (None, Some(b)) => Some(b),
        _ => None,
    };
    let used: Option<F64> = integrate_power_kwh(rows);
    let zero_pct: F64 = F64::from_bits(0);
    let full_pct: F64 = F64::of_u64(100);
    let efficiency_pct: Option<F64> = match (added, used) {
        (Some(a), Some(u)) if zero_pct.lt(u) => {
            let pct: F64 = a.over(u).times(full_pct);
            Some(
                if pct.lt(zero_pct) {
                    zero_pct
                } else if full_pct.lt(pct) {
                    full_pct
                } else {
                    pct
                },
            )
        },
        _ => None,
    };
    let peak: Option<i64> = find_peak(rows);
    let at: (Option<F64>, Option<F64>) = session_coord(rows);
    let fast: bool = match peak {
        Some(p) => p > FAST_CHARGE_THRESHOLD_KW,
        None => false,
    };
    ChargeSessionSummary {
        id: rows[0].ts,
        start_ms: mul_held(rows[0].ts, 1000),
        end_ms: mul_held(rows[n - 1].ts, 1000),
        duration_secs: gap_held(rows[0].ts, rows[n - 1].ts),
        location: find_place(rows),
        location_lat: at.0,
        location_lon: at.1,
        energy_added_kwh: added,
        energy_used_kwh: used,
        efficiency_pct,
        peak_power_kw: peak,
        start_soc: find_first(rows, Reading::BatteryPct),
        end_soc: find_last(rows, Reading::BatteryPct),
        start_range_mi: find_first(rows, Reading::RangeMi),
        end_range_mi: find_last(rows, Reading::RangeMi),
        charge_limit_soc: find_limit(rows),
        tags: Vec::new(),
        cost: None,
        rate: None,
        currency: String::new(),
        fast_charging: fast,
        cost_overridden: false,
    }
}

/// The chart point of a sample.
pub open spec fn point_of(r: ChargeRow) -> ChargePoint {
    ChargePoint {
        ts: sat_mul(r.ts as int, 1000) as i64,
        power_kw: r.power_kw,
        current_a: current_shown(r.power_kw, r.voltage_v, r.current_a),
        voltage_v: r.voltage_v,
        rate_mph: r.rate_mph,
        soc: r.battery_pct,
        range_mi: r.range_mi,
        energy_added_kwh: r.energy_added_kwh,
    }
}

/// Chart points of a session.
pub fn session_points(rows: &[ChargeRow]) -> (r: Vec<ChargePoint>)
    ensures
        r@ == Seq::new(rows@.len(), |i: int| point_of(rows@[i])),
{
    let mut out: Vec<ChargePoint> = Vec::new();
    let mut i: usize = 0;
    while i < rows.len()
        invariant
            i <= rows@.len(),
            out@.len() == i,
            forall|k: int| 0 <= k < i ==> #[trigger] out@[k] == point_of(rows@[k]),
        decreases rows.len() - i,
    {
        let r: &ChargeRow = &rows[i];
        out.push(
            ChargePoint {
                ts: mul_held(r.ts, 1000),
                power_kw: r.power_kw,
                current_a: display_current_a(r.power_kw, r.voltage_v, r.current_a),
                voltage_v: r.voltage_v,
                rate_mph: r.rate_mph,
                soc: r.battery_pct,
                range_mi: r.range_mi,
                energy_added_kwh: r.energy_added_kwh,
            },
        );
        i = i + 1;
    }
    proof {
        assert(out@ =~= Seq::new(rows@.len(), |i: int| point_of(rows@[i])));
    }
    out
}

/// Position of the `i`-th of `max` evenly spaced points out of `n`, ends
/// included.
pub open spec fn even_position(n: int, max: int, i: int) -> int {
    let at = to_int(
        fround(fmul(from_int(i), fdiv(from_int(n - 1), from_int(max - 1)))),
        0,
        usize::MAX as int,
    );
    if at > n - 1 {
        n - 1
    } else {
        at
    }
}

/// The first `k` of those positions, none twice in a row.
pub open spec fn even_positions(n: int, max: int, k: int) -> Seq<int>
    decreases k,
{
    if k <= 0 {
        Seq::empty()
    } else {
        let before = even_positions(n, max, k - 1);
        let at = even_position(n, max, k - 1);
        if before.len() > 0 && before.last() == at {
            before
        } else {
            before.push(at)
        }
    }
}

/// `max` evenly spaced points, ends included; all where there are no more or
/// `max` is below two.
pub open spec fn sparse_points(points: Seq<ChargePoint>, max: int) -> Seq<ChargePoint> {
    let n = points.len() as int;
    if n <= max || max < 2 {
        points
    } else {
        let at = even_positions(n, max, max);
        Seq::new(at.len(), |i: int| points[at[i]])
    }
}

/// Thins chart points to at most `max`.
pub fn downsample_points(points: Vec<ChargePoint>, max: usize) -> (r: Vec<ChargePoint>)
    ensures
        r@ == sparse_points(points@, max as int),
{
    let n: usize = points.len();
    if n <= max || max < 2 {
        return points;
    }
    let step: F64 = F64::of_usize(n - 1).over(F64::of_usize(max - 1));
    let mut out: Vec<ChargePoint> = Vec::new();
    let mut last: Option<usize> = None;
    let mut i: usize = 0;
    while i < max
        invariant
            i <= max < n,
            2 <= max,
            n == points@.len(),
            step == fdiv(from_int(n - 1), from_int(max - 1)),
            ({
                let at = even_positions(n as int, max as int, i as int);
                &&& out@.len() == at.len()
                &&& forall|k: int|
                    0 <= k < at.len() ==> 0 <= #[trigger] at[k] < n && out@[k] == points@[at[k]]
                &&& match last {
                    Some(p) => at.len() > 0 && at.last() == p,
                    None => at.len() == 0,
                }
            }),
        decreases max - i,
    {
        let mut at: usize = F64::of_usize(i).times(step).round().to_usize();
        if at > n - 1 {
            at = n - 1;
        }
        let repeats: bool = match last {
            Some(p) => p == at,
            None => false,
        };
        if !repeats {
            out.push(points[at]);
            last = Some(at);
        }
        i = i + 1;
    }
    proof {
        assert(out@ =~= sparse_points(points@, max as int));
    }
    out
}

// ---------------------------------------------------------------------------
// Laws
// ---------------------------------------------------------------------------

/// All rows of the sessions, one after the other.
pub open spec fn rows_of(sessions: Seq<Seq<ChargeRow>>) -> Seq<ChargeRow>
    decreases sessions.len(),
{
    if sessions.len() == 0 {
        Seq::empty()
    } else {
        rows_of(sessions.drop_last()) + sessions.last()
    }
}

/// No row is lost, added or moved by cutting, and no session is empty.
pub proof fn law_sessions_keep_every_row(rows: Seq<ChargeRow>, n: int)
    requires
        0 <= n <= rows.len(),
    ensures
        rows_of(sessions_of(rows, n)) == rows.take(n),
        forall|i: int|
            0 <= i < sessions_of(rows, n).len() ==> (#[trigger] sessions_of(rows, n)[i]).len() > 0,
        n > 0 ==> sessions_of(rows, n).len() > 0 && sessions_of(rows, n).last().last() == rows[n
            - 1],
    decreases n,
{
    if n <= 0 {
        assert(rows.take(0) =~= Seq::<ChargeRow>::empty());
    } else {
        law_sessions_keep_every_row(rows, n - 1);
        let s = sessions_of(rows, n - 1);
        let t = sessions_of(rows, n);
        assert(rows.take(n) =~= rows.take(n - 1).push(rows[n - 1]));
        if opens_session(rows, n - 1) {
            assert(t.drop_last() =~= s);
            assert(rows_of(s) + seq![rows[n - 1]] =~= rows.take(n));
        } else {
            assert(t.drop_last() =~= s.drop_last());
            assert(rows_of(s.drop_last()) + s.last().push(rows[n - 1]) =~= (rows_of(s.drop_last())
                + s.last()).push(rows[n - 1]));
        }
    }
}

/// Within a session no two neighbours are further apart than the gap allows.
pub proof fn law_sessions_hold_no_gap(rows: Seq<ChargeRow>, n: int, s: int, i: int)
    requires
        0 <= n <= rows.len(),
        0 <= s < sessions_of(rows, n).len(),
        0 < i < sessions_of(rows, n)[s].len(),
    ensures
        gap(
            sessions_of(rows, n)[s][i - 1].ts as int,
            sessions_of(rows, n)[s][i].ts as int,
        ) <= SESSION_GAP_SECS,
    decreases n,
{
    law_sessions_keep_every_row(rows, n - 1);
    let before = sessions_of(rows, n - 1);
    if opens_session(rows, n - 1) {
        if s < before.len() {
            law_sessions_hold_no_gap(rows, n - 1, s, i);
        }
    } else if s < before.len() - 1 || i < before.last().len() {
        law_sessions_hold_no_gap(rows, n - 1, s, i);
    }
}

proof fn lemma_position_order(n: int, max: int, i: int, j: int)
    requires
        2 <= max < n,
        n - 1 <= HALF64,
        n <= usize::MAX,
        0 <= i <= j < max,
    ensures
        0 <= even_position(n, max, i) <= even_position(n, max, j) <= n - 1,
        i == 0 ==> even_position(n, max, i) == 0,
        j == max - 1 ==> even_position(n, max, j) == n - 1,
{
    lemma_rounded_spots((n - 1) as nat, (max - 1) as nat, i as nat, j as nat);
}

proof fn lemma_positions_ascend(n: int, max: int, k: int)
    requires
        2 <= max < n,
        n - 1 <= HALF64,
        n <= usize::MAX,
        1 <= k <= max,
    ensures
        ({
            let at = even_positions(n, max, k);
            &&& at.len() > 0
            &&& at[0] == 0
            &&& at.last() == even_position(n, max, k - 1)
            &&& forall|a: int, b: int| 0 <= a < b < at.len() ==> #[trigger] at[a] < #[trigger] at[b]
            &&& forall|a: int| 0 <= a < at.len() ==> 0 <= #[trigger] at[a] < n
        }),
    decreases k,
{
    lemma_position_order(n, max, 0, k - 1);
    if k == 1 {
        assert(even_positions(n, max, 0).len() == 0);
    } else {
        lemma_positions_ascend(n, max, k - 1);
        lemma_position_order(n, max, k - 2, k - 1);
    }
}

/// Thinning keeps the first and the last point, and the others in their order,
/// none twice.
pub proof fn law_thinning_keeps_both_ends(points: Seq<ChargePoint>, max: int)
    requires
        2 <= max < points.len(),
        points.len() - 1 <= HALF64,
        points.len() <= usize::MAX,
    ensures
        ({
            let at = even_positions(points.len() as int, max, max);
            let out = sparse_points(points, max);
            &&& out.len() == at.len()
            &&& forall|i: int| 0 <= i < out.len() ==> #[trigger] out[i] == points[at[i]]
            &&& forall|a: int, b: int| 0 <= a < b < at.len() ==> #[trigger] at[a] < #[trigger] at[b]
            &&& out.first() == points.first()
            &&& out.last() == points.last()
        }),
{
    let n = points.len() as int;
    lemma_positions_ascend(n, max, max);
    lemma_position_order(n, max, max - 1, max - 1);
}

/// Thinning never leaves more points than asked for.
pub proof fn law_thinning_is_bounded(points: Seq<ChargePoint>, max: int)
    requires
        2 <= max,
    ensures
        sparse_points(points, max).len() <= max,
{
    lemma_even_positions(points.len() as int, max, max);
}

proof fn lemma_even_positions(n: int, max: int, k: int)
    requires
        0 <= k,
    ensures
        even_positions(n, max, k).len() <= k,
    decreases k,
{
    if k > 0 {
        lemma_even_positions(n, max, k - 1);
    }
}

/// Efficiency is a percentage, whatever the readings were; only readings that are
/// no numbers give none.
pub proof fn law_efficiency_is_a_percentage(added: Option<F64>, used: Option<F64>)
    requires
        efficiency(added, used) is Some,
        !is_nan(efficiency(added, used)->0),
    ensures
        fle(zero(), efficiency(added, used)->0),
        fle(efficiency(added, used)->0, from_int(100)),
{
    lemma_from_int_exact(100);
    lemma_from_int_exact(0);
    lemma_order(zero(), from_int(100));
}

} // verus!
