//! Event clips that fill holes in the continuous recording.
//!
//! A minute missing from the continuous clips may exist in an event folder. Such
//! a clip is admitted inside a hole, at the end of a chain of clips that hangs on
//! the continuous recording, or in a cluster of its own whose every clip shows
//! the car in gear. A clip that shows the car parked throughout never is.

use crate::clock::{law_spans_add_up, span, span_ms};
use crate::float::{F32, F64, fabs32, flt, flt32, widen};
use crate::text::{chars_of, comes_before, text_before};
use crate::types::{GEAR_PARK, GearRun};
use vstd::prelude::*;

verus! {

/// A gap wider than this between continuous clips is a hole.
pub const GAP_FILL_MIN_MS: i64 = 90_000;

/// A gap wider than this is a boundary between drives, and a chain reaches no
/// farther than this from the continuous recording.
pub const GAP_FILL_MAX_MS: i64 = 1_800_000;

/// Clips no farther apart than this chain up.
pub const GAP_FILL_ADJ_MS: i64 = 180_000;

/// An event clip no later than this after another clip is the same segment.
pub const GAP_FILL_DUP_MS: i64 = 30_000;

/// Bits of 0.5, the speed in m/s above which a clip shows driving.
pub const GAP_FILL_MIN_SPEED_MPS: u32 = 0x3F00_0000;

// ---------------------------------------------------------------------------
// Evidence of driving
// ---------------------------------------------------------------------------

/// Some run is in another gear than Park.
pub open spec fn run_in_gear(runs: Seq<GearRun>) -> bool {
    exists|i: int| 0 <= i < runs.len() && (#[trigger] runs[i]).gear != GEAR_PARK
}

/// Some sample is in another gear than Park.
pub open spec fn sample_in_gear(gears: Seq<u8>) -> bool {
    exists|i: int| 0 <= i < gears.len() && #[trigger] gears[i] != GEAR_PARK
}

/// Some speed is above a crawl, in either direction.
pub open spec fn sample_fast(speeds: Seq<F32>) -> bool {
    exists|i: int|
        0 <= i < speeds.len() && flt32(
            F32 { bits: GAP_FILL_MIN_SPEED_MPS },
            fabs32(#[trigger] speeds[i]),
        )
}

/// The telemetry shows the car moving. Raw frame counts speak only where no gear
/// was recorded.
pub open spec fn shows_driving(
    runs: Seq<GearRun>,
    gears: Seq<u8>,
    speeds: Seq<F32>,
    raw_park_count: u32,
    raw_frame_count: u32,
) -> bool {
    ||| run_in_gear(runs)
    ||| sample_in_gear(gears)
    ||| runs.len() == 0 && gears.len() == 0 && raw_frame_count > 0 && raw_park_count
        < raw_frame_count
    ||| sample_fast(speeds)
}

fn any_run_in_gear(runs: &[GearRun]) -> (b: bool)
    ensures
        b == run_in_gear(runs@),
{
    let mut i: usize = 0;
    while i < runs.len()
        invariant
            i <= runs.len(),
            forall|j: int| 0 <= j < i ==> (#[trigger] runs@[j]).gear == GEAR_PARK,
        decreases runs.len() - i,
    {
        if runs[i].gear != GEAR_PARK {
            proof {
                assert(runs@[i as int].gear != GEAR_PARK);
            }
            return true;
        }
        i = i + 1;
    }
    false
}

fn any_sample_in_gear(gears: &[u8]) -> (b: bool)
    ensures
        b == sample_in_gear(gears@),
{
    let mut i: usize = 0;
    while i < gears.len()
        invariant
            i <= gears.len(),
            forall|j: int| 0 <= j < i ==> #[trigger] gears@[j] == GEAR_PARK,
        decreases gears.len() - i,
    {
        if gears[i] != GEAR_PARK {
            proof {
                assert(gears@[i as int] != GEAR_PARK);
            }
            return true;
        }
        i = i + 1;
    }
    false
}

fn any_sample_fast(speeds: &[F32]) -> (b: bool)
    ensures
        b == sample_fast(speeds@),
{
    let floor: F32 = F32::from_bits(GAP_FILL_MIN_SPEED_MPS);
    let mut i: usize = 0;
    while i < speeds.len()
        invariant
            i <= speeds.len(),
            floor == (F32 { bits: GAP_FILL_MIN_SPEED_MPS }),
            forall|j: int| 0 <= j < i ==> !flt32(floor, fabs32(#[trigger] speeds@[j])),
        decreases speeds.len() - i,
    {
        if floor.lt(speeds[i].abs()) {
            proof {
                assert(flt32(floor, fabs32(speeds@[i as int])));
            }
            return true;
        }
        i = i + 1;
    }
    false
}

pub fn telemetry_has_driving(
    gear_runs: &[GearRun],
    gear_states: &[u8],
    speeds: &[F32],
    raw_park_count: u32,
    raw_frame_count: u32,
) -> (b: bool)
    ensures
        b == shows_driving(
            gear_runs@,
            gear_states@,
            speeds@,
            raw_park_count,
            raw_frame_count,
        ),
{
    any_run_in_gear(gear_runs) || any_sample_in_gear(gear_states) || (gear_runs.len() == 0
        && gear_states.len() == 0 && raw_frame_count > 0 && raw_park_count < raw_frame_count)
        || any_sample_fast(speeds)
}

/// A gear other than Park was recorded. Neither speeds nor raw counts count here.
pub fn telemetry_gear_driving(gear_runs: &[GearRun], gear_states: &[u8]) -> (b: bool)
    ensures
        b == (run_in_gear(gear_runs@) || sample_in_gear(gear_states@)),
{
    any_run_in_gear(gear_runs) || any_sample_in_gear(gear_states)
}

/// The telemetry of a stored row shows the car moving.
pub open spec fn row_shows_driving(
    runs: Seq<GearRun>,
    raw_park_count: u32,
    raw_frame_count: u32,
    max_speed_mps: F64,
) -> bool {
    shows_driving(runs, Seq::empty(), Seq::empty(), raw_park_count, raw_frame_count) || flt(
        widen(F32 { bits: GAP_FILL_MIN_SPEED_MPS }),
        max_speed_mps,
    )
}

pub fn row_has_driving(
    gear_runs: &[GearRun],
    raw_park_count: u32,
    raw_frame_count: u32,
    max_speed_mps: F64,
) -> (b: bool)
    ensures
        b == row_shows_driving(gear_runs@, raw_park_count, raw_frame_count, max_speed_mps),
{
    let none: Vec<u8> = Vec::new();
    let still: Vec<F32> = Vec::new();
    proof {
        assert(none@ =~= Seq::<u8>::empty());
        assert(still@ =~= Seq::<F32>::empty());
    }
    telemetry_has_driving(gear_runs, &none, &still, raw_park_count, raw_frame_count) || F32::from_bits(
        GAP_FILL_MIN_SPEED_MPS,
    ).to_f64().lt(max_speed_mps)
}

// ---------------------------------------------------------------------------
// Holes
// ---------------------------------------------------------------------------

/// The gap from clip `k` to the next is a hole.
pub open spec fn hole_at(recent: Seq<i64>, k: int) -> bool {
    GAP_FILL_MIN_MS < span(recent[k] as int, recent[k + 1] as int) <= GAP_FILL_MAX_MS
}

/// The holes among the first `n` clips.
pub open spec fn holes(recent: Seq<i64>, n: int) -> Seq<(i64, i64)>
    decreases n,
{
    if n <= 1 {
        Seq::empty()
    } else if hole_at(recent, n - 2) {
        holes(recent, n - 1).push((recent[n - 2], recent[n - 1]))
    } else {
        holes(recent, n - 1)
    }
}

/// `ts` lies strictly inside one of the holes.
pub open spec fn inside(hs: Seq<(i64, i64)>, ts: i64) -> bool {
    exists|k: int| 0 <= k < hs.len() && (#[trigger] hs[k]).0 < ts < hs[k].1
}

/// Holes of a sorted continuous recording.
pub fn fillable_holes(sorted_ts: &[i64]) -> (r: Vec<(i64, i64)>)
    ensures
        r@ == holes(sorted_ts@, sorted_ts@.len() as int),
{
    let mut out: Vec<(i64, i64)> = Vec::new();
    let mut i: usize = 1;
    while i < sorted_ts.len()
        invariant
            1 <= i,
            i <= sorted_ts.len() || i == 1,
            out@ == holes(sorted_ts@, i as int),
        decreases sorted_ts.len() - i,
    {
        let g: i64 = span_ms(sorted_ts[i - 1], sorted_ts[i]);
        if g > GAP_FILL_MIN_MS && g <= GAP_FILL_MAX_MS {
            out.push((sorted_ts[i - 1], sorted_ts[i]));
        }
        i = i + 1;
    }
    out
}

pub fn ts_in_holes(hs: &[(i64, i64)], ts: i64) -> (b: bool)
    ensures
        b == inside(hs@, ts),
{
    let mut i: usize = 0;
    while i < hs.len()
        invariant
            i <= hs.len(),
            forall|k: int| 0 <= k < i ==> !((#[trigger] hs@[k]).0 < ts < hs@[k].1),
        decreases hs.len() - i,
    {
        if hs[i].0 < ts && ts < hs[i].1 {
            proof {
                assert(hs@[i as int].0 < ts);
            }
            return true;
        }
        i = i + 1;
    }
    false
}

// ---------------------------------------------------------------------------
// Candidates
// ---------------------------------------------------------------------------

/// An event clip proposed for a hole.
#[derive(Clone, Copy, Debug)]
pub struct GapFillCandidate<'a> {
    pub ts: i64,
    pub file: &'a str,
    /// Whether its telemetry shows driving; none before it was extracted.
    pub driving: Option<bool>,
    /// A gear other than Park was recorded.
    pub gear_driving: bool,
}

/// A candidate with its path as text.
pub struct Cand {
    pub ts: i64,
    pub file: Seq<char>,
    pub driving: Option<bool>,
    pub gear_driving: bool,
}

pub open spec fn cand_views(cands: Seq<GapFillCandidate>) -> Seq<Cand> {
    Seq::new(
        cands.len(),
        |i: int|
            Cand {
                ts: cands[i].ts,
                file: cands[i].file@,
                driving: cands[i].driving,
                gear_driving: cands[i].gear_driving,
            },
    )
}

/// Continuous clip `k` is the last one that is not later than `ts`.
pub open spec fn last_before(recent: Seq<i64>, k: int, ts: i64) -> bool {
    0 <= k < recent.len() && recent[k] <= ts && (k + 1 < recent.len() ==> ts < recent[k + 1])
}

/// `ts` falls shortly after a continuous clip: the same segment in another folder.
pub open spec fn twin_of_recent(recent: Seq<i64>, ts: i64) -> bool {
    exists|k: int| #[trigger]
        last_before(recent, k, ts) && span(recent[k] as int, ts as int) <= GAP_FILL_DUP_MS
}

/// Candidate `a` comes strictly before `b` by time, then by path.
pub open spec fn earlier(cands: Seq<Cand>, a: int, b: int) -> bool {
    cands[a].ts < cands[b].ts || (cands[a].ts == cands[b].ts && text_before(
        cands[a].file,
        cands[b].file,
    ))
}

/// `order` with `x` put behind every candidate that does not come after it.
pub open spec fn placed(cands: Seq<Cand>, order: Seq<usize>, x: usize) -> Seq<usize>
    decreases order.len(),
{
    if order.len() == 0 || !earlier(cands, x as int, order.last() as int) {
        order.push(x)
    } else {
        placed(cands, order.drop_last(), x).push(order.last())
    }
}

/// Candidate `i` is neither parked throughout nor a twin of a continuous clip.
pub open spec fn eligible(recent: Seq<i64>, cands: Seq<Cand>, i: int) -> bool {
    cands[i].driving != Some(false) && !twin_of_recent(recent, cands[i].ts)
}

/// The eligible ones of the first `n` candidates, by time and path.
pub open spec fn ordered(recent: Seq<i64>, cands: Seq<Cand>, n: int) -> Seq<usize>
    decreases n,
{
    if n <= 0 {
        Seq::empty()
    } else if eligible(recent, cands, n - 1) {
        placed(cands, ordered(recent, cands, n - 1), (n - 1) as usize)
    } else {
        ordered(recent, cands, n - 1)
    }
}

/// `order` without candidates that follow the last one kept too closely.
pub open spec fn thinned(cands: Seq<Cand>, order: Seq<usize>) -> Seq<usize>
    decreases order.len(),
{
    if order.len() == 0 {
        Seq::empty()
    } else {
        let k = thinned(cands, order.drop_last());
        let x = order.last();
        if k.len() > 0 && span(cands[k.last() as int].ts as int, cands[x as int].ts as int)
            <= GAP_FILL_DUP_MS {
            k
        } else {
            k.push(x)
        }
    }
}

/// The candidates left once parked ones and twins are gone.
pub open spec fn distinct_candidates(recent: Seq<i64>, cands: Seq<Cand>) -> Seq<usize> {
    thinned(cands, ordered(recent, cands, cands.len() as int))
}

fn is_twin_of_recent(recent: &[i64], ts: i64) -> (b: bool)
    ensures
        b == twin_of_recent(recent@, ts),
{
    let mut i: usize = 0;
    while i < recent.len()
        invariant
            i <= recent.len(),
            forall|k: int|
                k < i && #[trigger] last_before(recent@, k, ts) ==> span(recent@[k] as int, ts as int)
                    > GAP_FILL_DUP_MS,
        decreases recent.len() - i,
    {
        let last: bool = recent[i] <= ts && (recent.len() - i == 1 || ts < recent[i + 1]);
        if last && span_ms(recent[i], ts) <= GAP_FILL_DUP_MS {
            proof {
                assert(last_before(recent@, i as int, ts));
            }
            return true;
        }
        i = i + 1;
    }
    false
}

fn is_earlier(cands: &[GapFillCandidate], a: usize, b: usize) -> (r: bool)
    requires
        a < cands@.len(),
        b < cands@.len(),
    ensures
        r == earlier(cand_views(cands@), a as int, b as int),
{
    if cands[a].ts != cands[b].ts {
        return cands[a].ts < cands[b].ts;
    }
    let x: Vec<char> = chars_of(cands[a].file);
    let y: Vec<char> = chars_of(cands[b].file);
    comes_before(&x, &y)
}

/// All of `order` are positions in a sequence of length `n`.
pub open spec fn positions(order: Seq<usize>, n: int) -> bool {
    forall|i: int| 0 <= i < order.len() ==> 0 <= #[trigger] order[i] < n
}

fn place(cands: &[GapFillCandidate], order: &mut Vec<usize>, x: usize)
    requires
        x < cands@.len(),
        positions(old(order)@, cands@.len() as int),
    ensures
        final(order)@ == placed(cand_views(cands@), old(order)@, x),
        positions(final(order)@, cands@.len() as int),
{
    let ghost full = order@;
    let mut at: usize = order.len();
    proof {
        assert(full.take(at as int) =~= full);
        assert(placed(cand_views(cands@), full, x) + full.skip(at as int) =~= placed(cand_views(cands@), full, x));
    }
    while at > 0 && is_earlier(cands, x, order[at - 1])
        invariant
            at <= order.len(),
            order@ == full,
            x < cands@.len(),
            positions(full, cands@.len() as int),
            placed(cand_views(cands@), full, x) =~= placed(cand_views(cands@), full.take(at as int), x) + full.skip(
                at as int,
            ),
        decreases at,
    {
        proof {
            let t = full.take(at as int);
            assert(t.drop_last() =~= full.take(at as int - 1));
            assert(placed(cand_views(cands@), t, x) == placed(cand_views(cands@), t.drop_last(), x).push(t.last()));
            assert(placed(cand_views(cands@), t.drop_last(), x).push(t.last()) + full.skip(at as int)
                =~= placed(cand_views(cands@), t.drop_last(), x) + full.skip(at as int - 1));
        }
        at = at - 1;
    }
    order.insert(at, x);
    proof {
        let t = full.take(at as int);
        assert(placed(cand_views(cands@), t, x) == t.push(x));
        assert(order@ =~= t.push(x) + full.skip(at as int));
    }
}

/// Drops parked candidates, those that repeat a continuous clip, and of those
/// that repeat each other all but the first by time and path.
pub fn dedup_candidates(recent_sorted_ts: &[i64], cands: &[GapFillCandidate]) -> (kept: Vec<usize>)
    ensures
        kept@ == distinct_candidates(recent_sorted_ts@, cand_views(cands@)),
        positions(kept@, cands@.len() as int),
{
    let mut order: Vec<usize> = Vec::new();
    let mut i: usize = 0;
    while i < cands.len()
        invariant
            i <= cands.len(),
            order@ == ordered(recent_sorted_ts@, cand_views(cands@), i as int),
            positions(order@, cands@.len() as int),
        decreases cands.len() - i,
    {
        let parked: bool = match cands[i].driving {
            Some(d) => !d,
            None => false,
        };
        if !parked && !is_twin_of_recent(recent_sorted_ts, cands[i].ts) {
            place(cands, &mut order, i);
        }
        i = i + 1;
    }
    let mut kept: Vec<usize> = Vec::new();
    let mut j: usize = 0;
    proof {
        assert(order@.take(0) =~= Seq::<usize>::empty());
    }
    while j < order.len()
        invariant
            j <= order.len(),
            positions(order@, cands@.len() as int),
            positions(kept@, cands@.len() as int),
            kept@ == thinned(cand_views(cands@), order@.take(j as int)),
        decreases order.len() - j,
    {
        let x: usize = order[j];
        proof {
            assert(order@.take(j as int + 1).drop_last() =~= order@.take(j as int));
        }
        let close: bool = kept.len() > 0 && span_ms(cands[kept[kept.len() - 1]].ts, cands[x].ts)
            <= GAP_FILL_DUP_MS;
        if !close {
            kept.push(x);
        }
        j = j + 1;
    }
    proof {
        assert(order@.take(order@.len() as int) =~= order@);
    }
    kept
}

// ---------------------------------------------------------------------------
// Chains
// ---------------------------------------------------------------------------

/// A clip on the merged time line: a continuous one, or kept candidate number `k`.
#[derive(Clone, Copy, Debug)]
pub struct Mark {
    pub ts: i64,
    pub kept: Option<usize>,
}

/// `line` with `x` put behind every mark that is not later.
pub open spec fn marked(line: Seq<Mark>, x: Mark) -> Seq<Mark>
    decreases line.len(),
{
    if line.len() == 0 || line.last().ts <= x.ts {
        line.push(x)
    } else {
        marked(line.drop_last(), x).push(line.last())
    }
}

/// The first `n` continuous clips on a time line.
pub open spec fn recent_line(recent: Seq<i64>, n: int) -> Seq<Mark>
    decreases n,
{
    if n <= 0 {
        Seq::empty()
    } else {
        marked(recent_line(recent, n - 1), Mark { ts: recent[n - 1], kept: None })
    }
}

/// The continuous clips and the first `n` kept candidates on one time line.
pub open spec fn merged_line(
    recent: Seq<i64>,
    cands: Seq<Cand>,
    kept: Seq<usize>,
    n: int,
) -> Seq<Mark>
    decreases n,
{
    if n <= 0 {
        recent_line(recent, recent.len() as int)
    } else {
        marked(
            merged_line(recent, cands, kept, n - 1),
            Mark { ts: cands[kept[n - 1] as int].ts, kept: Some((n - 1) as usize) },
        )
    }
}

/// No step from mark `a` to mark `b` is wider than a chain allows.
pub open spec fn linked(line: Seq<Mark>, a: int, b: int) -> bool {
    forall|i: int|
        a <= i < b ==> span((#[trigger] line[i]).ts as int, line[i + 1].ts as int) <= GAP_FILL_ADJ_MS
}

/// Marks `p` and `q` hang together.
pub open spec fn together(line: Seq<Mark>, p: int, q: int) -> bool {
    if p <= q {
        linked(line, p, q)
    } else {
        linked(line, q, p)
    }
}

/// Mark `p` hangs together with a continuous clip.
pub open spec fn anchored(line: Seq<Mark>, p: int) -> bool {
    exists|q: int|
        0 <= q < line.len() && (#[trigger] line[q]).kept is None && together(line, p, q)
}

/// Continuous clip `k` is next to `ts`: the last one before it, or the first one
/// from it on.
pub open spec fn next_to(recent: Seq<i64>, k: int, ts: i64) -> bool {
    &&& 0 <= k < recent.len()
    &&& recent[k] < ts && k + 1 < recent.len() ==> ts <= recent[k + 1]
    &&& ts <= recent[k] && k > 0 ==> recent[k - 1] < ts
}

/// Some continuous clip is within the reach of a chain.
pub open spec fn in_reach(recent: Seq<i64>, ts: i64) -> bool {
    exists|k: int| #[trigger]
        next_to(recent, k, ts) && (if recent[k] < ts {
            span(recent[k] as int, ts as int)
        } else {
            span(ts as int, recent[k] as int)
        }) <= GAP_FILL_MAX_MS
}

/// Every clip that hangs together with mark `p` is a candidate in gear.
pub open spec fn all_in_gear(
    line: Seq<Mark>,
    cands: Seq<Cand>,
    kept: Seq<usize>,
    p: int,
) -> bool {
    forall|q: int|
        0 <= q < line.len() && together(line, p, q) ==> {
            &&& (#[trigger] line[q]).kept is Some
            &&& cands[kept[line[q].kept->0 as int] as int].gear_driving
        }
}

/// Mark `p` is admitted by its chain: anchored and in reach, or in a cluster of
/// its own that is in gear throughout.
pub open spec fn chained(
    recent: Seq<i64>,
    cands: Seq<Cand>,
    kept: Seq<usize>,
    line: Seq<Mark>,
    p: int,
) -> bool {
    if anchored(line, p) {
        in_reach(recent, line[p].ts)
    } else {
        all_in_gear(line, cands, kept, p)
    }
}

/// Kept candidate `k` is admitted.
pub open spec fn admitted(
    recent: Seq<i64>,
    cands: Seq<Cand>,
    kept: Seq<usize>,
    k: int,
) -> bool {
    let line = merged_line(recent, cands, kept, kept.len() as int);
    ||| inside(holes(recent, recent.len() as int), cands[kept[k] as int].ts)
    ||| exists|p: int|
        0 <= p < line.len() && (#[trigger] line[p]).kept == Some(k as usize) && chained(
            recent,
            cands,
            kept,
            line,
            p,
        )
}

/// The admitted ones of the first `n` kept candidates.
pub open spec fn admitted_of(
    recent: Seq<i64>,
    cands: Seq<Cand>,
    kept: Seq<usize>,
    n: int,
) -> Seq<usize>
    decreases n,
{
    if n <= 0 {
        Seq::empty()
    } else if admitted(recent, cands, kept, n - 1) {
        admitted_of(recent, cands, kept, n - 1).push(kept[n - 1])
    } else {
        admitted_of(recent, cands, kept, n - 1)
    }
}

/// The event clips that fill gaps of the continuous recording.
pub open spec fn gap_fill(recent: Seq<i64>, cands: Seq<Cand>) -> Seq<usize> {
    let kept = distinct_candidates(recent, cands);
    admitted_of(recent, cands, kept, kept.len() as int)
}

/// Every mark is a continuous clip or a kept candidate below `n`.
pub open spec fn marks_below(line: Seq<Mark>, n: int) -> bool {
    forall|i: int|
        0 <= i < line.len() ==> ((#[trigger] line[i]).kept matches Some(k) ==> k < n)
}

fn put_mark(line: &mut Vec<Mark>, x: Mark, Ghost(n): Ghost<int>)
    requires
        marks_below(old(line)@, n),
        x.kept matches Some(k) ==> k < n,
    ensures
        final(line)@ == marked(old(line)@, x),
        marks_below(final(line)@, n),
{
    let ghost full = line@;
    let mut at: usize = line.len();
    proof {
        assert(full.take(at as int) =~= full);
        assert(marked(full, x) + full.skip(at as int) =~= marked(full, x));
    }
    while at > 0 && line[at - 1].ts > x.ts
        invariant
            at <= line.len(),
            line@ == full,
            marked(full, x) =~= marked(full.take(at as int), x) + full.skip(at as int),
        decreases at,
    {
        proof {
            let t = full.take(at as int);
            assert(t.drop_last() =~= full.take(at as int - 1));
            assert(marked(t, x) == marked(t.drop_last(), x).push(t.last()));
            assert(marked(t.drop_last(), x).push(t.last()) + full.skip(at as int) =~= marked(
                t.drop_last(),
                x,
            ) + full.skip(at as int - 1));
        }
        at = at - 1;
    }
    line.insert(at, x);
    proof {
        let t = full.take(at as int);
        assert(marked(t, x) == t.push(x));
        assert(line@ =~= t.push(x) + full.skip(at as int));
    }
}

fn merge_line(recent: &[i64], cands: &[GapFillCandidate], kept: &[usize]) -> (line: Vec<Mark>)
    requires
        positions(kept@, cands@.len() as int),
    ensures
        line@ == merged_line(recent@, cand_views(cands@), kept@, kept@.len() as int),
        marks_below(line@, kept@.len() as int),
{
    let mut line: Vec<Mark> = Vec::new();
    let mut i: usize = 0;
    while i < recent.len()
        invariant
            i <= recent.len(),
            line@ == recent_line(recent@, i as int),
            marks_below(line@, kept@.len() as int),
        decreases recent.len() - i,
    {
        put_mark(&mut line, Mark { ts: recent[i], kept: None }, Ghost(kept@.len() as int));
        i = i + 1;
    }
    let mut k: usize = 0;
    while k < kept.len()
        invariant
            k <= kept.len(),
            positions(kept@, cands@.len() as int),
            line@ == merged_line(recent@, cand_views(cands@), kept@, k as int),
            marks_below(line@, kept@.len() as int),
        decreases kept.len() - k,
    {
        put_mark(
            &mut line,
            Mark { ts: cands[kept[k]].ts, kept: Some(k) },
            Ghost(kept@.len() as int),
        );
        k = k + 1;
    }
    line
}

fn reaches(recent: &[i64], ts: i64) -> (b: bool)
    ensures
        b == in_reach(recent@, ts),
{
    let mut i: usize = 0;
    while i < recent.len()
        invariant
            i <= recent.len(),
            forall|k: int|
                k < i && #[trigger] next_to(recent@, k, ts) ==> (if recent@[k] < ts {
                    span(recent@[k] as int, ts as int)
                } else {
                    span(ts as int, recent@[k] as int)
                }) > GAP_FILL_MAX_MS,
        decreases recent.len() - i,
    {
        let before: bool = recent[i] < ts;
        let near: bool = if before {
            recent.len() - i == 1 || ts <= recent[i + 1]
        } else {
            i == 0 || recent[i - 1] < ts
        };
        let d: i64 = if before {
            span_ms(recent[i], ts)
        } else {
            span_ms(ts, recent[i])
        };
        if near && d <= GAP_FILL_MAX_MS {
            proof {
                assert(next_to(recent@, i as int, ts));
            }
            return true;
        }
        i = i + 1;
    }
    false
}

/// `lo <= i < hi` is a cluster of the line: linked, and cut off on both sides.
pub open spec fn cluster(line: Seq<Mark>, lo: int, hi: int) -> bool {
    &&& 0 <= lo < hi <= line.len()
    &&& linked(line, lo, hi - 1)
    &&& lo > 0 ==> span(line[lo - 1].ts as int, line[lo].ts as int) > GAP_FILL_ADJ_MS
    &&& hi < line.len() ==> span(line[hi - 1].ts as int, line[hi].ts as int) > GAP_FILL_ADJ_MS
}

/// Marks hang together exactly when they share a cluster.
proof fn lemma_cluster(line: Seq<Mark>, lo: int, hi: int, p: int, q: int)
    requires
        cluster(line, lo, hi),
        lo <= p < hi,
        0 <= q < line.len(),
    ensures
        together(line, p, q) <==> lo <= q < hi,
{
    if q < lo {
        if together(line, p, q) {
            assert(span(line[lo - 1].ts as int, line[lo - 1 + 1].ts as int) <= GAP_FILL_ADJ_MS);
        }
    } else if q >= hi {
        if together(line, p, q) {
            assert(span(line[hi - 1].ts as int, line[hi - 1 + 1].ts as int) <= GAP_FILL_ADJ_MS);
        }
    }
}

/// Verdicts on the marks of one cluster, appended to `verdicts`.
fn judge_cluster(
    recent: &[i64],
    cands: &[GapFillCandidate],
    kept: &[usize],
    line: &[Mark],
    lo: usize,
    hi: usize,
    verdicts: &mut Vec<bool>,
)
    requires
        cluster(line@, lo as int, hi as int),
        positions(kept@, cands@.len() as int),
        marks_below(line@, kept@.len() as int),
        old(verdicts)@.len() == lo,
        forall|p: int|
            0 <= p < lo ==> #[trigger] old(verdicts)@[p] == chained(
                recent@,
                cand_views(cands@),
                kept@,
                line@,
                p,
            ),
    ensures
        final(verdicts)@.len() == hi,
        forall|p: int|
            0 <= p < hi ==> #[trigger] final(verdicts)@[p] == chained(
                recent@,
                cand_views(cands@),
                kept@,
                line@,
                p,
            ),
{
    let mut anchor: bool = false;
    let mut gear: bool = true;
    let mut i: usize = lo;
    while i < hi
        invariant
            lo <= i <= hi <= line@.len(),
            positions(kept@, cands@.len() as int),
            marks_below(line@, kept@.len() as int),
            anchor == (exists|q: int| lo <= q < i && (#[trigger] line@[q]).kept is None),
            gear == (forall|q: int|
                lo <= q < i ==> {
                    &&& (#[trigger] line@[q]).kept is Some
                    &&& cand_views(cands@)[kept@[line@[q].kept->0 as int] as int].gear_driving
                }),
        decreases hi - i,
    {
        let here: Mark = line[i];
        match here.kept {
            None => {
                proof {
                    assert(line@[i as int].kept is None);
                }
                anchor = true;
                gear = false;
            },
            Some(k) => {
                proof {
                    assert(line@[i as int].kept is Some);
                }
                if !cands[kept[k]].gear_driving {
                    gear = false;
                }
            },
        }
        i = i + 1;
    }
    let mut j: usize = lo;
    while j < hi
        invariant
            lo <= j <= hi <= line@.len(),
            cluster(line@, lo as int, hi as int),
            anchor == (exists|q: int| lo <= q < hi && (#[trigger] line@[q]).kept is None),
            gear == (forall|q: int|
                lo <= q < hi ==> {
                    &&& (#[trigger] line@[q]).kept is Some
                    &&& cand_views(cands@)[kept@[line@[q].kept->0 as int] as int].gear_driving
                }),
            verdicts@.len() == j,
            forall|p: int|
                0 <= p < j ==> #[trigger] verdicts@[p] == chained(
                    recent@,
                    cand_views(cands@),
                    kept@,
                    line@,
                    p,
                ),
        decreases hi - j,
    {
        proof {
            assert forall|q: int| 0 <= q < line@.len() implies (together(line@, j as int, q) <==> lo
                <= q < hi) by {
                lemma_cluster(line@, lo as int, hi as int, j as int, q);
            }
            if anchor {
                let q = choose|q: int| lo <= q < hi && (#[trigger] line@[q]).kept is None;
                assert(together(line@, j as int, q));
                assert(anchored(line@, j as int));
            } else {
                assert(!anchored(line@, j as int));
                assert(all_in_gear(line@, cand_views(cands@), kept@, j as int) == gear);
            }
        }
        let v: bool = if anchor {
            reaches(recent, line[j].ts)
        } else {
            gear
        };
        verdicts.push(v);
        j = j + 1;
    }
}

fn judge(recent: &[i64], cands: &[GapFillCandidate], kept: &[usize], line: &[Mark]) -> (verdicts:
    Vec<bool>)
    requires
        positions(kept@, cands@.len() as int),
        marks_below(line@, kept@.len() as int),
    ensures
        verdicts@.len() == line@.len(),
        forall|p: int|
            0 <= p < line@.len() ==> #[trigger] verdicts@[p] == chained(
                recent@,
                cand_views(cands@),
                kept@,
                line@,
                p,
            ),
{
    let mut verdicts: Vec<bool> = Vec::new();
    let mut lo: usize = 0;
    while lo < line.len()
        invariant
            lo <= line.len(),
            positions(kept@, cands@.len() as int),
            marks_below(line@, kept@.len() as int),
            0 < lo < line@.len() ==> span(line@[lo - 1].ts as int, line@[lo as int].ts as int)
                > GAP_FILL_ADJ_MS,
            verdicts@.len() == lo,
            forall|p: int|
                0 <= p < lo ==> #[trigger] verdicts@[p] == chained(
                    recent@,
                    cand_views(cands@),
                    kept@,
                    line@,
                    p,
                ),
        decreases line.len() - lo,
    {
        let mut hi: usize = lo + 1;
        while hi < line.len() && span_ms(line[hi - 1].ts, line[hi].ts) <= GAP_FILL_ADJ_MS
            invariant
                lo < hi <= line.len(),
                linked(line@, lo as int, hi - 1),
            decreases line.len() - hi,
        {
            hi = hi + 1;
        }
        judge_cluster(recent, cands, kept, line, lo, hi, &mut verdicts);
        lo = hi;
    }
    verdicts
}

/// Which event clips fill gaps of the sorted continuous recording
/// `recent_sorted_ts`, as positions in `candidates`.
pub fn select_gap_fill(recent_sorted_ts: &[i64], candidates: &[GapFillCandidate]) -> (r: Vec<usize>)
    ensures
        r@ == gap_fill(recent_sorted_ts@, cand_views(candidates@)),
        positions(r@, candidates@.len() as int),
{
    let hs: Vec<(i64, i64)> = fillable_holes(recent_sorted_ts);
    let kept: Vec<usize> = dedup_candidates(recent_sorted_ts, candidates);
    let line: Vec<Mark> = merge_line(recent_sorted_ts, candidates, &kept);
    let verdicts: Vec<bool> = judge(recent_sorted_ts, candidates, &kept, &line);
    let mut out: Vec<usize> = Vec::new();
    let mut k: usize = 0;
    while k < kept.len()
        invariant
            k <= kept.len(),
            hs@ == holes(recent_sorted_ts@, recent_sorted_ts@.len() as int),
            kept@ == distinct_candidates(recent_sorted_ts@, cand_views(candidates@)),
            positions(kept@, candidates@.len() as int),
            positions(out@, candidates@.len() as int),
            line@ == merged_line(recent_sorted_ts@, cand_views(candidates@), kept@, kept@.len() as int),
            verdicts@.len() == line@.len(),
            forall|p: int|
                0 <= p < line@.len() ==> #[trigger] verdicts@[p] == chained(
                    recent_sorted_ts@,
                    cand_views(candidates@),
                    kept@,
                    line@,
                    p,
                ),
            out@ == admitted_of(recent_sorted_ts@, cand_views(candidates@), kept@, k as int),
        decreases kept.len() - k,
    {
        let mut take: bool = ts_in_holes(&hs, candidates[kept[k]].ts);
        let mut p: usize = 0;
        while p < line.len() && !take
            invariant
                p <= line.len(),
                k < kept.len(),
                verdicts@.len() == line@.len(),
                line@ == merged_line(recent_sorted_ts@, cand_views(candidates@), kept@, kept@.len() as int),
                hs@ == holes(recent_sorted_ts@, recent_sorted_ts@.len() as int),
                forall|p: int|
                    0 <= p < line@.len() ==> #[trigger] verdicts@[p] == chained(
                        recent_sorted_ts@,
                        cand_views(candidates@),
                        kept@,
                        line@,
                        p,
                    ),
                take ==> admitted(recent_sorted_ts@, cand_views(candidates@), kept@, k as int),
                !take ==> !inside(hs@, cand_views(candidates@)[kept@[k as int] as int].ts),
                !take ==> forall|q: int|
                    0 <= q < p ==> !((#[trigger] line@[q]).kept == Some(k) && chained(
                        recent_sorted_ts@,
                        cand_views(candidates@),
                        kept@,
                        line@,
                        q,
                    )),
            decreases line.len() - p,
        {
            let mine: bool = match line[p].kept {
                Some(x) => x == k,
                None => false,
            };
            if mine && verdicts[p] {
                proof {
                    assert(line@[p as int].kept == Some(k));
                }
                take = true;
            }
            p = p + 1;
        }
        if take {
            out.push(kept[k]);
        }
        k = k + 1;
    }
    out
}

// ---------------------------------------------------------------------------
// Selections by time alone
// ---------------------------------------------------------------------------

/// Candidates of which only time and path are known.
pub open spec fn unseen(clips: Seq<(i64, &str)>) -> Seq<Cand> {
    Seq::new(
        clips.len(),
        |i: int|
            Cand {
                ts: clips[i].0,
                file: clips[i].1@,
                driving: None,
                gear_driving: false,
            },
    )
}

fn unseen_candidates<'a>(clips: &[(i64, &'a str)]) -> (r: Vec<GapFillCandidate<'a>>)
    ensures
        cand_views(r@) == unseen(clips@),
{
    let mut out: Vec<GapFillCandidate<'a>> = Vec::new();
    let mut i: usize = 0;
    while i < clips.len()
        invariant
            i <= clips.len(),
            cand_views(out@) =~= unseen(clips@).take(i as int),
        decreases clips.len() - i,
    {
        let ghost before = cand_views(out@);
        out.push(
            GapFillCandidate {
                ts: clips[i].0,
                file: clips[i].1,
                driving: None,
                gear_driving: false,
            },
        );
        proof {
            assert(cand_views(out@) =~= before.push(unseen(clips@)[i as int]));
        }
        i = i + 1;
    }
    proof {
        assert(unseen(clips@).take(clips@.len() as int) =~= unseen(clips@));
    }
    out
}

/// [`select_gap_fill`] before any telemetry was read.
pub fn select_gap_fill_events(recent_sorted_ts: &[i64], candidates: &[(i64, &str)]) -> (r: Vec<
    usize,
>)
    ensures
        r@ == gap_fill(recent_sorted_ts@, unseen(candidates@)),
        positions(r@, candidates@.len() as int),
{
    let cands: Vec<GapFillCandidate> = unseen_candidates(candidates);
    select_gap_fill(recent_sorted_ts, &cands)
}

/// The kept candidates among the first `n` that lie strictly inside a hole.
pub open spec fn interior_of(
    recent: Seq<i64>,
    cands: Seq<Cand>,
    kept: Seq<usize>,
    n: int,
) -> Seq<usize>
    decreases n,
{
    if n <= 0 {
        Seq::empty()
    } else if inside(holes(recent, recent.len() as int), cands[kept[n - 1] as int].ts) {
        interior_of(recent, cands, kept, n - 1).push(kept[n - 1])
    } else {
        interior_of(recent, cands, kept, n - 1)
    }
}

/// The event clips that lie strictly inside a hole, whether or not they show
/// driving: for playback, where a parked minute is missing as much as any other.
pub open spec fn interior_fill(recent: Seq<i64>, cands: Seq<Cand>) -> Seq<usize> {
    let kept = distinct_candidates(recent, cands);
    interior_of(recent, cands, kept, kept.len() as int)
}

pub fn select_interior_fill(recent_sorted_ts: &[i64], candidates: &[(i64, &str)]) -> (r: Vec<usize>)
    ensures
        r@ == interior_fill(recent_sorted_ts@, unseen(candidates@)),
        positions(r@, candidates@.len() as int),
{
    let cands: Vec<GapFillCandidate> = unseen_candidates(candidates);
    let hs: Vec<(i64, i64)> = fillable_holes(recent_sorted_ts);
    let kept: Vec<usize> = dedup_candidates(recent_sorted_ts, &cands);
    let mut out: Vec<usize> = Vec::new();
    let mut k: usize = 0;
    while k < kept.len()
        invariant
            k <= kept.len(),
            hs@ == holes(recent_sorted_ts@, recent_sorted_ts@.len() as int),
            cand_views(cands@) == unseen(candidates@),
            positions(kept@, cands@.len() as int),
            positions(out@, cands@.len() as int),
            out@ == interior_of(recent_sorted_ts@, cand_views(cands@), kept@, k as int),
        decreases kept.len() - k,
    {
        if ts_in_holes(&hs, cands[kept[k]].ts) {
            out.push(kept[k]);
        }
        k = k + 1;
    }
    out
}

// ---------------------------------------------------------------------------
// Laws
// ---------------------------------------------------------------------------

/// Every one of `order` is eligible.
spec fn all_eligible(recent: Seq<i64>, cands: Seq<Cand>, order: Seq<usize>) -> bool {
    forall|i: int|
        0 <= i < order.len() ==> 0 <= #[trigger] order[i] < cands.len() && eligible(
            recent,
            cands,
            order[i] as int,
        )
}

/// `order` is ascending in time.
spec fn ascending(cands: Seq<Cand>, order: Seq<usize>) -> bool {
    forall|i: int, j: int|
        0 <= i <= j < order.len() ==> cands[#[trigger] order[i] as int].ts <= cands[
            #[trigger] order[j] as int].ts
}

proof fn lemma_placed(recent: Seq<i64>, cands: Seq<Cand>, order: Seq<usize>, x: usize)
    requires
        all_eligible(recent, cands, order),
        ascending(cands, order),
        x < cands.len(),
        eligible(recent, cands, x as int),
    ensures
        all_eligible(recent, cands, placed(cands, order, x)),
        ascending(cands, placed(cands, order, x)),
        placed(cands, order, x).len() == order.len() + 1,
        order.len() > 0 && earlier(cands, x as int, order.last() as int) ==> cands[placed(
            cands,
            order,
            x,
        ).last() as int].ts == cands[order.last() as int].ts,
        order.len() == 0 || !earlier(cands, x as int, order.last() as int) ==> placed(
            cands,
            order,
            x,
        ).last() == x,
    decreases order.len(),
{
    if order.len() == 0 || !earlier(cands, x as int, order.last() as int) {
    } else {
        let head = order.drop_last();
        assert forall|i: int| 0 <= i < head.len() implies 0 <= #[trigger] head[i] < cands.len()
            && eligible(recent, cands, head[i] as int) by {
            assert(head[i] == order[i]);
        }
        assert forall|i: int, j: int| 0 <= i <= j < head.len() implies cands[
            #[trigger] head[i] as int].ts <= cands[#[trigger] head[j] as int].ts by {
            assert(head[i] == order[i] && head[j] == order[j]);
        }
        lemma_placed(recent, cands, head, x);
        let t = placed(cands, head, x);
        let r = placed(cands, order, x);
        if head.len() > 0 {
            assert(order[head.len() - 1] == head.last());
        }
        assert(cands[t.last() as int].ts <= cands[order.last() as int].ts);
        assert forall|i: int, j: int| 0 <= i <= j < r.len() implies cands[#[trigger] r[i] as int].ts
            <= cands[#[trigger] r[j] as int].ts by {
            if i < t.len() {
                assert(r[i] == t[i]);
                assert(cands[t[i] as int].ts <= cands[t[t.len() - 1] as int].ts);
            }
            if j < t.len() {
                assert(r[j] == t[j]);
            }
        }
    }
}

proof fn lemma_ordered(recent: Seq<i64>, cands: Seq<Cand>, n: int)
    requires
        0 <= n <= cands.len(),
        cands.len() <= usize::MAX,
    ensures
        all_eligible(recent, cands, ordered(recent, cands, n)),
        ascending(cands, ordered(recent, cands, n)),
    decreases n,
{
    if n > 0 {
        lemma_ordered(recent, cands, n - 1);
        if eligible(recent, cands, n - 1) {
            lemma_placed(recent, cands, ordered(recent, cands, n - 1), (n - 1) as usize);
        }
    }
}

/// Later ones of `kept` follow earlier ones by more than the duplicate window.
spec fn spaced(cands: Seq<Cand>, kept: Seq<usize>) -> bool {
    forall|i: int, j: int|
        0 <= i < j < kept.len() ==> span(
            cands[#[trigger] kept[i] as int].ts as int,
            cands[#[trigger] kept[j] as int].ts as int,
        ) > GAP_FILL_DUP_MS
}

proof fn lemma_thinned(recent: Seq<i64>, cands: Seq<Cand>, order: Seq<usize>)
    requires
        all_eligible(recent, cands, order),
        ascending(cands, order),
    ensures
        all_eligible(recent, cands, thinned(cands, order)),
        spaced(cands, thinned(cands, order)),
        thinned(cands, order).len() > 0 ==> order.len() > 0 && cands[thinned(
            cands,
            order,
        ).last() as int].ts <= cands[order.last() as int].ts,
    decreases order.len(),
{
    if order.len() > 0 {
        let head = order.drop_last();
        assert forall|i: int| 0 <= i < head.len() implies 0 <= #[trigger] head[i] < cands.len()
            && eligible(recent, cands, head[i] as int) by {
            assert(head[i] == order[i]);
        }
        assert forall|i: int, j: int| 0 <= i <= j < head.len() implies cands[
            #[trigger] head[i] as int].ts <= cands[#[trigger] head[j] as int].ts by {
            assert(head[i] == order[i] && head[j] == order[j]);
        }
        lemma_thinned(recent, cands, head);
        let k = thinned(cands, head);
        let x = order.last();
        let r = thinned(cands, order);
        assert(x == order[order.len() - 1]);
        if head.len() > 0 {
            assert(head.last() == order[order.len() - 2]);
            assert(cands[order[order.len() - 2] as int].ts <= cands[order[order.len() - 1] as int].ts);
        }
        if r.len() > k.len() {
            assert forall|i: int, j: int| 0 <= i < j < r.len() implies span(
                cands[#[trigger] r[i] as int].ts as int,
                cands[#[trigger] r[j] as int].ts as int,
            ) > GAP_FILL_DUP_MS by {
                if j < k.len() {
                    assert(r[i] == k[i] && r[j] == k[j]);
                } else {
                    assert(r[i] == k[i]);
                    if i < k.len() - 1 {
                        law_spans_add_up(
                            cands[k[i] as int].ts as int,
                            cands[k[k.len() - 1] as int].ts as int,
                            cands[x as int].ts as int,
                            GAP_FILL_DUP_MS as int,
                        );
                    }
                }
            }
        }
    }
}

pub proof fn lemma_admitted_subset(
    recent: Seq<i64>,
    cands: Seq<Cand>,
    kept: Seq<usize>,
    n: int,
) -> (at: Seq<int>)
    requires
        0 <= n <= kept.len(),
    ensures
        at.len() == admitted_of(recent, cands, kept, n).len(),
        forall|i: int|
            0 <= i < at.len() ==> 0 <= #[trigger] at[i] < n && kept[at[i]] == admitted_of(
                recent,
                cands,
                kept,
                n,
            )[i] && admitted(recent, cands, kept, at[i]),
        forall|i: int, j: int| 0 <= i < j < at.len() ==> #[trigger] at[i] < #[trigger] at[j],
    decreases n,
{
    if n <= 0 {
        Seq::empty()
    } else {
        let head = lemma_admitted_subset(recent, cands, kept, n - 1);
        if admitted(recent, cands, kept, n - 1) {
            head.push(n - 1)
        } else {
            head
        }
    }
}

/// A clip whose telemetry shows the car parked throughout is never admitted, nor
/// one that repeats a continuous clip.
pub proof fn law_parked_clips_stay_out(recent: Seq<i64>, cands: Seq<Cand>, i: int)
    requires
        cands.len() <= usize::MAX,
        0 <= i < gap_fill(recent, cands).len(),
    ensures
        0 <= gap_fill(recent, cands)[i] < cands.len(),
        cands[gap_fill(recent, cands)[i] as int].driving != Some(false),
        !twin_of_recent(recent, cands[gap_fill(recent, cands)[i] as int].ts),
{
    lemma_ordered(recent, cands, cands.len() as int);
    lemma_thinned(recent, cands, ordered(recent, cands, cands.len() as int));
    let kept = distinct_candidates(recent, cands);
    let at = lemma_admitted_subset(recent, cands, kept, kept.len() as int);
    assert(eligible(recent, cands, kept[at[i]] as int));
}

/// No two admitted clips are the same recorder segment: each follows the one
/// before by more than the duplicate window.
pub proof fn law_admitted_clips_are_distinct(
    recent: Seq<i64>,
    cands: Seq<Cand>,
    i: int,
    j: int,
)
    requires
        cands.len() <= usize::MAX,
        0 <= i < j < gap_fill(recent, cands).len(),
    ensures
        span(
            cands[gap_fill(recent, cands)[i] as int].ts as int,
            cands[gap_fill(recent, cands)[j] as int].ts as int,
        ) > GAP_FILL_DUP_MS,
{
    lemma_ordered(recent, cands, cands.len() as int);
    lemma_thinned(recent, cands, ordered(recent, cands, cands.len() as int));
    let kept = distinct_candidates(recent, cands);
    let at = lemma_admitted_subset(recent, cands, kept, kept.len() as int);
    assert(span(
        cands[kept[at[i]] as int].ts as int,
        cands[kept[at[j]] as int].ts as int,
    ) > GAP_FILL_DUP_MS);
}

pub proof fn lemma_kept_len(recent: Seq<i64>, cands: Seq<Cand>)
    requires
        cands.len() <= usize::MAX,
    ensures
        distinct_candidates(recent, cands).len() <= cands.len(),
{
    lemma_ordered_len(recent, cands, cands.len() as int);
    lemma_thinned_len(cands, ordered(recent, cands, cands.len() as int));
}

proof fn lemma_ordered_len(recent: Seq<i64>, cands: Seq<Cand>, n: int)
    requires
        0 <= n <= cands.len(),
        cands.len() <= usize::MAX,
    ensures
        ordered(recent, cands, n).len() <= n,
    decreases n,
{
    if n > 0 {
        lemma_ordered_len(recent, cands, n - 1);
        lemma_ordered(recent, cands, n - 1);
        if eligible(recent, cands, n - 1) {
            lemma_placed(recent, cands, ordered(recent, cands, n - 1), (n - 1) as usize);
        }
    }
}

proof fn lemma_thinned_len(cands: Seq<Cand>, order: Seq<usize>)
    ensures
        thinned(cands, order).len() <= order.len(),
    decreases order.len(),
{
    if order.len() > 0 {
        lemma_thinned_len(cands, order.drop_last());
    }
}

} // verus!
