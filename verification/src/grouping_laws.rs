//! Which clips make up the time line, and that none of them is lost.

use crate::clock::{clip_stamp, span};
use crate::float::{F32, fabs32, flt32};
use crate::gapfill::{
    Cand, GAP_FILL_DUP_MS, GAP_FILL_MAX_MS, Mark, admitted, admitted_of, anchored, chained,
    distinct_candidates, earlier, eligible, gap_fill, holes, in_reach, inside, interior_fill,
    interior_of, last_before, linked, merged_line, next_to, ordered, placed, shows_driving,
    thinned, together, twin_of_recent,
};
use crate::text::slashed;
use crate::timeline::{
    Key, Timed, candidates, event_path, events, in_time, is_recent, recents, time_line, timed,
    times, with_chosen,
};
use crate::types::GearRun;
use vstd::prelude::*;

verus! {

// ---------------------------------------------------------------------------
// Driving
// ---------------------------------------------------------------------------

/// Telemetry shows driving where the gear left Park, where the car was faster than half a
/// metre per second in either direction, or, where no gear was recorded at all, where not
/// every raw frame is Park; and nowhere else.
pub proof fn law_driving_is_gear_or_speed(
    runs: Seq<GearRun>,
    gears: Seq<u8>,
    speeds: Seq<F32>,
    raw_park_count: u32,
    raw_frame_count: u32,
)
    ensures
        forall|i: int|
            0 <= i < runs.len() && (#[trigger] runs[i]).gear != 0 ==> shows_driving(
                runs,
                gears,
                speeds,
                raw_park_count,
                raw_frame_count,
            ),
        forall|i: int|
            0 <= i < gears.len() && #[trigger] gears[i] != 0 ==> shows_driving(
                runs,
                gears,
                speeds,
                raw_park_count,
                raw_frame_count,
            ),
        forall|i: int|
            0 <= i < speeds.len() && flt32(F32 { bits: 0x3F00_0000 }, fabs32(#[trigger] speeds[i]))
                ==> shows_driving(runs, gears, speeds, raw_park_count, raw_frame_count),
        runs.len() == 0 && gears.len() == 0 && raw_park_count < raw_frame_count ==> shows_driving(
            runs,
            gears,
            speeds,
            raw_park_count,
            raw_frame_count,
        ),
        (forall|i: int| 0 <= i < runs.len() ==> (#[trigger] runs[i]).gear == 0) && (forall|i: int|
            0 <= i < gears.len() ==> #[trigger] gears[i] == 0) && (forall|i: int|
            0 <= i < speeds.len() ==> !flt32(
                F32 { bits: 0x3F00_0000 },
                fabs32(#[trigger] speeds[i]),
            )) && (runs.len() > 0 || gears.len() > 0 || raw_park_count >= raw_frame_count)
            ==> !shows_driving(runs, gears, speeds, raw_park_count, raw_frame_count),
{
}

// ---------------------------------------------------------------------------
// Holes
// ---------------------------------------------------------------------------

/// The hole lies between two of the first `n` clips in a row.
spec fn is_hole(recent: Seq<i64>, h: (i64, i64), n: int) -> bool {
    exists|k: int|
        0 <= k < n - 1 && 90_000 < #[trigger] span(recent[k] as int, recent[k + 1] as int)
            <= 1_800_000 && h == (recent[k], recent[k + 1])
}

proof fn lemma_holes(recent: Seq<i64>, n: int)
    requires
        0 <= n <= recent.len(),
    ensures
        forall|j: int|
            0 <= j < holes(recent, n).len() ==> is_hole(recent, #[trigger] holes(recent, n)[j], n),
        forall|k: int|
            0 <= k < n - 1 && 90_000 < #[trigger] span(recent[k] as int, recent[k + 1] as int)
                <= 1_800_000 ==> holes(recent, n).contains((recent[k], recent[k + 1])),
    decreases n,
{
    if n > 1 {
        lemma_holes(recent, n - 1);
        let b = holes(recent, n - 1);
        let h = holes(recent, n);
        assert forall|j: int| 0 <= j < h.len() implies is_hole(recent, #[trigger] h[j], n) by {
            if j < b.len() {
                assert(h[j] == b[j]);
                assert(is_hole(recent, b[j], n - 1));
                let k = choose|k: int|
                    0 <= k < n - 2 && 90_000 < #[trigger] span(
                        recent[k] as int,
                        recent[k + 1] as int,
                    ) <= 1_800_000 && b[j] == (recent[k], recent[k + 1]);
                assert(90_000 < span(recent[k] as int, recent[k + 1] as int));
            } else {
                let k = n - 2;
                assert(90_000 < span(recent[k] as int, recent[k + 1] as int) <= 1_800_000);
            }
        }
        assert forall|k: int|
            0 <= k < n - 1 && 90_000 < #[trigger] span(recent[k] as int, recent[k + 1] as int)
                <= 1_800_000 implies h.contains((recent[k], recent[k + 1])) by {
            if k < n - 2 {
                assert(b.contains((recent[k], recent[k + 1])));
                let j = choose|j: int| 0 <= j < b.len() && b[j] == (recent[k], recent[k + 1]);
                assert(h[j] == b[j]);
            } else {
                assert(h[h.len() - 1] == (recent[k], recent[k + 1]));
            }
        }
    }
}

/// A time falls in a hole of the continuous recording: between two clips in a row with
/// more than a minute and a half and at most half an hour between them.
pub open spec fn in_hole(recent: Seq<i64>, ts: i64) -> bool {
    exists|k: int|
        0 <= k < recent.len() - 1 && recent[k] < ts < recent[k + 1] && 90_000 < #[trigger] span(
            recent[k] as int,
            recent[k + 1] as int,
        ) <= 1_800_000
}

/// Holes lie between neighbours that are more than a minute and a half and at most half
/// an hour apart.
pub proof fn law_holes_lie_between_neighbours(recent: Seq<i64>, ts: i64)
    ensures
        inside(holes(recent, recent.len() as int), ts) == in_hole(recent, ts),
{
    let n = recent.len() as int;
    let h = holes(recent, n);
    lemma_holes(recent, n);
    if inside(h, ts) {
        let j = choose|j: int| 0 <= j < h.len() && (#[trigger] h[j]).0 < ts < h[j].1;
        assert(is_hole(recent, h[j], n));
        let k = choose|k: int|
            0 <= k < n - 1 && 90_000 < #[trigger] span(recent[k] as int, recent[k + 1] as int)
                <= 1_800_000 && h[j] == (recent[k], recent[k + 1]);
        assert(recent[k] < ts < recent[k + 1]);
    }
    if in_hole(recent, ts) {
        let k = choose|k: int|
            0 <= k < recent.len() - 1 && recent[k] < ts < recent[k + 1] && 90_000
                < #[trigger] span(recent[k] as int, recent[k + 1] as int) <= 1_800_000;
        assert(h.contains((recent[k], recent[k + 1])));
        let j = choose|j: int| 0 <= j < h.len() && h[j] == (recent[k], recent[k + 1]);
        assert(h[j].0 < ts < h[j].1);
    }
}

// ---------------------------------------------------------------------------
// Candidates
// ---------------------------------------------------------------------------

/// Candidate `i` was not parked throughout, and does not begin within half a minute of the
/// continuous clip before it.
pub open spec fn is_fresh(recent: Seq<i64>, cands: Seq<Cand>, i: int) -> bool {
    cands[i].driving != Some(false) && forall|k: int|
        #[trigger] last_before(recent, k, cands[i].ts) ==> span(
            recent[k] as int,
            cands[i].ts as int,
        ) > 30_000
}

proof fn lemma_placed_members(cands: Seq<Cand>, order: Seq<usize>, x: usize)
    ensures
        forall|y: usize| #[trigger] placed(cands, order, x).contains(y) <==> order.contains(y) || y == x,
    decreases order.len(),
{
    let r = placed(cands, order, x);
    if order.len() == 0 || !earlier(cands, x as int, order.last() as int) {
        assert forall|y: usize| #[trigger] r.contains(y) <==> order.contains(y) || y == x by {
            if order.contains(y) {
                let i = choose|i: int| 0 <= i < order.len() && order[i] == y;
                assert(r[i] == y);
            }
            if y == x {
                assert(r[order.len() as int] == y);
            }
        }
    } else {
        let head = order.drop_last();
        lemma_placed_members(cands, head, x);
        let t = placed(cands, head, x);
        assert forall|y: usize| #[trigger] r.contains(y) <==> order.contains(y) || y == x by {
            if r.contains(y) {
                let i = choose|i: int| 0 <= i < r.len() && r[i] == y;
                if i < t.len() {
                    assert(t[i] == y);
                    assert(t.contains(y));
                    if head.contains(y) {
                        let k = choose|k: int| 0 <= k < head.len() && head[k] == y;
                        assert(order[k] == y);
                    }
                } else {
                    assert(order[order.len() - 1] == y);
                }
            }
            if order.contains(y) {
                let i = choose|i: int| 0 <= i < order.len() && order[i] == y;
                if i < head.len() {
                    assert(head[i] == y);
                    assert(t.contains(y));
                    let k = choose|k: int| 0 <= k < t.len() && t[k] == y;
                    assert(r[k] == y);
                } else {
                    assert(r[r.len() - 1] == y);
                }
            }
            if y == x {
                assert(t.contains(x));
                let k = choose|k: int| 0 <= k < t.len() && t[k] == x;
                assert(r[k] == x);
            }
        }
    }
}

proof fn lemma_ordered_members(recent: Seq<i64>, cands: Seq<Cand>, n: int)
    requires
        0 <= n <= cands.len() <= usize::MAX,
    ensures
        forall|y: usize| #[trigger]
            ordered(recent, cands, n).contains(y) <==> y < n && eligible(recent, cands, y as int),
    decreases n,
{
    if n > 0 {
        lemma_ordered_members(recent, cands, n - 1);
        let b = ordered(recent, cands, n - 1);
        let r = ordered(recent, cands, n);
        if eligible(recent, cands, n - 1) {
            lemma_placed_members(cands, b, (n - 1) as usize);
        }
        assert forall|y: usize| #[trigger] r.contains(y) <==> y < n && eligible(
            recent,
            cands,
            y as int,
        ) by {
            assert(b.contains(y) <==> y < n - 1 && eligible(recent, cands, y as int));
        }
    }
}

/// Candidate `y` is kept, or repeats one that is: it begins at most half a minute behind
/// the last one kept before it.
pub open spec fn kept_or_repeats(cands: Seq<Cand>, kept: Seq<usize>, y: usize) -> bool {
    kept.contains(y) || exists|x: usize|
        kept.contains(x) && #[trigger] span(cands[x as int].ts as int, cands[y as int].ts as int)
            <= 30_000
}

proof fn lemma_thinned_covers(cands: Seq<Cand>, order: Seq<usize>)
    ensures
        forall|y: usize| #[trigger] order.contains(y) ==> kept_or_repeats(cands, thinned(cands, order), y),
        forall|y: usize| #[trigger] thinned(cands, order).contains(y) ==> order.contains(y),
    decreases order.len(),
{
    if order.len() > 0 {
        let head = order.drop_last();
        let x = order.last();
        lemma_thinned_covers(cands, head);
        let k = thinned(cands, head);
        let r = thinned(cands, order);
        assert forall|y: usize| k.contains(y) implies #[trigger] r.contains(y) by {
            let i = choose|i: int| 0 <= i < k.len() && k[i] == y;
            assert(r[i] == y);
        }
        assert forall|y: usize| #[trigger] order.contains(y) implies kept_or_repeats(cands, r, y) by {
            let i = choose|i: int| 0 <= i < order.len() && order[i] == y;
            if i < head.len() {
                assert(head[i] == y);
                assert(head.contains(y));
                if !k.contains(y) {
                    let z = choose|z: usize|
                        k.contains(z) && #[trigger] span(
                            cands[z as int].ts as int,
                            cands[y as int].ts as int,
                        ) <= 30_000;
                    assert(r.contains(z));
                } else {
                    assert(r.contains(y));
                }
            } else if r.len() > k.len() {
                assert(r[r.len() - 1] == y);
            } else {
                let z = k.last();
                assert(k[k.len() - 1] == z);
                assert(k.contains(z));
                assert(r.contains(z));
                assert(span(cands[z as int].ts as int, cands[y as int].ts as int) <= 30_000);
            }
        }
        assert forall|y: usize| #[trigger] r.contains(y) implies order.contains(y) by {
            let i = choose|i: int| 0 <= i < r.len() && r[i] == y;
            if i < k.len() {
                assert(k[i] == y);
                assert(k.contains(y));
                let j = choose|j: int| 0 <= j < head.len() && head[j] == y;
                assert(order[j] == y);
            } else {
                assert(order[order.len() - 1] == y);
            }
        }
    }
}

/// A fresh candidate in a hole of the recording is admitted, or one that it repeats was
/// kept in its place.
pub proof fn law_holes_are_filled(recent: Seq<i64>, cands: Seq<Cand>, i: int)
    requires
        cands.len() <= usize::MAX,
        0 <= i < cands.len(),
        is_fresh(recent, cands, i),
    ensures
        distinct_candidates(recent, cands).contains(i as usize) && in_hole(recent, cands[i].ts)
            ==> gap_fill(recent, cands).contains(i as usize) && interior_fill(recent, cands).contains(
            i as usize,
        ),
        kept_or_repeats(cands, distinct_candidates(recent, cands), i as usize),
{
    let n = cands.len() as int;
    let order = ordered(recent, cands, n);
    let kept = distinct_candidates(recent, cands);
    assert(eligible(recent, cands, i)) by {
        if twin_of_recent(recent, cands[i].ts) {
            let k = choose|k: int| #[trigger]
                last_before(recent, k, cands[i].ts) && span(recent[k] as int, cands[i].ts as int)
                    <= GAP_FILL_DUP_MS;
            assert(last_before(recent, k, cands[i].ts));
        }
    }
    lemma_ordered_members(recent, cands, n);
    assert(order.contains(i as usize));
    lemma_thinned_covers(cands, order);
    if kept.contains(i as usize) && in_hole(recent, cands[i].ts) {
        law_holes_lie_between_neighbours(recent, cands[i].ts);
        let k = choose|k: int| 0 <= k < kept.len() && kept[k] == i as usize;
        assert(admitted(recent, cands, kept, k));
        lemma_admitted_is_listed(recent, cands, kept, kept.len() as int, k);
        lemma_interior_is_listed(recent, cands, kept, kept.len() as int, k);
    }
}

proof fn lemma_admitted_is_listed(recent: Seq<i64>, cands: Seq<Cand>, kept: Seq<usize>, n: int, k: int)
    requires
        0 <= k < n <= kept.len(),
        admitted(recent, cands, kept, k),
    ensures
        admitted_of(recent, cands, kept, n).contains(kept[k]),
    decreases n,
{
    let r = admitted_of(recent, cands, kept, n);
    if k == n - 1 {
        assert(r[r.len() - 1] == kept[k]);
    } else {
        lemma_admitted_is_listed(recent, cands, kept, n - 1, k);
        let b = admitted_of(recent, cands, kept, n - 1);
        let i = choose|i: int| 0 <= i < b.len() && b[i] == kept[k];
        assert(r[i] == kept[k]);
    }
}

proof fn lemma_interior_is_listed(recent: Seq<i64>, cands: Seq<Cand>, kept: Seq<usize>, n: int, k: int)
    requires
        0 <= k < n <= kept.len(),
        inside(holes(recent, recent.len() as int), cands[kept[k] as int].ts),
    ensures
        interior_of(recent, cands, kept, n).contains(kept[k]),
    decreases n,
{
    let r = interior_of(recent, cands, kept, n);
    if k == n - 1 {
        assert(r[r.len() - 1] == kept[k]);
    } else {
        lemma_interior_is_listed(recent, cands, kept, n - 1, k);
        let b = interior_of(recent, cands, kept, n - 1);
        let i = choose|i: int| 0 <= i < b.len() && b[i] == kept[k];
        assert(r[i] == kept[k]);
    }
}

/// For playback only clips inside a hole are taken, each a fresh candidate.
pub proof fn law_playback_fills_holes_alone(recent: Seq<i64>, cands: Seq<Cand>, i: int)
    requires
        cands.len() <= usize::MAX,
        0 <= i < interior_fill(recent, cands).len(),
    ensures
        interior_fill(recent, cands)[i] < cands.len(),
        in_hole(recent, cands[interior_fill(recent, cands)[i] as int].ts),
        is_fresh(recent, cands, interior_fill(recent, cands)[i] as int),
{
    let kept = distinct_candidates(recent, cands);
    let n = cands.len() as int;
    lemma_interior_members(recent, cands, kept, kept.len() as int);
    let y = interior_fill(recent, cands)[i];
    assert(interior_fill(recent, cands).contains(y));
    lemma_ordered_members(recent, cands, n);
    lemma_thinned_covers(cands, ordered(recent, cands, n));
    assert(ordered(recent, cands, n).contains(y));
    law_holes_lie_between_neighbours(recent, cands[y as int].ts);
    assert forall|k: int| #[trigger] last_before(recent, k, cands[y as int].ts) implies span(
        recent[k] as int,
        cands[y as int].ts as int,
    ) > 30_000 by {
        assert(!twin_of_recent(recent, cands[y as int].ts));
    }
}

proof fn lemma_interior_members(recent: Seq<i64>, cands: Seq<Cand>, kept: Seq<usize>, n: int)
    requires
        0 <= n <= kept.len(),
    ensures
        forall|y: usize| #[trigger]
            interior_of(recent, cands, kept, n).contains(y) ==> kept.contains(y) && inside(
                holes(recent, recent.len() as int),
                cands[y as int].ts,
            ),
    decreases n,
{
    if n > 0 {
        lemma_interior_members(recent, cands, kept, n - 1);
        let b = interior_of(recent, cands, kept, n - 1);
        let r = interior_of(recent, cands, kept, n);
        assert forall|y: usize| #[trigger] r.contains(y) implies kept.contains(y) && inside(
            holes(recent, recent.len() as int),
            cands[y as int].ts,
        ) by {
            let i = choose|i: int| 0 <= i < r.len() && r[i] == y;
            if i < b.len() {
                assert(b[i] == y);
                assert(b.contains(y));
            } else {
                assert(kept[n - 1] == y);
            }
        }
    }
}

// ---------------------------------------------------------------------------
// The time line
// ---------------------------------------------------------------------------

proof fn lemma_in_time_members(line: Seq<Timed>, x: Timed)
    ensures
        forall|y: Timed| #[trigger] in_time(line, x).contains(y) <==> line.contains(y) || y == x,
    decreases line.len(),
{
    let r = in_time(line, x);
    if line.len() == 0 || line.last().ts <= x.ts {
        assert forall|y: Timed| #[trigger] r.contains(y) <==> line.contains(y) || y == x by {
            if line.contains(y) {
                let i = choose|i: int| 0 <= i < line.len() && line[i] == y;
                assert(r[i] == y);
            }
            if y == x {
                assert(r[line.len() as int] == y);
            }
        }
    } else {
        let head = line.drop_last();
        lemma_in_time_members(head, x);
        let t = in_time(head, x);
        assert forall|y: Timed| #[trigger] r.contains(y) <==> line.contains(y) || y == x by {
            if r.contains(y) {
                let i = choose|i: int| 0 <= i < r.len() && r[i] == y;
                if i < t.len() {
                    assert(t[i] == y);
                    assert(t.contains(y));
                    if head.contains(y) {
                        let k = choose|k: int| 0 <= k < head.len() && head[k] == y;
                        assert(line[k] == y);
                    }
                } else {
                    assert(line[line.len() - 1] == y);
                }
            }
            if line.contains(y) {
                let i = choose|i: int| 0 <= i < line.len() && line[i] == y;
                if i < head.len() {
                    assert(head[i] == y);
                    assert(t.contains(y));
                    let k = choose|k: int| 0 <= k < t.len() && t[k] == y;
                    assert(r[k] == y);
                } else {
                    assert(r[r.len() - 1] == y);
                }
            }
            if y == x {
                assert(t.contains(x));
                let k = choose|k: int| 0 <= k < t.len() && t[k] == x;
                assert(r[k] == x);
            }
        }
    }
}

proof fn lemma_recents_hold(keys: Seq<Key>, n: int, i: int)
    requires
        0 <= i < n <= keys.len(),
        is_recent(keys, i),
    ensures
        recents(keys, n).contains(timed(keys, i)),
    decreases n,
{
    if is_recent(keys, n - 1) {
        lemma_in_time_members(recents(keys, n - 1), timed(keys, n - 1));
    }
    if i < n - 1 {
        lemma_recents_hold(keys, n - 1, i);
    }
}

proof fn lemma_chosen_keep(line: Seq<Timed>, ev: Seq<Timed>, chosen: Seq<usize>, n: int, y: Timed)
    requires
        line.contains(y),
    ensures
        with_chosen(line, ev, chosen, n).contains(y),
    decreases n,
{
    if n > 0 {
        lemma_chosen_keep(line, ev, chosen, n - 1, y);
        lemma_in_time_members(with_chosen(line, ev, chosen, n - 1), ev[chosen[n - 1] as int]);
    }
}

proof fn lemma_chosen_join(line: Seq<Timed>, ev: Seq<Timed>, chosen: Seq<usize>, n: int, k: int)
    requires
        0 <= k < n <= chosen.len(),
    ensures
        with_chosen(line, ev, chosen, n).contains(ev[chosen[k] as int]),
    decreases n,
{
    lemma_in_time_members(with_chosen(line, ev, chosen, n - 1), ev[chosen[n - 1] as int]);
    if k < n - 1 {
        lemma_chosen_join(line, ev, chosen, n - 1, k);
    }
}

/// No clip of the continuous recording is lost: each with a time in its name, the first of
/// its path, stands on the time line at that time.
pub proof fn law_every_recording_is_on_the_line(keys: Seq<Key>, i: int)
    requires
        0 <= i < keys.len(),
        !event_path(keys[i].file),
        clip_stamp(keys[i].file) is Some,
        forall|j: int| 0 <= j < i ==> slashed((#[trigger] keys[j]).file) != slashed(keys[i].file),
    ensures
        time_line(keys).contains(
            Timed { index: i as usize, ts: (clip_stamp(keys[i].file)->0) as i64 },
        ),
{
    let n = keys.len() as int;
    let base = recents(keys, n);
    let ev = events(keys, n);
    assert(is_recent(keys, i));
    lemma_recents_hold(keys, n, i);
    let chosen = gap_fill(times(base), candidates(keys, ev));
    lemma_chosen_keep(base, ev, chosen, chosen.len() as int, timed(keys, i));
}

/// Every event clip that fills a gap of the recording stands on the time line.
pub proof fn law_every_filler_is_on_the_line(keys: Seq<Key>, k: int)
    requires
        ({
            let n = keys.len() as int;
            0 <= k < gap_fill(times(recents(keys, n)), candidates(keys, events(keys, n))).len()
        }),
    ensures
        ({
            let n = keys.len() as int;
            let ev = events(keys, n);
            let chosen = gap_fill(times(recents(keys, n)), candidates(keys, ev));
            time_line(keys).contains(ev[chosen[k] as int])
        }),
{
    let n = keys.len() as int;
    let ev = events(keys, n);
    let chosen = gap_fill(times(recents(keys, n)), candidates(keys, ev));
    lemma_chosen_join(recents(keys, n), ev, chosen, chosen.len() as int, k);
}

/// Marks hang together where no step between them is longer than three minutes; a clip is
/// in reach of the recording where a clip next to it is at most half an hour away.
pub proof fn law_chains_have_short_steps(line: Seq<Mark>, a: int, b: int, recent: Seq<i64>, ts: i64)
    ensures
        linked(line, a, b) <==> !(exists|i: int|
            a <= i < b && span((#[trigger] line[i]).ts as int, line[i + 1].ts as int) > 180_000),
        in_reach(recent, ts) <==> exists|k: int|
            0 <= k < recent.len() && #[trigger] next_to(recent, k, ts) && (recent[k] < ts && span(
                recent[k] as int,
                ts as int,
            ) <= 1_800_000 || recent[k] >= ts && span(ts as int, recent[k] as int) <= 1_800_000),
{
    if in_reach(recent, ts) {
        let k = choose|k: int| #[trigger]
            next_to(recent, k, ts) && (if recent[k] < ts {
                span(recent[k] as int, ts as int)
            } else {
                span(ts as int, recent[k] as int)
            }) <= GAP_FILL_MAX_MS;
        assert(next_to(recent, k, ts));
    }
}

/// A kept candidate that hangs together with a continuous clip and is in its reach is
/// admitted; so is one whose chain is in gear throughout.
pub proof fn law_chained_candidates_are_admitted(recent: Seq<i64>, cands: Seq<Cand>, k: int, p: int, q: int)
    requires
        ({
            let kept = distinct_candidates(recent, cands);
            let line = merged_line(recent, cands, kept, kept.len() as int);
            &&& 0 <= k < kept.len()
            &&& 0 <= p < line.len()
            &&& 0 <= q < line.len()
            &&& line[p].kept == Some(k as usize)
            &&& line[q].kept is None
            &&& if p <= q {
                linked(line, p, q)
            } else {
                linked(line, q, p)
            }
            &&& in_reach(recent, line[p].ts)
        }),
    ensures
        gap_fill(recent, cands).contains(distinct_candidates(recent, cands)[k]),
{
    let kept = distinct_candidates(recent, cands);
    let line = merged_line(recent, cands, kept, kept.len() as int);
    assert(together(line, p, q));
    assert(anchored(line, p));
    assert(chained(recent, cands, kept, line, p));
    assert(admitted(recent, cands, kept, k));
    lemma_admitted_is_listed(recent, cands, kept, kept.len() as int, k);
}

} // verus!
