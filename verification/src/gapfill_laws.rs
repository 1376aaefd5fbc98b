//! What holds of gap filling before and after telemetry is read.

use crate::clock::{
    in_leap_second, is_clip_time, law_no_time_passes, law_spans_add_up, law_spans_are_steady, span,
    steady,
};
use crate::gapfill::{
    Cand, GAP_FILL_ADJ_MS, GAP_FILL_DUP_MS, GAP_FILL_MAX_MS, Mark, admitted, admitted_of, anchored,
    chained, distinct_candidates, earlier, eligible, gap_fill, hole_at, holes, in_reach, inside,
    law_parked_clips_stay_out, lemma_admitted_subset, lemma_kept_len, linked, marked, merged_line,
    next_to, ordered, placed, positions, recent_line, thinned, together, unseen,
};
use crate::text::{lemma_text_order, lemma_text_order_chains, text_before};
use vstd::prelude::*;

verus! {

// ---------------------------------------------------------------------------
// The merged time line
// ---------------------------------------------------------------------------

/// The marks are ascending in time.
spec fn in_order(line: Seq<Mark>) -> bool {
    forall|i: int, j: int| 0 <= i <= j < line.len() ==> (#[trigger] line[i]).ts <= (#[trigger] line[j]).ts
}

proof fn lemma_marked(line: Seq<Mark>, x: Mark)
    requires
        in_order(line),
    ensures
        in_order(marked(line, x)),
        marked(line, x).len() == line.len() + 1,
        forall|y: Mark| #[trigger] marked(line, x).contains(y) <==> line.contains(y) || y == x,
        line.len() > 0 ==> marked(line, x).last().ts == if line.last().ts <= x.ts {
            x.ts
        } else {
            line.last().ts
        },
    decreases line.len(),
{
    let r = marked(line, x);
    if line.len() == 0 || line.last().ts <= x.ts {
        assert forall|i: int, j: int| 0 <= i <= j < r.len() implies (#[trigger] r[i]).ts <= (
        #[trigger] r[j]).ts by {
            if j == line.len() && i < j {
                assert(line[i].ts <= line[line.len() - 1].ts);
            }
        }
        assert forall|y: Mark| #[trigger] r.contains(y) <==> line.contains(y) || y == x by {
            if line.contains(y) {
                let i = choose|i: int| 0 <= i < line.len() && line[i] == y;
                assert(r[i] == y);
            }
            if y == x {
                assert(r[line.len() as int] == y);
            }
        }
    } else {
        let head = line.drop_last();
        assert forall|i: int, j: int| 0 <= i <= j < head.len() implies (#[trigger] head[i]).ts <= (
        #[trigger] head[j]).ts by {
            assert(head[i] == line[i] && head[j] == line[j]);
        }
        lemma_marked(head, x);
        let t = marked(head, x);
        if head.len() > 0 {
            assert(head.last() == line[line.len() - 2]);
        }
        assert(t.last().ts <= line.last().ts);
        assert forall|i: int, j: int| 0 <= i <= j < r.len() implies (#[trigger] r[i]).ts <= (
        #[trigger] r[j]).ts by {
            if i < t.len() {
                assert(r[i] == t[i]);
                assert(t[i].ts <= t[t.len() - 1].ts);
            }
            if j < t.len() {
                assert(r[j] == t[j]);
            }
        }
        assert forall|y: Mark| #[trigger] r.contains(y) <==> line.contains(y) || y == x by {
            if r.contains(y) {
                let i = choose|i: int| 0 <= i < r.len() && r[i] == y;
                if i < t.len() {
                    assert(t[i] == y);
                    assert(t.contains(y));
                    if head.contains(y) {
                        let k = choose|k: int| 0 <= k < head.len() && head[k] == y;
                        assert(line[k] == y);
                    }
                } else {
                    assert(line[line.len() - 1] == y);
                }
            }
            if line.contains(y) {
                let i = choose|i: int| 0 <= i < line.len() && line[i] == y;
                if i < head.len() {
                    assert(head[i] == y);
                    assert(head.contains(y));
                    assert(t.contains(y));
                    let k = choose|k: int| 0 <= k < t.len() && t[k] == y;
                    assert(r[k] == y);
                } else {
                    assert(r[r.len() - 1] == y);
                }
            }
            if y == x {
                assert(t.contains(x));
                let k = choose|k: int| 0 <= k < t.len() && t[k] == x;
                assert(r[k] == x);
            }
        }
    }
}

proof fn lemma_recent_line(recent: Seq<i64>, n: int)
    requires
        0 <= n <= recent.len(),
    ensures
        in_order(recent_line(recent, n)),
        forall|y: Mark| #[trigger]
            recent_line(recent, n).contains(y) <==> y.kept is None && recent.take(n).contains(y.ts),
    decreases n,
{
    if n > 0 {
        lemma_recent_line(recent, n - 1);
        let x = Mark { ts: recent[n - 1], kept: None };
        lemma_marked(recent_line(recent, n - 1), x);
        assert forall|y: Mark| #[trigger]
            recent_line(recent, n).contains(y) <==> y.kept is None && recent.take(n).contains(y.ts) by {
            let a = recent.take(n - 1);
            let b = recent.take(n);
            assert(b =~= a.push(recent[n - 1]));
            if a.contains(y.ts) {
                let i = choose|i: int| 0 <= i < a.len() && a[i] == y.ts;
                assert(b[i] == y.ts);
            }
            if b.contains(y.ts) {
                let i = choose|i: int| 0 <= i < b.len() && b[i] == y.ts;
                if i < a.len() {
                    assert(a[i] == y.ts);
                }
            }
            assert(b[n - 1] == recent[n - 1]);
        }
    }
}

/// The mark of kept candidate `k`.
spec fn mark_of(cands: Seq<Cand>, kept: Seq<usize>, k: int) -> Mark {
    Mark { ts: cands[kept[k] as int].ts, kept: Some(k as usize) }
}

proof fn lemma_merged_line(recent: Seq<i64>, cands: Seq<Cand>, kept: Seq<usize>, n: int)
    requires
        0 <= n <= kept.len() <= usize::MAX,
    ensures
        in_order(merged_line(recent, cands, kept, n)),
        forall|y: Mark| #[trigger]
            merged_line(recent, cands, kept, n).contains(y) <==> (y.kept is None && recent.contains(
                y.ts,
            )) || (y.kept is Some && y.kept->0 < n && y == mark_of(cands, kept, y.kept->0 as int)),
    decreases n,
{
    if n <= 0 {
        lemma_recent_line(recent, recent.len() as int);
        assert(recent.take(recent.len() as int) =~= recent);
    } else {
        lemma_merged_line(recent, cands, kept, n - 1);
        lemma_marked(merged_line(recent, cands, kept, n - 1), mark_of(cands, kept, n - 1));
    }
}

// ---------------------------------------------------------------------------
// Near the recording
// ---------------------------------------------------------------------------

proof fn lemma_holes_are_in_reach(recent: Seq<i64>, n: int, ts: i64)
    requires
        0 <= n <= recent.len(),
        inside(holes(recent, n), ts),
    ensures
        in_reach(recent, ts),
    decreases n,
{
    let hs = holes(recent, n);
    let k = choose|k: int| 0 <= k < hs.len() && (#[trigger] hs[k]).0 < ts < hs[k].1;
    if n > 1 {
        if hole_at(recent, n - 2) && k == hs.len() - 1 {
            assert(next_to(recent, n - 2, ts));
            assert(next_to(recent, n - 1, ts));
            let (a, b, d) = (recent[n - 2] as int, recent[n - 1] as int, GAP_FILL_MAX_MS as int);
            if span(a, ts as int) > d && span(ts as int, b) > d {
                law_spans_add_up(a, ts as int, b, d);
            }
        } else {
            assert(holes(recent, n - 1)[k] == hs[k]);
            lemma_holes_are_in_reach(recent, n - 1, ts);
        }
    }
}

/// A clip far from all continuous recording is admitted only where its telemetry
/// shows the car in gear.
pub proof fn law_far_clips_are_in_gear(recent: Seq<i64>, cands: Seq<Cand>, i: int)
    requires
        cands.len() <= usize::MAX,
        0 <= i < gap_fill(recent, cands).len(),
    ensures
        in_reach(recent, cands[gap_fill(recent, cands)[i] as int].ts)
            || cands[gap_fill(recent, cands)[i] as int].gear_driving,
{
    let kept = distinct_candidates(recent, cands);
    let n = kept.len() as int;
    lemma_kept_len(recent, cands);
    let at = lemma_admitted_subset(recent, cands, kept, n);
    let k = at[i];
    let ts = cands[kept[k] as int].ts;
    assert(admitted(recent, cands, kept, k));
    if inside(holes(recent, recent.len() as int), ts) {
        lemma_holes_are_in_reach(recent, recent.len() as int, ts);
    } else {
        let line = merged_line(recent, cands, kept, n);
        lemma_merged_line(recent, cands, kept, n);
        let p = choose|p: int|
            0 <= p < line.len() && (#[trigger] line[p]).kept == Some(k as usize) && chained(
                recent,
                cands,
                kept,
                line,
                p,
            );
        assert(line.contains(line[p]));
        assert(line[p] == mark_of(cands, kept, k));
        assert(together(line, p, p));
    }
}

/// Before telemetry is read, only clips near the continuous recording are picked.
pub proof fn law_scan_stays_near(recent: Seq<i64>, clips: Seq<(i64, &str)>, i: int)
    requires
        clips.len() <= usize::MAX,
        0 <= i < gap_fill(recent, unseen(clips)).len(),
    ensures
        0 <= gap_fill(recent, unseen(clips))[i] < clips.len(),
        in_reach(recent, clips[gap_fill(recent, unseen(clips))[i] as int].0),
{
    law_parked_clips_stay_out(recent, unseen(clips), i);
    law_far_clips_are_in_gear(recent, unseen(clips), i);
}

// ---------------------------------------------------------------------------
// Before and after
// ---------------------------------------------------------------------------

/// The same candidates before their telemetry is read.
pub open spec fn blind(cands: Seq<Cand>) -> Seq<Cand> {
    Seq::new(
        cands.len(),
        |i: int|
            Cand { ts: cands[i].ts, file: cands[i].file, driving: None, gear_driving: false },
    )
}

/// The telemetry of candidate `i` shows the car parked throughout.
pub open spec fn is_parked(cands: Seq<Cand>, i: int) -> bool {
    cands[i].driving == Some(false)
}

/// Candidates that repeat each other agree on whether the car was parked.
pub open spec fn copies_agree(cands: Seq<Cand>) -> bool {
    forall|i: int, j: int|
        0 <= i < cands.len() && 0 <= j < cands.len() && #[trigger] cands[i].ts <= #[trigger] cands[j].ts
            && span(cands[i].ts as int, cands[j].ts as int) <= GAP_FILL_DUP_MS ==> is_parked(cands, i)
            == is_parked(cands, j)
}

/// No member comes strictly before an earlier one.
spec fn sorted(cands: Seq<Cand>, order: Seq<usize>) -> bool {
    forall|i: int, j: int|
        0 <= i < j < order.len() ==> !earlier(cands, #[trigger] order[j] as int, #[trigger] order[i] as int)
}

/// The members that are not parked.
spec fn moving(cands: Seq<Cand>, order: Seq<usize>) -> Seq<usize>
    decreases order.len(),
{
    if order.len() == 0 {
        Seq::empty()
    } else if is_parked(cands, order.last() as int) {
        moving(cands, order.drop_last())
    } else {
        moving(cands, order.drop_last()).push(order.last())
    }
}

proof fn lemma_earlier_chains(cands: Seq<Cand>, a: int, b: int, c: int)
    ensures
        !earlier(cands, a, b) && !earlier(cands, b, c) ==> !earlier(cands, a, c),
        !(earlier(cands, a, b) && earlier(cands, b, a)),
{
    let (x, y, z) = (cands[a].file, cands[b].file, cands[c].file);
    lemma_text_order(x, y);
    lemma_text_order(y, z);
    lemma_text_order(x, z);
    if text_before(x, z) && text_before(z, y) {
        lemma_text_order_chains(x, z, y);
    }
    if text_before(y, x) && text_before(x, z) {
        lemma_text_order_chains(y, x, z);
    }
}

proof fn lemma_moving_members(cands: Seq<Cand>, order: Seq<usize>)
    ensures
        moving(cands, order).len() <= order.len(),
        forall|x: usize| #[trigger]
            moving(cands, order).contains(x) <==> order.contains(x) && !is_parked(cands, x as int),
    decreases order.len(),
{
    if order.len() > 0 {
        let head = order.drop_last();
        lemma_moving_members(cands, head);
        let m = moving(cands, head);
        let r = moving(cands, order);
        assert forall|x: usize| #[trigger]
            r.contains(x) <==> order.contains(x) && !is_parked(cands, x as int) by {
            if r.contains(x) {
                let i = choose|i: int| 0 <= i < r.len() && r[i] == x;
                if i < m.len() {
                    assert(m[i] == x);
                    assert(m.contains(x));
                    let k = choose|k: int| 0 <= k < head.len() && head[k] == x;
                    assert(order[k] == x);
                } else {
                    assert(order[order.len() - 1] == x);
                }
            }
            if order.contains(x) && !is_parked(cands, x as int) {
                let i = choose|i: int| 0 <= i < order.len() && order[i] == x;
                if i < head.len() {
                    assert(head[i] == x);
                    assert(head.contains(x));
                    assert(m.contains(x));
                    let k = choose|k: int| 0 <= k < m.len() && m[k] == x;
                    assert(r[k] == x);
                } else {
                    assert(r[r.len() - 1] == x);
                }
            }
        }
    }
}

proof fn lemma_placed_sorted(cands: Seq<Cand>, order: Seq<usize>, x: usize)
    requires
        sorted(cands, order),
    ensures
        sorted(cands, placed(cands, order, x)),
        placed(cands, order, x).len() == order.len() + 1,
        forall|y: usize| #[trigger] placed(cands, order, x).contains(y) <==> order.contains(y) || y == x,
    decreases order.len(),
{
    let r = placed(cands, order, x);
    if order.len() == 0 || !earlier(cands, x as int, order.last() as int) {
        assert forall|i: int, j: int| 0 <= i < j < r.len() implies !earlier(
            cands,
            #[trigger] r[j] as int,
            #[trigger] r[i] as int,
        ) by {
            if j == order.len() && i < order.len() - 1 {
                assert(!earlier(cands, order[order.len() - 1] as int, order[i] as int));
                lemma_earlier_chains(cands, x as int, order.last() as int, order[i] as int);
            }
        }
        assert forall|y: usize| #[trigger] r.contains(y) <==> order.contains(y) || y == x by {
            if order.contains(y) {
                let i = choose|i: int| 0 <= i < order.len() && order[i] == y;
                assert(r[i] == y);
            }
            if y == x {
                assert(r[order.len() as int] == y);
            }
        }
    } else {
        let head = order.drop_last();
        let z = order.last();
        assert forall|i: int, j: int| 0 <= i < j < head.len() implies !earlier(
            cands,
            #[trigger] head[j] as int,
            #[trigger] head[i] as int,
        ) by {
            assert(head[i] == order[i] && head[j] == order[j]);
        }
        lemma_placed_sorted(cands, head, x);
        let t = placed(cands, head, x);
        assert forall|i: int, j: int| 0 <= i < j < r.len() implies !earlier(
            cands,
            #[trigger] r[j] as int,
            #[trigger] r[i] as int,
        ) by {
            if j < t.len() {
                assert(r[i] == t[i] && r[j] == t[j]);
            } else {
                assert(r[i] == t[i]);
                assert(t.contains(t[i]));
                if t[i] == x {
                    lemma_earlier_chains(cands, x as int, z as int, z as int);
                } else {
                    assert(head.contains(t[i]));
                    let k = choose|k: int| 0 <= k < head.len() && head[k] == t[i];
                    assert(order[k] == t[i] && order[order.len() - 1] == z);
                }
            }
        }
        assert forall|y: usize| #[trigger] r.contains(y) <==> order.contains(y) || y == x by {
            if r.contains(y) {
                let i = choose|i: int| 0 <= i < r.len() && r[i] == y;
                if i < t.len() {
                    assert(t[i] == y);
                    assert(t.contains(y));
                    if head.contains(y) {
                        let k = choose|k: int| 0 <= k < head.len() && head[k] == y;
                        assert(order[k] == y);
                    }
                } else {
                    assert(order[order.len() - 1] == y);
                }
            }
            if order.contains(y) {
                let i = choose|i: int| 0 <= i < order.len() && order[i] == y;
                if i < head.len() {
                    assert(head[i] == y);
                    assert(head.contains(y));
                    assert(t.contains(y));
                    let k = choose|k: int| 0 <= k < t.len() && t[k] == y;
                    assert(r[k] == y);
                } else {
                    assert(r[r.len() - 1] == y);
                }
            }
            if y == x {
                assert(t.contains(x));
                let k = choose|k: int| 0 <= k < t.len() && t[k] == x;
                assert(r[k] == x);
            }
        }
    }
}

proof fn lemma_moving_placed(cands: Seq<Cand>, order: Seq<usize>, x: usize)
    requires
        sorted(cands, order),
    ensures
        moving(cands, placed(cands, order, x)) == if is_parked(cands, x as int) {
            moving(cands, order)
        } else {
            placed(cands, moving(cands, order), x)
        },
    decreases order.len(),
{
    let r = placed(cands, order, x);
    if order.len() == 0 || !earlier(cands, x as int, order.last() as int) {
        assert(r.drop_last() =~= order);
        let m = moving(cands, order);
        if !is_parked(cands, x as int) && m.len() > 0 {
            lemma_moving_members(cands, order);
            assert(m.contains(m.last()));
            let i = choose|i: int| 0 <= i < order.len() && order[i] == m.last();
            if i < order.len() - 1 {
                assert(!earlier(cands, order[order.len() - 1] as int, order[i] as int));
                lemma_earlier_chains(cands, x as int, order.last() as int, m.last() as int);
            }
        }
    } else {
        let head = order.drop_last();
        assert forall|i: int, j: int| 0 <= i < j < head.len() implies !earlier(
            cands,
            #[trigger] head[j] as int,
            #[trigger] head[i] as int,
        ) by {
            assert(head[i] == order[i] && head[j] == order[j]);
        }
        lemma_moving_placed(cands, head, x);
        assert(r.drop_last() =~= placed(cands, head, x));
        let m = moving(cands, order);
        if !is_parked(cands, order.last() as int) {
            assert(m.drop_last() =~= moving(cands, head));
        }
    }
}

proof fn lemma_placed_blind(cands: Seq<Cand>, order: Seq<usize>, x: usize)
    requires
        x < cands.len(),
        positions(order, cands.len() as int),
    ensures
        placed(blind(cands), order, x) == placed(cands, order, x),
    decreases order.len(),
{
    if order.len() > 0 {
        assert(order[order.len() - 1] < cands.len());
        assert forall|i: int| 0 <= i < order.drop_last().len() implies 0 <= #[trigger] order.drop_last()[i]
            < cands.len() by {
            assert(order.drop_last()[i] == order[i]);
        }
        lemma_placed_blind(cands, order.drop_last(), x);
    }
}

proof fn lemma_ordered_moving(recent: Seq<i64>, cands: Seq<Cand>, n: int)
    requires
        0 <= n <= cands.len(),
        cands.len() <= usize::MAX,
    ensures
        sorted(cands, ordered(recent, blind(cands), n)),
        positions(ordered(recent, blind(cands), n), cands.len() as int),
        ordered(recent, cands, n) == moving(cands, ordered(recent, blind(cands), n)),
    decreases n,
{
    if n > 0 {
        lemma_ordered_moving(recent, cands, n - 1);
        let all = ordered(recent, blind(cands), n - 1);
        let x = (n - 1) as usize;
        if eligible(recent, blind(cands), n - 1) {
            lemma_placed_blind(cands, all, x);
            lemma_placed_sorted(cands, all, x);
            lemma_moving_placed(cands, all, x);
            let r = placed(cands, all, x);
            assert forall|i: int| 0 <= i < r.len() implies 0 <= #[trigger] r[i] < cands.len() by {
                assert(r.contains(r[i]));
                if r[i] != x {
                    let k = choose|k: int| 0 <= k < all.len() && all[k] == r[i];
                    assert(all[k] < cands.len());
                }
            }
        }
    }
}

proof fn lemma_thinned_times(cands: Seq<Cand>, order: Seq<usize>)
    requires
        sorted(cands, order),
    ensures
        thinned(cands, order).len() <= order.len(),
        forall|x: usize| #[trigger] thinned(cands, order).contains(x) ==> order.contains(x),
        forall|i: int|
            0 <= i < thinned(cands, order).len() ==> cands[#[trigger] thinned(cands, order)[i] as int].ts
                <= cands[order.last() as int].ts,
        forall|i: int, j: int|
            0 <= i <= j < thinned(cands, order).len() ==> cands[#[trigger] thinned(
                cands,
                order,
            )[i] as int].ts <= cands[#[trigger] thinned(cands, order)[j] as int].ts,
    decreases order.len(),
{
    if order.len() > 0 {
        let head = order.drop_last();
        assert forall|i: int, j: int| 0 <= i < j < head.len() implies !earlier(
            cands,
            #[trigger] head[j] as int,
            #[trigger] head[i] as int,
        ) by {
            assert(head[i] == order[i] && head[j] == order[j]);
        }
        lemma_thinned_times(cands, head);
        let k = thinned(cands, head);
        let r = thinned(cands, order);
        if head.len() > 0 {
            assert(head.last() == order[order.len() - 2]);
            assert(!earlier(
                cands,
                order[order.len() - 1] as int,
                order[order.len() - 2] as int,
            ));
        }
        assert forall|x: usize| #[trigger] r.contains(x) implies order.contains(x) by {
            let i = choose|i: int| 0 <= i < r.len() && r[i] == x;
            if i < k.len() {
                assert(k[i] == x);
                assert(k.contains(x));
                let j = choose|j: int| 0 <= j < head.len() && head[j] == x;
                assert(order[j] == x);
            } else {
                assert(order[order.len() - 1] == x);
            }
        }
        assert forall|i: int| 0 <= i < r.len() implies cands[#[trigger] r[i] as int].ts <= cands[order.last() as int].ts by {
            if i < k.len() {
                assert(r[i] == k[i]);
            }
        }
        assert forall|i: int, j: int| 0 <= i <= j < r.len() implies cands[#[trigger] r[i] as int].ts
            <= cands[#[trigger] r[j] as int].ts by {
            if j < k.len() {
                assert(r[i] == k[i] && r[j] == k[j]);
            }
        }
    }
}

proof fn lemma_thinned_moving(cands: Seq<Cand>, order: Seq<usize>)
    requires
        sorted(cands, order),
        positions(order, cands.len() as int),
        copies_agree(cands),
    ensures
        thinned(cands, moving(cands, order)) == moving(cands, thinned(cands, order)),
    decreases order.len(),
{
    if order.len() > 0 {
        let head = order.drop_last();
        let x = order.last();
        assert forall|i: int, j: int| 0 <= i < j < head.len() implies !earlier(
            cands,
            #[trigger] head[j] as int,
            #[trigger] head[i] as int,
        ) by {
            assert(head[i] == order[i] && head[j] == order[j]);
        }
        assert forall|i: int| 0 <= i < head.len() implies 0 <= #[trigger] head[i] < cands.len() by {
            assert(head[i] == order[i]);
        }
        assert(order[order.len() - 1] < cands.len());
        lemma_thinned_moving(cands, head);
        lemma_thinned_times(cands, head);
        let k = thinned(cands, head);
        let m = moving(cands, k);
        lemma_moving_members(cands, k);
        assert(k.push(x).drop_last() =~= k);
        if head.len() > 0 {
            assert(head.last() == order[order.len() - 2]);
            assert(!earlier(
                cands,
                order[order.len() - 1] as int,
                order[order.len() - 2] as int,
            ));
        }
        if !is_parked(cands, x as int) {
            let mh = moving(cands, head);
            assert(moving(cands, order) == mh.push(x));
            assert(mh.push(x).drop_last() =~= mh);
            if k.len() > 0 {
                let l = k.last();
                assert(l == k[k.len() - 1]);
                assert(k.contains(l));
                assert(head.contains(l));
                let j = choose|j: int| 0 <= j < head.len() && head[j] == l;
                assert(l < cands.len());
                assert(cands[l as int].ts <= cands[x as int].ts);
                if span(cands[l as int].ts as int, cands[x as int].ts as int) <= GAP_FILL_DUP_MS {
                    assert(!is_parked(cands, l as int));
                    assert(m.last() == l);
                } else if m.len() > 0 {
                    assert(m.contains(m.last()));
                    assert(k.contains(m.last()));
                    let i = choose|i: int| 0 <= i < k.len() && k[i] == m.last();
                    assert(cands[k[i] as int].ts <= cands[k[k.len() - 1] as int].ts);
                    assert(k[i] < cands.len());
                    if k[i] != l {
                        assert(m.last() != l);
                        assert(is_parked(cands, l as int) && !is_parked(cands, k[i] as int));
                        law_spans_add_up(
                            cands[k[i] as int].ts as int,
                            cands[l as int].ts as int,
                            cands[x as int].ts as int,
                            GAP_FILL_DUP_MS as int,
                        );
                    }
                }
            } else {
                assert(m.len() == 0);
            }
        }
    }
}

proof fn lemma_kept_before_and_after(recent: Seq<i64>, cands: Seq<Cand>)
    requires
        cands.len() <= usize::MAX,
        copies_agree(cands),
    ensures
        distinct_candidates(recent, cands) == moving(
            cands,
            distinct_candidates(recent, blind(cands)),
        ),
        positions(distinct_candidates(recent, blind(cands)), cands.len() as int),
{
    let n = cands.len() as int;
    lemma_ordered_moving(recent, cands, n);
    let all = ordered(recent, blind(cands), n);
    lemma_thinned_moving(cands, all);
    lemma_thinned_blind(cands, all);
    lemma_thinned_times(cands, all);
    let r = thinned(cands, all);
    assert forall|i: int| 0 <= i < r.len() implies 0 <= #[trigger] r[i] < cands.len() by {
        assert(r.contains(r[i]));
        let k = choose|k: int| 0 <= k < all.len() && all[k] == r[i];
        assert(all[k] < cands.len());
    }
}

proof fn lemma_thinned_blind(cands: Seq<Cand>, order: Seq<usize>)
    requires
        positions(order, cands.len() as int),
    ensures
        thinned(blind(cands), order) == thinned(cands, order),
        positions(thinned(cands, order), cands.len() as int),
    decreases order.len(),
{
    if order.len() > 0 {
        let head = order.drop_last();
        assert forall|i: int| 0 <= i < head.len() implies 0 <= #[trigger] head[i] < cands.len() by {
            assert(head[i] == order[i]);
        }
        assert(order[order.len() - 1] < cands.len());
        lemma_thinned_blind(cands, head);
        let k = thinned(cands, head);
        if k.len() > 0 {
            assert(k[k.len() - 1] < cands.len());
        }
    }
}

/// `t` is the time of a continuous clip or of a candidate.
#[verifier::opaque]
pub open spec fn is_time_of(recent: Seq<i64>, cands: Seq<Cand>, t: i64) -> bool {
    recent.contains(t) || exists|i: int| 0 <= i < cands.len() && (#[trigger] cands[i]).ts == t
}

/// No span between two of the clips is longer than one around it.
#[verifier::opaque]
pub open spec fn times_steady(recent: Seq<i64>, cands: Seq<Cand>) -> bool {
    forall|a: i64, b: i64, c: i64|
        is_time_of(recent, cands, a) && is_time_of(recent, cands, b) && is_time_of(recent, cands, c)
            ==> #[trigger] steady(a as int, b as int, c as int)
}

/// Clips named by their times are steady, as long as no two are of different leap
/// seconds.
pub proof fn law_named_clips_are_steady(recent: Seq<i64>, cands: Seq<Cand>)
    requires
        forall|t: i64| #[trigger] is_time_of(recent, cands, t) ==> is_clip_time(t as int),
        forall|a: i64, b: i64| #[trigger]
            is_time_of(recent, cands, a) && #[trigger] is_time_of(recent, cands, b)
                && in_leap_second(a as int) && in_leap_second(b as int) ==> a == b,
    ensures
        times_steady(recent, cands),
{
    reveal(times_steady);
    assert forall|a: i64, b: i64, c: i64|
        is_time_of(recent, cands, a) && is_time_of(recent, cands, b) && is_time_of(recent, cands, c)
        implies #[trigger] steady(a as int, b as int, c as int) by {
        law_spans_are_steady(a as int, b as int, c as int);
    }
}

/// The marks are of clips.
spec fn marks_of(line: Seq<Mark>, recent: Seq<i64>, cands: Seq<Cand>) -> bool {
    forall|i: int| 0 <= i < line.len() ==> is_time_of(recent, cands, (#[trigger] line[i]).ts)
}

/// Somewhere between mark `p` and mark `q` a line steps over `a..b`.
proof fn lemma_line_crosses(
    recent: Seq<i64>,
    cands: Seq<Cand>,
    line: Seq<Mark>,
    p: int,
    q: int,
    a: i64,
    b: i64,
)
    requires
        times_steady(recent, cands),
        marks_of(line, recent, cands),
        is_time_of(recent, cands, a),
        is_time_of(recent, cands, b),
        0 <= p <= q < line.len(),
        line[p].ts <= a < b <= line[q].ts,
        forall|i: int| 0 <= i < line.len() ==> (#[trigger] line[i]).ts <= a || line[i].ts >= b,
        span(a as int, b as int) > GAP_FILL_ADJ_MS,
    ensures
        !linked(line, p, q),
    decreases q - p,
{
    if line[q - 1].ts <= a {
        let (l, r) = (line[q - 1].ts, line[q].ts);
        reveal(times_steady);
        assert(steady(l as int, a as int, b as int));
        assert(steady(l as int, b as int, r as int));
        assert(span(line[q - 1].ts as int, line[q - 1 + 1].ts as int) > GAP_FILL_ADJ_MS);
    } else {
        lemma_line_crosses(recent, cands, line, p, q - 1, a, b);
        let i = choose|i: int|
            p <= i < q - 1 && span((#[trigger] line[i]).ts as int, line[i + 1].ts as int)
                > GAP_FILL_ADJ_MS;
        assert(p <= i < q);
    }
}

/// Marks that hang together still do so when more marks are put in.
proof fn lemma_chain_carries(
    recent: Seq<i64>,
    cands: Seq<Cand>,
    line: Seq<Mark>,
    more: Seq<Mark>,
    p: int,
    q: int,
    u: int,
    v: int,
)
    requires
        times_steady(recent, cands),
        marks_of(line, recent, cands),
        marks_of(more, recent, cands),
        in_order(line),
        in_order(more),
        forall|i: int|
            0 <= i < line.len() ==> exists|j: int|
                0 <= j < more.len() && (#[trigger] more[j]).ts == (#[trigger] line[i]).ts,
        0 <= p < line.len(),
        0 <= q < line.len(),
        0 <= u < more.len(),
        0 <= v < more.len(),
        line[p].ts == more[u].ts,
        line[q].ts == more[v].ts,
        together(line, p, q),
    ensures
        together(more, u, v),
{
    let lo = if u <= v {
        u
    } else {
        v
    };
    let hi = if u <= v {
        v
    } else {
        u
    };
    assert forall|j: int| lo <= j < hi implies span((#[trigger] more[j]).ts as int, more[j + 1].ts as int)
        <= GAP_FILL_ADJ_MS by {
        let a = more[j].ts;
        let b = more[j + 1].ts;
        if span(a as int, b as int) > GAP_FILL_ADJ_MS {
            law_no_time_passes(a as int);
            assert(a <= b && a != b);
            assert(more[lo].ts <= a && b <= more[hi].ts);
            assert forall|i: int| 0 <= i < line.len() implies (#[trigger] line[i]).ts <= a
                || line[i].ts >= b by {
                let k = choose|k: int|
                    0 <= k < more.len() && (#[trigger] more[k]).ts == line[i].ts;
                if k <= j {
                    assert(more[k].ts <= more[j].ts);
                } else {
                    assert(more[j + 1].ts <= more[k].ts);
                }
            }
            if line[p].ts <= a {
                if p > q {
                    assert(line[q].ts <= line[p].ts);
                }
                lemma_line_crosses(recent, cands, line, p, q, a, b);
            } else {
                if q > p {
                    assert(line[p].ts <= line[q].ts);
                }
                lemma_line_crosses(recent, cands, line, q, p, a, b);
            }
        }
    }
}

proof fn lemma_admitted_listed(
    recent: Seq<i64>,
    cands: Seq<Cand>,
    kept: Seq<usize>,
    n: int,
    k: int,
)
    requires
        0 <= k < n <= kept.len(),
        admitted(recent, cands, kept, k),
    ensures
        admitted_of(recent, cands, kept, n).contains(kept[k]),
    decreases n,
{
    let r = admitted_of(recent, cands, kept, n);
    if k == n - 1 {
        assert(r[r.len() - 1] == kept[k]);
    } else {
        lemma_admitted_listed(recent, cands, kept, n - 1, k);
        let b = admitted_of(recent, cands, kept, n - 1);
        let i = choose|i: int| 0 <= i < b.len() && b[i] == kept[k];
        assert(r[i] == kept[k]);
    }
}

/// What telemetry would admit, the scan before it picks already, but for clips in
/// gear far from all recording. Where two copies of a segment disagree on whether
/// the car was parked, the scan may have picked the other copy; where spans are
/// not steady, a clip between two others may cut them off from each other.
pub proof fn law_scan_misses_no_filler(recent: Seq<i64>, cands: Seq<Cand>, i: int)
    requires
        cands.len() <= usize::MAX,
        times_steady(recent, cands),
        copies_agree(cands),
        0 <= i < gap_fill(recent, cands).len(),
    ensures
        gap_fill(recent, blind(cands)).contains(gap_fill(recent, cands)[i])
            || cands[gap_fill(recent, cands)[i] as int].gear_driving,
{
    let all = blind(cands);
    let kept = distinct_candidates(recent, cands);
    let more = distinct_candidates(recent, all);
    lemma_kept_before_and_after(recent, cands);
    lemma_kept_len(recent, cands);
    lemma_kept_len(recent, all);
    lemma_moving_members(cands, more);
    let at = lemma_admitted_subset(recent, cands, kept, kept.len() as int);
    let k = at[i];
    let x = kept[k];
    assert(kept.contains(x));
    assert(more.contains(x));
    let u = choose|u: int| 0 <= u < more.len() && more[u] == x;
    assert(x < cands.len());
    assert(all[x as int].ts == cands[x as int].ts);
    assert(admitted(recent, cands, kept, k));
    if !inside(holes(recent, recent.len() as int), cands[x as int].ts) {
        let line = merged_line(recent, cands, kept, kept.len() as int);
        let wide = merged_line(recent, all, more, more.len() as int);
        lemma_merged_line(recent, cands, kept, kept.len() as int);
        lemma_merged_line(recent, all, more, more.len() as int);
        let p = choose|p: int|
            0 <= p < line.len() && (#[trigger] line[p]).kept == Some(k as usize) && chained(
                recent,
                cands,
                kept,
                line,
                p,
            );
        assert(line.contains(line[p]));
        assert(line[p] == mark_of(cands, kept, k));
        if anchored(line, p) {
            let q = choose|q: int|
                0 <= q < line.len() && (#[trigger] line[q]).kept is None && together(line, p, q);
            assert(line.contains(line[q]));
            assert(wide.contains(line[q]));
            let v = choose|v: int| 0 <= v < wide.len() && wide[v] == line[q];
            let mine = mark_of(all, more, u);
            assert(wide.contains(mine));
            let w = choose|w: int| 0 <= w < wide.len() && wide[w] == mine;
            assert forall|j: int| 0 <= j < line.len() implies exists|l: int|
                0 <= l < wide.len() && (#[trigger] wide[l]).ts == (#[trigger] line[j]).ts by {
                assert(line.contains(line[j]));
                if line[j].kept is None {
                    assert(wide.contains(line[j]));
                    let l = choose|l: int| 0 <= l < wide.len() && wide[l] == line[j];
                    assert(wide[l].ts == line[j].ts);
                } else {
                    let y = kept[line[j].kept->0 as int];
                    assert(kept.contains(y));
                    assert(more.contains(y));
                    let o = choose|o: int| 0 <= o < more.len() && more[o] == y;
                    assert(y < cands.len());
                    assert(wide.contains(mark_of(all, more, o)));
                    let l = choose|l: int| 0 <= l < wide.len() && wide[l] == mark_of(all, more, o);
                    assert(wide[l].ts == line[j].ts);
                }
            }
            assert forall|j: int| 0 <= j < line.len() implies is_time_of(
                recent,
                cands,
                (#[trigger] line[j]).ts,
            ) by {
                reveal(is_time_of);
                assert(line.contains(line[j]));
                if line[j].kept is Some {
                    let y = kept[line[j].kept->0 as int];
                    assert(kept.contains(y));
                    assert(more.contains(y));
                    assert(y < cands.len());
                    assert(cands[y as int].ts == line[j].ts);
                }
            }
            assert forall|j: int| 0 <= j < wide.len() implies is_time_of(
                recent,
                cands,
                (#[trigger] wide[j]).ts,
            ) by {
                reveal(is_time_of);
                assert(wide.contains(wide[j]));
                if wide[j].kept is Some {
                    let y = more[wide[j].kept->0 as int];
                    assert(y < cands.len());
                    assert(cands[y as int].ts == wide[j].ts);
                }
            }
            lemma_chain_carries(recent, cands, line, wide, p, q, w, v);
            assert(anchored(wide, w));
            assert(wide[w].kept == Some(u as usize));
            assert(admitted(recent, all, more, u));
            lemma_admitted_listed(recent, all, more, more.len() as int, u);
        } else {
            assert(together(line, p, p));
        }
    } else {
        assert(admitted(recent, all, more, u));
        lemma_admitted_listed(recent, all, more, more.len() as int, u);
    }
}

} // verus!
