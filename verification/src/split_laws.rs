//! Where clips are cut, and which members go together.

use crate::aggregate::{frames_before, sat_mul};
use crate::calc::{PARK_MAJORITY_FRACTION, lit};
use crate::clock::{is_clip_time, lemma_shifted_fits, shifted};
use crate::extract_laws::lemma_park_count;
use crate::float::{
    HALF64, fdiv, flt, fmul, from_int, fround, lemma_magnitude_split, to_int, whole_part,
};
use crate::grouper::{
    Piece, all_by_signature, any_gear_runs, any_gear_states, clip_tokens, drives, drives_of,
    gear_split, gear_tokens, keys_of_routes, legacy_tokens, member_of_some, mostly_parked,
    planned_token, route_signatures, whole_piece, wholes,
};
use crate::nearness::{
    grain, lemma_near_int, lemma_near_product, lemma_near_quotient, lemma_rounded_near,
    lemma_within_int, lemma_within_more, lemma_within_product, near,
};
use crate::rounding::{
    holds_units, lemma_from_int_exact, lemma_one, lemma_order, lemma_quotient,
    lemma_scaled_is_value, one, size_of,
};
use crate::row_laws::lemma_within_quotient;
use crate::split::{
    FrameSeg, Sourced, Token, all_parked, any_parked, any_signed, bucket_of, buckets, by_signature,
    clip_plan, clip_segs, closed_runs, frame_seconds, frame_segs, frame_share, frames_fit,
    law_segments_tile_the_clip, lemma_frames_nonnegative, open_run, park_gap, planned, planned_all,
    runs_of, signature, unsigned,
};
use crate::subclips::{
    SubClipSummary, all_sub_tokens, any_summary_runs, keys_of_summaries, legacy_sub_tokens,
    sub_drives, sub_drives_of, sub_of_seg, sub_split, sub_tokens, summary_signatures, whole_sub,
    whole_subs,
};
use crate::timeline::{Timed, stretches, time_line};
use crate::types::{GEAR_PARK, GearRun, Route, RouteSummary};
use vstd::prelude::*;

verus! {

// ---------------------------------------------------------------------------
// Park inside a clip
// ---------------------------------------------------------------------------

/// A run in Park cuts its clip from two seconds of the minute on: a thirtieth of the
/// frames. Just there it depends on rounding.
pub proof fn law_two_seconds_of_park_cut(run: GearRun, total: int)
    requires
        1 <= total <= u32::MAX,
        30 * run.frames != total,
    ensures
        park_gap(run, total) <==> run.gear == GEAR_PARK && 30 * run.frames > total,
{
    let f = run.frames as nat;
    let t = total as nat;
    let u = one();
    let g = grain();
    lemma_one();
    lemma_near_int(60);
    lemma_near_int(t);
    lemma_near_int(f);
    lemma_near_int(2);
    lemma_within_int(60);
    lemma_within_int(t);
    lemma_within_int(f);
    lemma_within_more(60, 1, 32, 400);
    lemma_within_more(t, 1, 32, 400);
    lemma_within_more(f, 1, 32, 400);
    assert(0nat * 0 == 0 && 0nat * 2 == 0);
    lemma_near_quotient(from_int(60), from_int(t as int), 60, 1, t, 1, 0, 0, 400);
    let per = frame_seconds(total);
    assert(60nat * 1 == 60 && 1 * t == t);
    lemma_within_quotient(60, t);
    lemma_within_more(60, t, 64, 400);
    lemma_near_product(from_int(f as int), per, f, 1, 60, t, 0, 2, 400);
    let x = fmul(from_int(f as int), per);
    let s = size_of(x);
    assert(1 * t == t);
    let m = (f * 60) * u;
    assert(g * (s * t) <= (g + 8) * m && g * m <= g * (s * t) + 8 * m);
    lemma_from_int_exact(2);
    lemma_order(x, from_int(2));
    if 30 * f > t {
        assert(s >= 2 * u) by (nonlinear_arith)
            requires
                g * m <= g * (s * t) + 8 * m,
                m == (f * 60) * u,
                30 * f >= t + 1,
                1 <= t <= 0xFFFF_FFFF,
                g == 0x20_0000_0000_0000,
                u > 0,
        ;
    } else {
        assert(s < 2 * u) by (nonlinear_arith)
            requires
                g * (s * t) <= (g + 8) * m,
                m == (f * 60) * u,
                30 * f + 1 <= t,
                1 <= t <= 0xFFFF_FFFF,
                g == 0x20_0000_0000_0000,
                u > 0,
        ;
    }
}

/// Stretch `i` covers run `k` and is parked where the run is a Park gap.
pub open spec fn stretch_covers(segs: Seq<FrameSeg>, runs: Seq<GearRun>, total: int, i: int, k: int) -> bool {
    &&& 0 <= i < segs.len()
    &&& segs[i].start <= frames_before(runs, k)
    &&& frames_before(runs, k) + runs[k].frames <= segs[i].end
    &&& segs[i].parked == park_gap(runs[k], total)
}

/// Every run of a clip lies in a stretch, a Park gap in a parked one that holds nothing
/// else, any other in one that is not parked.
pub proof fn law_stretches_follow_the_runs(runs: Seq<GearRun>, total: int, n: int, k: int)
    requires
        0 <= k < n <= runs.len(),
        frames_before(runs, runs.len() as int) <= u32::MAX,
    ensures
        exists|i: int| stretch_covers(frame_segs(runs, total, n), runs, total, i, k),
        park_gap(runs[k], total) ==> exists|i: int|
            0 <= i < frame_segs(runs, total, n).len() && (#[trigger] frame_segs(runs, total, n)[i])
                == (FrameSeg {
                start: frames_before(runs, k) as u32,
                end: frames_before(runs, k + 1) as u32,
                parked: true,
            }),
    decreases n,
{
    lemma_frames_nonnegative(runs, 0, n - 1);
    lemma_frames_nonnegative(runs, n - 1, n);
    lemma_frames_nonnegative(runs, n, runs.len() as int);
    law_segments_tile_the_clip(runs, total, n - 1);
    let m = frame_segs(runs, total, n - 1);
    let s = frame_segs(runs, total, n);
    if k == n - 1 {
        if m.len() > 0 {
            assert(m[m.len() - 1].start <= m[m.len() - 1].end);
        }
        assert(stretch_covers(s, runs, total, s.len() - 1, k));
        if park_gap(runs[k], total) {
            assert(s[s.len() - 1].parked);
        }
    } else {
        law_stretches_follow_the_runs(runs, total, n - 1, k);
        let i = choose|i: int| stretch_covers(m, runs, total, i, k);
        assert(stretch_covers(s, runs, total, i, k)) by {
            assert(m[m.len() - 1].start <= m[m.len() - 1].end);
            if i == m.len() - 1 && s.len() == m.len() {
                assert(s[i].start == m[i].start && s[i].end >= m[i].end);
            } else {
                assert(s[i] == m[i]);
            }
        }
        if park_gap(runs[k], total) {
            let j = choose|j: int|
                0 <= j < m.len() && (#[trigger] m[j]) == (FrameSeg {
                    start: frames_before(runs, k) as u32,
                    end: frames_before(runs, k + 1) as u32,
                    parked: true,
                });
            assert(s[j] == m[j]);
        }
    }
}

/// A stretch of a clip in the list starts as far into the clip as the frames before it, to
/// the millisecond, and its share is that of its frames, up to rounding.
pub proof fn law_stretches_take_their_share(t: Timed, seg: FrameSeg, total: int)
    requires
        1 <= total <= u32::MAX,
        seg.start <= seg.end <= total,
        is_clip_time(t.ts as int),
    ensures
        ({
            let c = sub_of_seg(t, seg, total);
            &&& c.summary == t.index
            &&& c.start_frame == seg.start
            &&& c.end_frame == seg.end
            &&& c.total_frames == total
            &&& near(c.fraction, (seg.end - seg.start) as nat, total as nat, 2)
            &&& exists|ms: int|
                #[trigger] starts_after(seg, total, ms) && c.ts == shifted(t.ts as int, ms)
        }),
{
    let f = seg.start as nat;
    let n = (seg.end - seg.start) as nat;
    let d = total as nat;
    lemma_one();
    lemma_near_int(n);
    lemma_near_int(d);
    lemma_near_int(f);
    lemma_near_int(60);
    lemma_near_int(1000);
    lemma_within_int(n);
    lemma_within_int(d);
    lemma_within_int(f);
    lemma_within_int(60);
    lemma_within_int(1000);
    lemma_within_more(n, 1, 32, 400);
    lemma_within_more(d, 1, 32, 400);
    lemma_within_more(f, 1, 32, 400);
    lemma_within_more(60, 1, 32, 400);
    lemma_within_more(1000, 1, 32, 400);
    assert(0nat * 0 == 0 && 0nat * 2 == 0 && 4nat * 0 == 0);
    lemma_near_quotient(from_int(n as int), from_int(total), n, 1, d, 1, 0, 0, 400);
    assert(n * 1 == n && 1 * d == d);
    lemma_near_quotient(from_int(60), from_int(total), 60, 1, d, 1, 0, 0, 400);
    assert(60nat * 1 == 60);
    lemma_within_quotient(60, d);
    lemma_within_more(60, d, 64, 400);
    let per = frame_seconds(total);
    lemma_near_product(from_int(f as int), per, f, 1, 60, d, 0, 2, 400);
    let secs = fmul(from_int(f as int), per);
    lemma_within_product(f, 1, 32, 60, d, 64);
    lemma_within_more(f * 60, d, 96, 400);
    lemma_near_product(secs, from_int(1000), f * 60, d, 1000, 1, 4, 0, 400);
    assert((f * 60) * 1000 == 60_000 * f && d * 1 == d) by (nonlinear_arith);
    assert(60_000 * f <= d * 60_000) by (nonlinear_arith)
        requires
            f <= d,
    ;
    let x = fmul(secs, from_int(1000));
    lemma_rounded_near(x, 60_000 * f, d, 6, 60_000, i64::MIN as int, i64::MAX as int);
    let ms = to_int(fround(x), i64::MIN as int, i64::MAX as int);
    assert(starts_after(seg, total, ms));
    lemma_shifted_fits(t.ts as int, ms);
}

/// The frames before the stretch last `ms` milliseconds, to the millisecond.
pub open spec fn starts_after(seg: FrameSeg, total: int, ms: int) -> bool {
    0 <= ms && ms * total < 60_000 * seg.start + total && 60_000 * seg.start < ms * total + total
}

// ---------------------------------------------------------------------------
// Boundaries
// ---------------------------------------------------------------------------

/// A boundary lies strictly between tokens `p` and `q`.
pub open spec fn cut_between<T>(tokens: Seq<Token<T>>, p: int, q: int) -> bool {
    exists|k: int| p < k < q && (#[trigger] tokens[k]) is Boundary
}

/// Member `j` of run `i` is token `at[i][j]`: members of a run are tokens in a row, and
/// between two runs there is a boundary.
pub open spec fn follows_tokens<T>(tokens: Seq<Token<T>>, runs: Seq<Seq<T>>, at: Seq<Seq<int>>) -> bool {
    &&& at.len() == runs.len()
    &&& forall|i: int| 0 <= i < at.len() ==> (#[trigger] at[i]).len() == runs[i].len() && at[i].len() > 0
    &&& forall|i: int, j: int|
        0 <= i < at.len() && 0 <= j < at[i].len() ==> 0 <= (#[trigger] at[i][j]) < tokens.len()
            && tokens[at[i][j]] == Token::Clip(runs[i][j]) && at[i][j] == at[i][0] + j
    &&& forall|i: int|
        0 < i < at.len() ==> cut_between(tokens, at[i - 1].last(), (#[trigger] at[i])[0])
}

proof fn lemma_cut<T>(tokens: Seq<Token<T>>, n: int) -> (at: Seq<Seq<int>>)
    requires
        0 <= n <= tokens.len(),
    ensures
        follows_tokens(tokens, closed_runs(tokens, n), at),
        open_run(tokens, n).len() <= n,
        forall|j: int|
            0 <= j < open_run(tokens, n).len() ==> tokens[n - open_run(tokens, n).len() + j]
                == Token::Clip(#[trigger] open_run(tokens, n)[j]),
        at.len() > 0 ==> at.last().last() < n && cut_between(
            tokens,
            at.last().last(),
            n - open_run(tokens, n).len(),
        ),
    decreases n,
{
    if n <= 0 {
        Seq::empty()
    } else {
        let before = lemma_cut(tokens, n - 1);
        let o = open_run(tokens, n - 1);
        let c = closed_runs(tokens, n - 1);
        if tokens[n - 1] is Boundary {
            if o.len() > 0 {
                let first = n - 1 - o.len();
                let mine = Seq::new(o.len(), |j: int| first + j);
                let at = before.push(mine);
                let d = closed_runs(tokens, n);
                assert(d == c.push(o));
                assert forall|i: int, j: int| 0 <= i < at.len() && 0 <= j < at[i].len() implies 0 <= (
                #[trigger] at[i][j]) < tokens.len() && tokens[at[i][j]] == Token::Clip(d[i][j])
                    && at[i][j] == at[i][0] + j by {
                    if i < before.len() {
                        assert(at[i] == before[i] && d[i] == c[i]);
                        assert(before[i][j] == before[i][0] + j);
                    } else {
                        assert(d[i] == o);
                        assert(tokens[n - 1 - o.len() + j] == Token::Clip(o[j]));
                    }
                }
                assert forall|i: int| 0 < i < at.len() implies cut_between(
                    tokens,
                    at[i - 1].last(),
                    (#[trigger] at[i])[0],
                ) by {
                    assert(at[i - 1] == before[i - 1]);
                    if i < before.len() {
                        assert(at[i] == before[i]);
                        assert(cut_between(tokens, before[i - 1].last(), before[i][0]));
                    }
                }
                assert forall|i: int| 0 <= i < at.len() implies (#[trigger] at[i]).len() == d[i].len()
                    && at[i].len() > 0 by {
                    if i < before.len() {
                        assert(at[i] == before[i]);
                    }
                }
                assert(mine.last() == n - 2);
                assert(tokens[n - 1] is Boundary);
                assert(n - open_run(tokens, n).len() == n);
                assert(cut_between(tokens, at.last().last(), n));
                at
            } else {
                if before.len() > 0 {
                    let k = choose|k: int|
                        before.last().last() < k < n - 1 && (#[trigger] tokens[k]) is Boundary;
                    assert(tokens[k] is Boundary);
                    assert(cut_between(tokens, before.last().last(), n));
                }
                before
            }
        } else {
            let more = open_run(tokens, n);
            assert forall|j: int| 0 <= j < more.len() implies tokens[n - more.len() + j]
                == Token::Clip(#[trigger] more[j]) by {
                if j < o.len() {
                    assert(more[j] == o[j]);
                    assert(tokens[n - 1 - o.len() + j] == Token::Clip(o[j]));
                }
            }
            before
        }
    }
}

/// Cutting at boundaries leaves members in one run that follow each other without a
/// boundary, and parts those with a boundary between them.
pub proof fn law_runs_are_cut_at_boundaries<T>(tokens: Seq<Token<T>>)
    ensures
        exists|at: Seq<Seq<int>>| follows_tokens(tokens, runs_of(tokens), at),
{
    let n = tokens.len() as int;
    let before = lemma_cut(tokens, n);
    let o = open_run(tokens, n);
    let c = closed_runs(tokens, n);
    if o.len() > 0 {
        let first = n - o.len();
        let mine = Seq::new(o.len(), |j: int| first + j);
        let at = before.push(mine);
        let d = runs_of(tokens);
        assert forall|i: int, j: int| 0 <= i < at.len() && 0 <= j < at[i].len() implies 0 <= (
        #[trigger] at[i][j]) < tokens.len() && tokens[at[i][j]] == Token::Clip(d[i][j]) && at[i][j]
            == at[i][0] + j by {
            if i < before.len() {
                assert(at[i] == before[i] && d[i] == c[i]);
                assert(before[i][j] == before[i][0] + j);
            } else {
                assert(d[i] == o);
                assert(tokens[n - o.len() + j] == Token::Clip(o[j]));
            }
        }
        assert forall|i: int| 0 < i < at.len() implies cut_between(
            tokens,
            at[i - 1].last(),
            (#[trigger] at[i])[0],
        ) by {
            assert(at[i - 1] == before[i - 1]);
            if i < before.len() {
                assert(at[i] == before[i]);
                assert(cut_between(tokens, before[i - 1].last(), before[i][0]));
            }
        }
        assert forall|i: int| 0 <= i < at.len() implies (#[trigger] at[i]).len() == d[i].len()
            && at[i].len() > 0 by {
            if i < before.len() {
                assert(at[i] == before[i]);
            }
        }
        assert(follows_tokens(tokens, runs_of(tokens), at));
    } else {
        assert(follows_tokens(tokens, runs_of(tokens), before));
    }
}

// ---------------------------------------------------------------------------
// Signatures
// ---------------------------------------------------------------------------

/// The members of `group` that carry `sig`, in order.
pub open spec fn carriers<T: Sourced>(
    sigs: Seq<Option<Seq<char>>>,
    group: Seq<T>,
    sig: Option<Seq<char>>,
    n: int,
) -> Seq<T>
    decreases n,
{
    if n <= 0 {
        Seq::empty()
    } else if sigs[group[n - 1].spec_source() as int] == sig {
        carriers(sigs, group, sig, n - 1).push(group[n - 1])
    } else {
        carriers(sigs, group, sig, n - 1)
    }
}

proof fn lemma_unsigned<T: Sourced>(sigs: Seq<Option<Seq<char>>>, group: Seq<T>, n: int)
    ensures
        unsigned(sigs, group, n) == carriers(sigs, group, None, n),
    decreases n,
{
    if n > 0 {
        lemma_unsigned(sigs, group, n - 1);
    }
}

proof fn lemma_bucket_found<T: Sourced>(
    sigs: Seq<Option<Seq<char>>>,
    b: Seq<Seq<T>>,
    sig: Option<Seq<char>>,
    k: int,
)
    requires
        0 <= k <= b.len(),
    ensures
        k <= bucket_of(sigs, b, sig, k) <= b.len(),
        bucket_of(sigs, b, sig, k) < b.len() ==> signature(
            sigs,
            b[bucket_of(sigs, b, sig, k)][0],
        ) == sig,
        forall|j: int| k <= j < bucket_of(sigs, b, sig, k) ==> signature(sigs, (#[trigger] b[j])[0]) != sig,
    decreases b.len() - k,
{
    if k < b.len() && signature(sigs, b[k][0]) != sig {
        lemma_bucket_found(sigs, b, sig, k + 1);
    }
}

/// Every bucket holds all carriers of its signature; signatures differ, and none is
/// missing.
spec fn sorted_out<T: Sourced>(sigs: Seq<Option<Seq<char>>>, group: Seq<T>, b: Seq<Seq<T>>, n: int) -> bool {
    &&& forall|k: int|
        0 <= k < b.len() ==> (#[trigger] b[k]).len() > 0 && signature(sigs, b[k][0]) is Some && b[k]
            == carriers(sigs, group, signature(sigs, b[k][0]), n)
    &&& forall|j: int, k: int|
        0 <= j < k < b.len() ==> signature(sigs, (#[trigger] b[j])[0]) != signature(
            sigs,
            (#[trigger] b[k])[0],
        )
    &&& forall|i: int|
        0 <= i < n && signature(sigs, #[trigger] group[i]) is Some ==> exists|k: int|
            0 <= k < b.len() && signature(sigs, (#[trigger] b[k])[0]) == signature(sigs, group[i])
}

proof fn lemma_no_carriers<T: Sourced>(
    sigs: Seq<Option<Seq<char>>>,
    group: Seq<T>,
    sig: Option<Seq<char>>,
    n: int,
)
    requires
        forall|i: int| 0 <= i < n ==> signature(sigs, #[trigger] group[i]) != sig,
    ensures
        carriers(sigs, group, sig, n).len() == 0,
    decreases n,
{
    if n > 0 {
        lemma_no_carriers(sigs, group, sig, n - 1);
        assert(signature(sigs, group[n - 1]) != sig);
    }
}

proof fn lemma_buckets<T: Sourced>(sigs: Seq<Option<Seq<char>>>, group: Seq<T>, n: int)
    requires
        0 <= n <= group.len(),
    ensures
        sorted_out(sigs, group, buckets(sigs, group, n), n),
    decreases n,
{
    if n > 0 {
        lemma_buckets(sigs, group, n - 1);
        let x = group[n - 1];
        let sig = signature(sigs, x);
        let b = buckets(sigs, group, n - 1);
        let c = buckets(sigs, group, n);
        if sig is Some {
            let at = bucket_of(sigs, b, sig, 0);
            lemma_bucket_found(sigs, b, sig, 0);
            if at < b.len() {
                assert(c == b.update(at, b[at].push(x)));
                assert forall|k: int| 0 <= k < c.len() implies (#[trigger] c[k]).len() > 0 && signature(
                    sigs,
                    c[k][0],
                ) is Some && c[k] == carriers(sigs, group, signature(sigs, c[k][0]), n) by {
                    assert(b[k].len() > 0);
                    assert(b[k] == carriers(sigs, group, signature(sigs, b[k][0]), n - 1));
                    if k == at {
                        assert(c[k][0] == b[k][0]);
                    } else {
                        assert(c[k] == b[k]);
                        if k < at {
                            assert(signature(sigs, b[k][0]) != sig);
                        } else {
                            assert(signature(sigs, b[at][0]) != signature(sigs, b[k][0]));
                        }
                    }
                }
                assert forall|j: int, k: int| 0 <= j < k < c.len() implies signature(
                    sigs,
                    (#[trigger] c[j])[0],
                ) != signature(sigs, (#[trigger] c[k])[0]) by {
                    assert(b[j].len() > 0 && b[k].len() > 0);
                    assert(c[j][0] == b[j][0] && c[k][0] == b[k][0]);
                }
            } else {
                assert(c == b.push(seq![x]));
                assert forall|i: int| 0 <= i < n - 1 implies signature(sigs, #[trigger] group[i]) != sig by {
                    if signature(sigs, group[i]) == sig {
                        let k = choose|k: int|
                            0 <= k < b.len() && signature(sigs, (#[trigger] b[k])[0]) == signature(
                                sigs,
                                group[i],
                            );
                        assert(signature(sigs, b[k][0]) != sig);
                    }
                }
                lemma_no_carriers(sigs, group, sig, n - 1);
                assert forall|k: int| 0 <= k < c.len() implies (#[trigger] c[k]).len() > 0 && signature(
                    sigs,
                    c[k][0],
                ) is Some && c[k] == carriers(sigs, group, signature(sigs, c[k][0]), n) by {
                    if k < b.len() {
                        assert(c[k] == b[k]);
                        assert(signature(sigs, b[k][0]) != sig);
                    } else {
                        assert(carriers(sigs, group, sig, n) =~= seq![x]);
                    }
                }
                assert forall|j: int, k: int| 0 <= j < k < c.len() implies signature(
                    sigs,
                    (#[trigger] c[j])[0],
                ) != signature(sigs, (#[trigger] c[k])[0]) by {
                    assert(c[j] == b[j]);
                    if k < b.len() {
                        assert(c[k] == b[k]);
                    }
                }
            }
            assert forall|i: int| 0 <= i < n && signature(sigs, #[trigger] group[i]) is Some implies exists|
                k: int,
            |
                0 <= k < c.len() && signature(sigs, (#[trigger] c[k])[0]) == signature(sigs, group[i]) by {
                if i < n - 1 {
                    let k = choose|k: int|
                        0 <= k < b.len() && signature(sigs, (#[trigger] b[k])[0]) == signature(
                            sigs,
                            group[i],
                        );
                    assert(b[k].len() > 0);
                    assert(c[k][0] == b[k][0]);
                } else if at < b.len() {
                    assert(b[at].len() > 0);
                    assert(c[at][0] == b[at][0]);
                } else {
                    assert(c[b.len() as int][0] == x);
                }
            }
        } else {
            assert(c == b);
        }
    }
}

/// Cutting by signature gives one group for each signature of a member, with all members
/// that carry it in their order; members without one go together.
pub proof fn law_signatures_sort_out<T: Sourced>(sigs: Seq<Option<Seq<char>>>, group: Seq<T>)
    requires
        group.len() > 0,
    ensures
        ({
            let out = by_signature(sigs, group);
            let n = group.len() as int;
            &&& forall|k: int|
                0 <= k < out.len() ==> (#[trigger] out[k]).len() > 0 && out[k] == carriers(
                    sigs,
                    group,
                    sigs[out[k][0].spec_source() as int],
                    n,
                )
            &&& forall|j: int, k: int|
                0 <= j < k < out.len() ==> sigs[(#[trigger] out[j])[0].spec_source() as int] != sigs[(
                #[trigger] out[k])[0].spec_source() as int]
            &&& forall|i: int|
                0 <= i < n ==> exists|k: int|
                    0 <= k < out.len() && sigs[(#[trigger] out[k])[0].spec_source() as int]
                        == sigs[(#[trigger] group[i]).spec_source() as int]
        }),
{
    let n = group.len() as int;
    let out = by_signature(sigs, group);
    lemma_buckets(sigs, group, n);
    lemma_unsigned(sigs, group, n);
    let b = buckets(sigs, group, n);
    let u = unsigned(sigs, group, n);
    if n <= 1 || !any_signed(sigs, group) {
        assert forall|i: int| 0 <= i < n implies signature(sigs, #[trigger] group[i]) == signature(
            sigs,
            group[0],
        ) by {
            if n > 1 {
                assert(!(signature(sigs, group[i]) is Some));
                assert(!(signature(sigs, group[0]) is Some));
            }
        }
        lemma_all_carry(sigs, group, signature(sigs, group[0]), n);
        assert(group.take(n) =~= group);
        assert(out[0] == group);
        assert forall|i: int| 0 <= i < n implies exists|k: int|
            0 <= k < out.len() && sigs[(#[trigger] out[k])[0].spec_source() as int] == sigs[(
            #[trigger] group[i]).spec_source() as int] by {
            assert(signature(sigs, group[i]) == signature(sigs, group[0]));
            assert(signature(sigs, out[0][0]) == signature(sigs, group[i]));
        }
    } else {
        lemma_carriers_carry(sigs, group, None, n);
        let off: int = if u.len() > 0 {
            1
        } else {
            0
        };
        assert(forall|k: int| 0 <= k < b.len() ==> #[trigger] out[k + off] == b[k]);
        assert forall|k: int| 0 <= k < out.len() implies (#[trigger] out[k]).len() > 0 && out[k]
            == carriers(sigs, group, sigs[out[k][0].spec_source() as int], n) by {
            if k >= off {
                assert(out[k - off + off] == b[k - off]);
                assert(b[k - off].len() > 0);
                assert(signature(sigs, b[k - off][0]) is Some);
            } else {
                assert(out[0] == u);
                assert(signature(sigs, u[0]) is None);
            }
        }
        assert forall|j: int, k: int| 0 <= j < k < out.len() implies sigs[(#[trigger] out[j])[0].spec_source() as int]
            != sigs[(#[trigger] out[k])[0].spec_source() as int] by {
            assert(out[k - off + off] == b[k - off]);
            assert(b[k - off].len() > 0 && signature(sigs, b[k - off][0]) is Some);
            if j >= off {
                assert(out[j - off + off] == b[j - off]);
                assert(signature(sigs, b[j - off][0]) != signature(sigs, b[k - off][0]));
            } else {
                assert(out[0] == u);
                assert(signature(sigs, u[0]) is None);
            }
        }
        assert forall|i: int| 0 <= i < n implies exists|k: int|
            0 <= k < out.len() && sigs[(#[trigger] out[k])[0].spec_source() as int] == sigs[(
            #[trigger] group[i]).spec_source() as int] by {
            if signature(sigs, group[i]) is Some {
                let k = choose|k: int|
                    0 <= k < b.len() && signature(sigs, (#[trigger] b[k])[0]) == signature(
                        sigs,
                        group[i],
                    );
                assert(out[k + off] == b[k]);
            } else {
                lemma_carrier_met(sigs, group, None, n, i);
                assert(out[0] == u);
                assert(signature(sigs, u[0]) is None);
            }
        }
    }
}

proof fn lemma_all_carry<T: Sourced>(
    sigs: Seq<Option<Seq<char>>>,
    group: Seq<T>,
    sig: Option<Seq<char>>,
    n: int,
)
    requires
        0 <= n <= group.len(),
        forall|i: int| 0 <= i < group.len() ==> signature(sigs, #[trigger] group[i]) == sig,
    ensures
        carriers(sigs, group, sig, n) == group.take(n),
    decreases n,
{
    if n > 0 {
        lemma_all_carry(sigs, group, sig, n - 1);
        assert(signature(sigs, group[n - 1]) == sig);
        assert(group.take(n) =~= group.take(n - 1).push(group[n - 1]));
    } else {
        assert(group.take(0) =~= Seq::<T>::empty());
    }
}

proof fn lemma_carriers_carry<T: Sourced>(
    sigs: Seq<Option<Seq<char>>>,
    group: Seq<T>,
    sig: Option<Seq<char>>,
    n: int,
)
    ensures
        forall|i: int|
            0 <= i < carriers(sigs, group, sig, n).len() ==> signature(
                sigs,
                #[trigger] carriers(sigs, group, sig, n)[i],
            ) == sig,
    decreases n,
{
    if n > 0 {
        lemma_carriers_carry(sigs, group, sig, n - 1);
    }
}

proof fn lemma_carrier_met<T: Sourced>(
    sigs: Seq<Option<Seq<char>>>,
    group: Seq<T>,
    sig: Option<Seq<char>>,
    n: int,
    i: int,
)
    requires
        0 <= i < n <= group.len(),
        signature(sigs, group[i]) == sig,
    ensures
        carriers(sigs, group, sig, n).len() > 0,
    decreases n,
{
    if i < n - 1 {
        lemma_carrier_met(sigs, group, sig, n - 1, i);
    }
}

proof fn lemma_carrier_listed<T: Sourced>(
    sigs: Seq<Option<Seq<char>>>,
    group: Seq<T>,
    n: int,
    i: int,
)
    requires
        0 <= i < n <= group.len(),
    ensures
        carriers(sigs, group, sigs[group[i].spec_source() as int], n).contains(group[i]),
    decreases n,
{
    let sig = sigs[group[i].spec_source() as int];
    let r = carriers(sigs, group, sig, n);
    if i == n - 1 {
        assert(r[r.len() - 1] == group[i]);
    } else {
        lemma_carrier_listed(sigs, group, n - 1, i);
        let b = carriers(sigs, group, sig, n - 1);
        let k = choose|k: int| 0 <= k < b.len() && b[k] == group[i];
        assert(r[k] == group[i]);
    }
}

proof fn lemma_member_signed<T: Sourced>(
    sigs: Seq<Option<Seq<char>>>,
    groups: Seq<Seq<T>>,
    n: int,
    g: int,
    i: int,
)
    requires
        0 <= g < n <= groups.len(),
        0 <= i < groups[g].len(),
    ensures
        member_of_some(all_by_signature(sigs, groups, n), groups[g][i]),
    decreases n,
{
    let head = all_by_signature(sigs, groups, n - 1);
    let tail = by_signature(sigs, groups[n - 1]);
    let r = all_by_signature(sigs, groups, n);
    let x = groups[g][i];
    if g < n - 1 {
        lemma_member_signed(sigs, groups, n - 1, g, i);
        let (a, b) = choose|a: int, b: int|
            0 <= a < head.len() && 0 <= b < head[a].len() && #[trigger] head[a][b] == x;
        assert(r[a][b] == x);
    } else {
        let group = groups[g];
        law_signatures_sort_out(sigs, group);
        let k = choose|k: int|
            0 <= k < tail.len() && sigs[(#[trigger] tail[k])[0].spec_source() as int]
                == sigs[group[i].spec_source() as int];
        lemma_carrier_listed(sigs, group, group.len() as int, i);
        assert(tail[k].contains(x));
        let b = choose|b: int| 0 <= b < tail[k].len() && tail[k][b] == x;
        assert(r[head.len() + k][b] == x);
    }
}

proof fn lemma_member_driven(
    routes: Seq<Route>,
    sigs: Seq<Option<Seq<char>>>,
    line: Seq<Seq<Timed>>,
    n: int,
    g: int,
    h: int,
    i: int,
)
    requires
        0 <= g < n <= line.len(),
        0 <= h < gear_split(routes, line[g]).len(),
        0 <= i < gear_split(routes, line[g])[h].len(),
    ensures
        member_of_some(drives_of(routes, sigs, line, n), gear_split(routes, line[g])[h][i]),
    decreases n,
{
    let parts = gear_split(routes, line[n - 1]);
    let head = drives_of(routes, sigs, line, n - 1);
    let tail = all_by_signature(sigs, parts, parts.len() as int);
    let r = drives_of(routes, sigs, line, n);
    let x = gear_split(routes, line[g])[h][i];
    if g < n - 1 {
        lemma_member_driven(routes, sigs, line, n - 1, g, h, i);
        let (a, b) = choose|a: int, b: int|
            0 <= a < head.len() && 0 <= b < head[a].len() && #[trigger] head[a][b] == x;
        assert(r[a][b] == x);
    } else {
        lemma_member_signed(sigs, parts, parts.len() as int, h, i);
        let (a, b) = choose|a: int, b: int|
            0 <= a < tail.len() && 0 <= b < tail[a].len() && #[trigger] tail[a][b] == x;
        assert(r[head.len() + a][b] == x);
    }
}

/// No piece of a clip is lost on the way to the drives: what is left of a stretch once it
/// is cut at Park is in some drive.
pub proof fn law_no_piece_is_lost(routes: Seq<Route>, g: int, h: int, i: int)
    requires
        ({
            let line = time_line(keys_of_routes(routes));
            let parts = stretches(line, line.len() as int);
            &&& 0 <= g < parts.len()
            &&& 0 <= h < gear_split(routes, parts[g]).len()
            &&& 0 <= i < gear_split(routes, parts[g])[h].len()
        }),
    ensures
        ({
            let line = time_line(keys_of_routes(routes));
            let parts = stretches(line, line.len() as int);
            member_of_some(drives(routes), gear_split(routes, parts[g])[h][i])
        }),
{
    let line = time_line(keys_of_routes(routes));
    let parts = stretches(line, line.len() as int);
    lemma_member_driven(routes, route_signatures(routes), parts, parts.len() as int, g, h, i);
}

proof fn lemma_sub_driven(
    s: Seq<RouteSummary>,
    sigs: Seq<Option<Seq<char>>>,
    line: Seq<Seq<Timed>>,
    n: int,
    g: int,
    h: int,
    i: int,
)
    requires
        0 <= g < n <= line.len(),
        0 <= h < sub_split(s, line[g]).len(),
        0 <= i < sub_split(s, line[g])[h].len(),
    ensures
        member_of_some(sub_drives_of(s, sigs, line, n), sub_split(s, line[g])[h][i]),
    decreases n,
{
    let parts = sub_split(s, line[n - 1]);
    let head = sub_drives_of(s, sigs, line, n - 1);
    let tail = all_by_signature(sigs, parts, parts.len() as int);
    let r = sub_drives_of(s, sigs, line, n);
    let x = sub_split(s, line[g])[h][i];
    if g < n - 1 {
        lemma_sub_driven(s, sigs, line, n - 1, g, h, i);
        let (a, b) = choose|a: int, b: int|
            0 <= a < head.len() && 0 <= b < head[a].len() && #[trigger] head[a][b] == x;
        assert(r[a][b] == x);
    } else {
        lemma_member_signed(sigs, parts, parts.len() as int, h, i);
        let (a, b) = choose|a: int, b: int|
            0 <= a < tail.len() && 0 <= b < tail[a].len() && #[trigger] tail[a][b] == x;
        assert(r[head.len() + a][b] == x);
    }
}

/// Nor is it on the way to the list.
pub proof fn law_no_stretch_is_lost(s: Seq<RouteSummary>, g: int, h: int, i: int)
    requires
        ({
            let line = time_line(keys_of_summaries(s));
            let parts = stretches(line, line.len() as int);
            &&& 0 <= g < parts.len()
            &&& 0 <= h < sub_split(s, parts[g]).len()
            &&& 0 <= i < sub_split(s, parts[g])[h].len()
        }),
    ensures
        ({
            let line = time_line(keys_of_summaries(s));
            let parts = stretches(line, line.len() as int);
            member_of_some(sub_drives(s), sub_split(s, parts[g])[h][i])
        }),
{
    let line = time_line(keys_of_summaries(s));
    let parts = stretches(line, line.len() as int);
    lemma_sub_driven(s, summary_signatures(s), parts, parts.len() as int, g, h, i);
}

// ---------------------------------------------------------------------------
// Clips that stay whole
// ---------------------------------------------------------------------------

/// No run of the clip is two seconds or more in Park.
pub open spec fn never_parks(runs: Seq<GearRun>) -> bool {
    forall|k: int|
        0 <= k < runs.len() ==> (#[trigger] runs[k]).gear != GEAR_PARK || 30 * runs[k].frames
            < frames_before(runs, runs.len() as int)
}

proof fn lemma_never_parks(runs: Seq<GearRun>, n: int)
    requires
        0 <= n <= runs.len(),
        frames_fit(runs),
        never_parks(runs),
        frames_before(runs, runs.len() as int) > 0,
    ensures
        ({
            let total = frames_before(runs, runs.len() as int);
            forall|i: int|
                0 <= i < frame_segs(runs, total, n).len() ==> !(#[trigger] frame_segs(runs, total, n)[i]).parked
        }),
        n > 0 ==> frame_segs(runs, frames_before(runs, runs.len() as int), n).len() > 0,
    decreases n,
{
    let total = frames_before(runs, runs.len() as int);
    if n > 0 {
        lemma_never_parks(runs, n - 1);
        assert(runs[n - 1].gear != GEAR_PARK || 30 * runs[n - 1].frames < total);
        lemma_short_park_does_not_cut(runs[n - 1], total);
        let (m, r) = (frame_segs(runs, total, n - 1), frame_segs(runs, total, n));
        assert forall|i: int| 0 <= i < r.len() implies !(#[trigger] r[i]).parked by {
            if i < m.len() {
                assert(!m[i].parked);
            }
            if m.len() > 0 {
                assert(!m[m.len() - 1].parked);
            }
        }
    }
}

proof fn lemma_short_park_does_not_cut(run: GearRun, total: int)
    requires
        1 <= total <= u32::MAX,
        run.gear != GEAR_PARK || 30 * run.frames < total,
    ensures
        !park_gap(run, total),
{
    if run.gear == GEAR_PARK {
        law_two_seconds_of_park_cut(run, total);
    }
}

proof fn lemma_one_run<T>(tokens: Seq<Token<T>>, xs: Seq<T>, n: int)
    requires
        0 <= n <= tokens.len(),
        xs.len() == tokens.len(),
        forall|i: int| 0 <= i < tokens.len() ==> #[trigger] tokens[i] == Token::Clip(xs[i]),
    ensures
        open_run(tokens, n) == xs.take(n),
        closed_runs(tokens, n).len() == 0,
    decreases n,
{
    if n > 0 {
        lemma_one_run(tokens, xs, n - 1);
        assert(tokens[n - 1] == Token::Clip(xs[n - 1]));
        assert(xs.take(n) =~= xs.take(n - 1).push(xs[n - 1]));
    } else {
        assert(xs.take(0) =~= Seq::<T>::empty());
    }
}

proof fn lemma_whole_tokens(routes: Seq<Route>, group: Seq<Timed>, n: int)
    requires
        0 <= n <= group.len(),
        forall|i: int|
            0 <= i < group.len() ==> ({
                let r = routes[(#[trigger] group[i]).index as int];
                &&& r.points@.len() > 0
                &&& frames_fit(r.gear_runs@)
                &&& never_parks(r.gear_runs@)
            }),
    ensures
        gear_tokens(routes, group, n).len() == n,
        forall|i: int|
            0 <= i < n ==> #[trigger] gear_tokens(routes, group, n)[i] == Token::Clip(
                whole_piece(routes, group[i]),
            ),
    decreases n,
{
    if n > 0 {
        lemma_whole_tokens(routes, group, n - 1);
        let t = group[n - 1];
        let r = routes[t.index as int];
        assert(r.points@.len() > 0);
        let runs = r.gear_runs@;
        let total = frames_before(runs, runs.len() as int);
        if runs.len() > 0 {
            if total > 0 {
                lemma_never_parks(runs, runs.len() as int);
            }
            lemma_frames_nonnegative(runs, 0, runs.len() as int);
            assert(clip_plan(runs, r.points@.len() as int) is None);
            assert(clip_tokens(routes, t) =~= seq![Token::Clip(whole_piece(routes, t))]);
        }
    }
}

/// A stretch of clips that are never two seconds in Park is one group of whole clips.
pub proof fn law_drives_without_park_stay_whole(routes: Seq<Route>, group: Seq<Timed>)
    requires
        group.len() > 0,
        any_gear_runs(routes, group),
        forall|i: int|
            0 <= i < group.len() ==> ({
                let r = routes[(#[trigger] group[i]).index as int];
                &&& r.points@.len() > 0
                &&& frames_fit(r.gear_runs@)
                &&& never_parks(r.gear_runs@)
            }),
    ensures
        gear_split(routes, group).len() == 1,
        gear_split(routes, group)[0].len() == group.len(),
        forall|i: int|
            0 <= i < group.len() ==> (#[trigger] gear_split(routes, group)[0][i]) == (Piece {
                route: group[i].index,
                start: 0,
                end: routes[group[i].index as int].points@.len() as usize,
                whole: true,
                ts: group[i].ts,
            }),
{
    let n = group.len() as int;
    let tokens = gear_tokens(routes, group, n);
    lemma_whole_tokens(routes, group, n);
    let xs = wholes(routes, group);
    lemma_one_run(tokens, xs, n);
    assert(xs.take(n) =~= xs);
}

proof fn lemma_whole_sub_tokens(s: Seq<RouteSummary>, group: Seq<Timed>, n: int)
    requires
        0 <= n <= group.len(),
        forall|i: int|
            0 <= i < group.len() ==> ({
                let r = s[(#[trigger] group[i]).index as int];
                &&& frames_fit(r.gear_runs@)
                &&& never_parks(r.gear_runs@)
            }),
    ensures
        all_sub_tokens(s, group, n).len() == n,
        forall|i: int|
            0 <= i < n ==> #[trigger] all_sub_tokens(s, group, n)[i] == Token::Clip(
                whole_sub(s, group[i]),
            ),
    decreases n,
{
    if n > 0 {
        lemma_whole_sub_tokens(s, group, n - 1);
        let t = group[n - 1];
        let runs = s[t.index as int].gear_runs@;
        let total = frames_before(runs, runs.len() as int);
        assert(frames_fit(runs) && never_parks(runs));
        lemma_frames_nonnegative(runs, 0, runs.len() as int);
        if total > 0 {
            lemma_never_parks(runs, runs.len() as int);
            let segs = clip_segs(runs);
            assert(runs.len() > 0);
            assert(!segs[0].parked);
        }
        assert(sub_tokens(s, t) =~= seq![Token::Clip(whole_sub(s, t))]);
    }
}

/// In the list too: one group of whole clips, each with all of its frames and with its
/// full share.
pub proof fn law_listed_drives_without_park_stay_whole(s: Seq<RouteSummary>, group: Seq<Timed>)
    requires
        group.len() > 0,
        any_summary_runs(s, group),
        forall|i: int|
            0 <= i < group.len() ==> ({
                let r = s[(#[trigger] group[i]).index as int];
                &&& frames_fit(r.gear_runs@)
                &&& never_parks(r.gear_runs@)
            }),
    ensures
        sub_split(s, group).len() == 1,
        sub_split(s, group)[0].len() == group.len(),
        forall|i: int|
            0 <= i < group.len() ==> ({
                let c = #[trigger] sub_split(s, group)[0][i];
                &&& c.summary == group[i].index
                &&& c.ts == group[i].ts
                &&& c.start_frame == 0
                &&& c.end_frame == c.total_frames
                &&& c.fraction == from_int(1)
            }),
{
    let n = group.len() as int;
    let tokens = all_sub_tokens(s, group, n);
    lemma_whole_sub_tokens(s, group, n);
    let xs = whole_subs(s, group);
    lemma_one_run(tokens, xs, n);
    assert(xs.take(n) =~= xs);
}

// ---------------------------------------------------------------------------
// Clips without gear runs
// ---------------------------------------------------------------------------

proof fn lemma_one_half()
    ensures
        holds_units(lit(PARK_MAJORITY_FRACTION), vstd::arithmetic::power2::pow2(1073)),
{
    let half = HALF64 as nat;
    lemma_magnitude_split(1021, half, half);
    lemma_one();
    vstd::arithmetic::power2::lemma_pow2_adds(52, 1021);
    assert(1021 * half + half == 0x3FE0_0000_0000_0000nat);
}

/// Without gear runs a clip counts as parked where more than half of its raw frames are
/// Park.
pub proof fn law_half_of_the_frames_decide(park: u32, frames: u32)
    requires
        park <= frames,
        frames > 0,
    ensures
        flt(
            lit(PARK_MAJORITY_FRACTION),
            fdiv(from_int(park as int), from_int(frames as int)),
        ) <==> 2 * park > frames,
{
    let (p, d) = (park as nat, frames as nat);
    let u = one();
    let g = grain();
    lemma_one();
    lemma_one_half();
    lemma_near_int(p);
    lemma_near_int(d);
    lemma_within_int(p);
    lemma_within_int(d);
    lemma_within_more(p, 1, 32, 400);
    lemma_within_more(d, 1, 32, 400);
    assert(0nat * 0 == 0);
    lemma_near_quotient(from_int(p as int), from_int(d as int), p, 1, d, 1, 0, 0, 400);
    assert(p * 1 == p && 1 * d == d);
    let q = fdiv(from_int(p as int), from_int(d as int));
    let s = size_of(q);
    let h = vstd::arithmetic::power2::pow2(1073);
    lemma_order(lit(PARK_MAJORITY_FRACTION), q);
    if 2 * p > d {
        assert(s > h) by (nonlinear_arith)
            requires
                g * (p * u) <= g * (s * d) + 4 * (p * u),
                u == 2 * h,
                2 * p >= d + 1,
                1 <= d <= 0xFFFF_FFFF,
                g == 0x20_0000_0000_0000,
                h > 0,
        ;
    } else if 2 * p < d {
        assert(s <= h) by (nonlinear_arith)
            requires
                g * (s * d) <= (g + 4) * (p * u),
                u == 2 * h,
                2 * p + 1 <= d,
                1 <= d <= 0xFFFF_FFFF,
                g == 0x20_0000_0000_0000,
                h > 0,
        ;
    } else {
        lemma_from_int_exact(p);
        lemma_from_int_exact(d);
        lemma_scaled_is_value(1, 1073);
        assert(1 * h == h);
        assert(h * (d * u) == (p * u) * u) by (nonlinear_arith)
            requires
                u == 2 * h,
                d == 2 * p,
        ;
        assert(d * u > 0) by (nonlinear_arith)
            requires
                d > 0,
                u > 0,
        ;
        lemma_quotient(from_int(p as int), from_int(d as int), p * u, d * u, h, h);
    }
}

// ---------------------------------------------------------------------------
// From clips to groups
// ---------------------------------------------------------------------------

/// In the list a clip with a Park gap is cut there: every parked stretch is a boundary and
/// every other a member. One that is parked throughout is a boundary alone, and one
/// without a Park gap, or without frames, stays whole.
pub proof fn law_park_gaps_cut_listed_clips(s: Seq<RouteSummary>, t: Timed)
    ensures
        ({
            let runs = s[t.index as int].gear_runs@;
            let total = frames_before(runs, runs.len() as int);
            let segs = clip_segs(runs);
            let out = sub_tokens(s, t);
            let gaps = exists|i: int| 0 <= i < segs.len() && (#[trigger] segs[i]).parked;
            let drives = exists|i: int| 0 <= i < segs.len() && !(#[trigger] segs[i]).parked;
            &&& total == 0 || (!gaps && drives) ==> out == seq![Token::Clip(whole_sub(s, t))]
            &&& total != 0 && !drives ==> out == seq![Token::<SubClipSummary>::Boundary]
            &&& total != 0 && gaps && drives ==> out.len() == segs.len() && forall|i: int|
                0 <= i < segs.len() ==> if segs[i].parked {
                    (#[trigger] out[i]) is Boundary
                } else {
                    out[i] == Token::Clip(sub_of_seg(t, segs[i], total))
                }
        }),
{
    let runs = s[t.index as int].gear_runs@;
    let segs = clip_segs(runs);
    if exists|i: int| 0 <= i < segs.len() && !(#[trigger] segs[i]).parked {
        let i = choose|i: int| 0 <= i < segs.len() && !(#[trigger] segs[i]).parked;
        assert(!segs[i].parked);
        assert(!all_parked(segs));
    } else {
        assert(all_parked(segs));
    }
}

/// The members and boundaries of a group are those of its clips, one behind the other.
pub proof fn law_listed_groups_follow_their_clips(s: Seq<RouteSummary>, group: Seq<Timed>, n: int, m: int)
    requires
        0 <= m < n <= group.len(),
    ensures
        ({
            let at = all_sub_tokens(s, group, m).len();
            let one = sub_tokens(s, group[m]);
            &&& at + one.len() <= all_sub_tokens(s, group, n).len()
            &&& all_sub_tokens(s, group, n).subrange(at as int, (at + one.len()) as int) == one
            &&& all_sub_tokens(s, group, m + 1).len() == at + one.len()
        }),
    decreases n,
{
    let at = all_sub_tokens(s, group, m).len() as int;
    let one = sub_tokens(s, group[m]);
    let all = all_sub_tokens(s, group, n);
    if m < n - 1 {
        law_listed_groups_follow_their_clips(s, group, n - 1, m);
        let b = all_sub_tokens(s, group, n - 1);
        assert(all.subrange(at, at + one.len()) =~= b.subrange(at, at + one.len()));
    } else {
        assert(all.subrange(at, at + one.len()) =~= one);
    }
}

/// A stretch of the list is cut at the boundaries of its clips where any has gear runs;
/// without gear runs a clip of which more than half is Park is a boundary, unless it is
/// alone.
pub proof fn law_listed_groups_are_cut_at_boundaries(s: Seq<RouteSummary>, group: Seq<Timed>)
    requires
        group.len() > 0,
    ensures
        any_summary_runs(s, group) ==> sub_split(s, group) == runs_of(
            all_sub_tokens(s, group, group.len() as int),
        ),
        !any_summary_runs(s, group) && group.len() == 1 ==> sub_split(s, group).len() == 1 && sub_split(
            s,
            group,
        )[0] == seq![whole_sub(s, group[0])],
        !any_summary_runs(s, group) && group.len() > 1 ==> exists|tokens: Seq<Token<SubClipSummary>>|
            {
                &&& tokens.len() == group.len()
                &&& sub_split(s, group) == #[trigger] runs_of(tokens)
                &&& forall|i: int|
                    0 <= i < group.len() ==> ({
                        let r = s[group[i].index as int];
                        let parked = r.raw_frame_count > 0 && flt(
                            lit(PARK_MAJORITY_FRACTION),
                            fdiv(
                                from_int(r.raw_park_count as int),
                                from_int(r.raw_frame_count as int),
                            ),
                        );
                        if parked {
                            (#[trigger] tokens[i]) is Boundary
                        } else {
                            tokens[i] == Token::Clip(whole_sub(s, group[i]))
                        }
                    })
            },
{
    if !any_summary_runs(s, group) && group.len() == 1 {
        assert(whole_subs(s, group) =~= seq![whole_sub(s, group[0])]);
    }
    if !any_summary_runs(s, group) && group.len() > 1 {
        let tokens = legacy_sub_tokens(s, group);
        assert(sub_split(s, group) == runs_of(tokens));
    }
}

proof fn lemma_plan(segs: Seq<FrameSeg>, total: int, n_points: int, k: int)
    requires
        0 <= k <= segs.len(),
    ensures
        forall|i: int|
            0 <= i < k && (#[trigger] segs[i]).parked ==> exists|j: int|
                0 <= j < planned_all(segs, total, n_points, k).len() && (#[trigger] planned_all(
                    segs,
                    total,
                    n_points,
                    k,
                )[j]).parked,
        forall|j: int|
            0 <= j < planned_all(segs, total, n_points, k).len() ==> exists|i: int|
                0 <= i < k && planned(#[trigger] segs[i], total, n_points) == Some(
                    #[trigger] planned_all(segs, total, n_points, k)[j],
                ),
        forall|i: int|
            0 <= i < k && planned(#[trigger] segs[i], total, n_points) is Some ==> planned_all(
                segs,
                total,
                n_points,
                k,
            ).contains(planned(segs[i], total, n_points)->0),
    decreases k,
{
    if k > 0 {
        lemma_plan(segs, total, n_points, k - 1);
        let b = planned_all(segs, total, n_points, k - 1);
        let r = planned_all(segs, total, n_points, k);
        let x = planned(segs[k - 1], total, n_points);
        assert forall|i: int| 0 <= i < b.len() implies r[i] == b[i] by {}
        assert forall|i: int| 0 <= i < k && planned(#[trigger] segs[i], total, n_points) is Some implies r.contains(
            planned(segs[i], total, n_points)->0,
        ) by {
            let y = planned(segs[i], total, n_points)->0;
            if i < k - 1 {
                assert(b.contains(y));
                let j = choose|j: int| 0 <= j < b.len() && b[j] == y;
                assert(r[j] == y);
            } else {
                assert(r[r.len() - 1] == y);
            }
        }
        assert forall|j: int| 0 <= j < r.len() implies exists|i: int|
            0 <= i < k && planned(#[trigger] segs[i], total, n_points) == Some(#[trigger] r[j]) by {
            if j < b.len() {
                assert(r[j] == b[j]);
                let i = choose|i: int|
                    0 <= i < k - 1 && planned(#[trigger] segs[i], total, n_points) == Some(b[j]);
                assert(planned(segs[i], total, n_points) == Some(r[j]));
            } else {
                assert(planned(segs[k - 1], total, n_points) == Some(r[j]));
            }
        }
        assert forall|i: int| 0 <= i < k && (#[trigger] segs[i]).parked implies exists|j: int|
            0 <= j < r.len() && (#[trigger] r[j]).parked by {
            let y = planned(segs[i], total, n_points)->0;
            assert(r.contains(y));
            let j = choose|j: int| 0 <= j < r.len() && r[j] == y;
            assert(r[j].parked);
        }
    }
}

/// On the map a clip with a Park gap is cut there too: every stretch that keeps a point is
/// planned, every parked one is a boundary, and nothing else is.
pub proof fn law_park_gaps_cut_clips(routes: Seq<Route>, t: Timed, i: int)
    requires
        ({
            let runs = routes[t.index as int].gear_runs@;
            &&& frames_before(runs, runs.len() as int) != 0
            &&& 0 <= i < clip_segs(runs).len()
            &&& any_parked(clip_segs(runs))
        }),
    ensures
        ({
            let r = routes[t.index as int];
            let total = frames_before(r.gear_runs@, r.gear_runs@.len() as int);
            let segs = clip_segs(r.gear_runs@);
            let n = r.points@.len() as int;
            let out = clip_tokens(routes, t);
            &&& segs[i].parked ==> exists|j: int| 0 <= j < out.len() && (#[trigger] out[j]) is Boundary
            &&& !segs[i].parked && planned(segs[i], total, n) is Some ==> exists|j: int|
                0 <= j < out.len() && (#[trigger] out[j]) is Clip && ({
                    let (p, x) = (out[j]->Clip_0, planned(segs[i], total, n)->0);
                    &&& p.route == t.index
                    &&& p.start == x.start
                    &&& p.end == x.end
                    &&& !p.whole
                    &&& p.ts == shifted(t.ts as int, sat_mul(x.offset_secs as int, 1000))
                })
        }),
{
    let r = routes[t.index as int];
    let total = frames_before(r.gear_runs@, r.gear_runs@.len() as int);
    let segs = clip_segs(r.gear_runs@);
    let n = r.points@.len() as int;
    let plan = planned_all(segs, total, n, segs.len() as int);
    let out = clip_tokens(routes, t);
    lemma_plan(segs, total, n, segs.len() as int);
    assert(clip_plan(r.gear_runs@, n) == Some(plan));
    if segs[i].parked {
        let j = choose|j: int| 0 <= j < plan.len() && (#[trigger] plan[j]).parked;
        assert(out[j] is Boundary);
    } else if planned(segs[i], total, n) is Some {
        let x = planned(segs[i], total, n)->0;
        assert(plan.contains(x));
        let j = choose|j: int| 0 <= j < plan.len() && plan[j] == x;
        assert(out[j] == planned_token(t, x));
        lemma_shifted_fits(t.ts as int, sat_mul(x.offset_secs as int, 1000));
    }
}

/// On the map a group follows its clips, and is cut at their boundaries, unless nothing but
/// Park would be left.
pub proof fn law_groups_are_cut_at_boundaries(routes: Seq<Route>, group: Seq<Timed>)
    requires
        group.len() > 0,
        any_gear_runs(routes, group),
    ensures
        ({
            let cut = runs_of(gear_tokens(routes, group, group.len() as int));
            &&& cut.len() > 0 ==> gear_split(routes, group) == cut
            &&& cut.len() == 0 ==> gear_split(routes, group).len() == 1 && gear_split(routes, group)[0].len()
                == group.len() && forall|i: int|
                0 <= i < group.len() ==> (#[trigger] gear_split(routes, group)[0][i]).route
                    == group[i].index && gear_split(routes, group)[0][i].whole
        }),
{
}

/// The members and boundaries of a group on the map are those of its clips, one behind the
/// other; a clip without gear runs is a member as a whole.
pub proof fn law_groups_follow_their_clips(routes: Seq<Route>, group: Seq<Timed>, n: int, m: int)
    requires
        0 <= m < n <= group.len(),
    ensures
        ({
            let at = gear_tokens(routes, group, m).len();
            let one = if routes[group[m].index as int].gear_runs@.len() == 0 {
                seq![Token::Clip(whole_piece(routes, group[m]))]
            } else {
                clip_tokens(routes, group[m])
            };
            &&& at + one.len() <= gear_tokens(routes, group, n).len()
            &&& gear_tokens(routes, group, n).subrange(at as int, (at + one.len()) as int) == one
            &&& gear_tokens(routes, group, m + 1).len() == at + one.len()
        }),
    decreases n,
{
    let at = gear_tokens(routes, group, m).len() as int;
    let one = if routes[group[m].index as int].gear_runs@.len() == 0 {
        seq![Token::Clip(whole_piece(routes, group[m]))]
    } else {
        clip_tokens(routes, group[m])
    };
    let all = gear_tokens(routes, group, n);
    if m < n - 1 {
        law_groups_follow_their_clips(routes, group, n - 1, m);
        let b = gear_tokens(routes, group, n - 1);
        assert(all.subrange(at, at + one.len()) =~= b.subrange(at, at + one.len()));
    } else {
        assert(all.subrange(at, at + one.len()) =~= one);
    }
}

/// A fragment starts as many whole seconds into its clip as the frames in front of it last,
/// or one less where rounding falls short.
pub proof fn law_fragments_start_after_their_frames(seg: FrameSeg, total: int, n: int)
    requires
        1 <= total <= u32::MAX,
        seg.start <= total,
        !seg.parked,
        planned(seg, total, n) is Some,
    ensures
        ({
            let secs = planned(seg, total, n)->0.offset_secs;
            &&& 0 <= secs
            &&& secs * total < 60 * seg.start + total
            &&& 60 * seg.start < secs * total + 2 * total
        }),
{
    let (f, d) = (seg.start as nat, total as nat);
    let u = one();
    let g = grain();
    lemma_one();
    lemma_near_int(f);
    lemma_near_int(d);
    lemma_near_int(60);
    lemma_within_int(f);
    lemma_within_int(d);
    lemma_within_int(60);
    lemma_within_more(f, 1, 32, 400);
    lemma_within_more(d, 1, 32, 400);
    lemma_within_more(60, 1, 32, 400);
    assert(0nat * 0 == 0 && 2nat * 0 == 0);
    lemma_near_quotient(from_int(f as int), from_int(total), f, 1, d, 1, 0, 0, 400);
    assert(f * 1 == f && 1 * d == d);
    if f > 0 {
        lemma_within_quotient(f, d);
    } else {
        vstd::arithmetic::power2::lemma_pow2_pos(64);
    }
    lemma_within_more(f, d, 64, 400);
    lemma_near_product(frame_share(seg.start, total), from_int(60), f, d, 60, 1, 2, 0, 400);
    assert(d * 1 == d);
    let x = fmul(frame_share(seg.start, total), from_int(60));
    let s = size_of(x);
    let m = (f * 60) * u;
    reveal(whole_part);
    let k = s / u;
    vstd::arithmetic::div_mod::lemma_fundamental_div_mod(s as int, u as int);
    vstd::arithmetic::div_mod::lemma_mod_bound(s as int, u as int);
    let rest = s % u;
    assert(s == u * k + rest && rest < u);
    assert(g * (s * d) <= (g + 8) * m && g * m <= g * (s * d) + 8 * m);
    assert(8 * (s * d) <= 8 * m + d * u && 8 * m <= 8 * (s * d) + d * u) by {
        assert(8 * (8 * m) <= g * (d * u)) by (nonlinear_arith)
            requires
                m == (f * 60) * u,
                f <= d,
                g == 0x20_0000_0000_0000,
        ;
        assert(8 * (s * d) <= 8 * m + d * u) by (nonlinear_arith)
            requires
                g * (s * d) <= (g + 8) * m,
                8 * (8 * m) <= g * (d * u),
                g > 0,
        ;
        assert(8 * m <= 8 * (s * d) + d * u) by (nonlinear_arith)
            requires
                g * m <= g * (s * d) + 8 * m,
                8 * (8 * m) <= g * (d * u),
                g > 0,
        ;
    }
    assert(k * d < 60 * f + d && 60 * f < k * d + 2 * d) by (nonlinear_arith)
        requires
            8 * (s * d) <= 8 * m + d * u,
            8 * m <= 8 * (s * d) + d * u,
            m == (f * 60) * u,
            s == u * k + rest,
            rest < u,
            u > 0,
            d > 0,
    ;
    assert(k <= 61) by (nonlinear_arith)
        requires
            k * d < 60 * f + d,
            f <= d,
            d > 0,
    ;
}

/// Without gear runs a clip of the map counts as parked where more than half of its raw
/// frames are Park, or, where none were counted, more than half of its points.
pub proof fn law_half_of_a_clip_decides(r: Route)
    requires
        r.raw_park_count <= r.raw_frame_count,
    ensures
        r.raw_frame_count > 0 ==> (mostly_parked(r) <==> 2 * r.raw_park_count > r.raw_frame_count),
        r.raw_frame_count == 0 ==> (mostly_parked(r) <==> 2 * Set::new(
            |i: int| 0 <= i < r.gear_states@.len() && r.gear_states@[i] == 0,
        ).len() > r.gear_states@.len()),
{
    let n = r.gear_states@.len() as int;
    if r.raw_frame_count > 0 {
        law_half_of_the_frames_decide(r.raw_park_count, r.raw_frame_count);
    } else {
        lemma_park_count(r.gear_states@, n);
        assert(Set::new(|i: int| 0 <= i < n && r.gear_states@[i] == 0) =~= Set::new(
            |i: int| 0 <= i < r.gear_states@.len() && r.gear_states@[i] == 0,
        ));
    }
}

/// Without gear runs a group of the map is cut at its parked clips; one clip alone, or a
/// group without any gears, stays together.
pub proof fn law_groups_without_runs_are_cut_at_parked_clips(routes: Seq<Route>, group: Seq<Timed>)
    requires
        group.len() > 0,
        !any_gear_runs(routes, group),
    ensures
        group.len() == 1 || !any_gear_states(routes, group) ==> gear_split(routes, group).len() == 1
            && gear_split(routes, group)[0].len() == group.len() && forall|i: int|
            0 <= i < group.len() ==> #[trigger] gear_split(routes, group)[0][i] == whole_piece(
                routes,
                group[i],
            ),
        group.len() > 1 && any_gear_states(routes, group) ==> exists|tokens: Seq<Token<Piece>>|
            {
                &&& tokens.len() == group.len()
                &&& gear_split(routes, group) == #[trigger] runs_of(tokens)
                &&& forall|i: int|
                    0 <= i < group.len() ==> if mostly_parked(routes[group[i].index as int]) {
                        (#[trigger] tokens[i]) is Boundary
                    } else {
                        tokens[i] == Token::Clip(whole_piece(routes, group[i]))
                    }
            },
{
    if group.len() > 1 && any_gear_states(routes, group) {
        let tokens = legacy_tokens(routes, group);
        assert(gear_split(routes, group) == runs_of(tokens));
    }
}

} // verus!
