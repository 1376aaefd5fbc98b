//! When a drive counts as one without a driver.

use crate::candidates::{clip_is_slow, drive_is_slow, evidence_is_current, is_candidate, suspects};
use crate::extract::flag_frames_before;
use crate::float::{
    F64, HALF64, fceil, fdiv, fle, flt, fmul, from_int, is_finite, is_nan, is_negative, rank,
    whole_part, zero,
};
use crate::list::drive_files;
use crate::nearness::{
    grain, lemma_near_int, lemma_near_quotient, lemma_within_int, lemma_within_more, within,
};
use crate::rounding::{
    holds_units, lemma_between, lemma_from_int_exact, lemma_one, lemma_order, lemma_product,
    lemma_quotient, lemma_scaled_is_value, one, size_of,
};
use crate::store_laws::law_slow_edges_end_at_a_fast_file;
use crate::subclips::SubClipSummary;
use crate::summary::drive_is_summon;
use crate::summon::{
    Evidence, HAZARD, PEDAL, bookend_frames, drive_speed, evidence_speed, flags_show, is_summon,
    judgeable, pedal_in, run_carries, run_reaches, speed_within,
};
use crate::types::{FlagRun, RouteSummary};
use vstd::prelude::*;

verus! {

/// Frames in front of run `i`, and behind it.
pub proof fn law_flag_frames_add_up(runs: Seq<FlagRun>, i: int)
    requires
        0 <= i < runs.len(),
    ensures
        flag_frames_before(runs, 0) == 0,
        flag_frames_before(runs, i + 1) == flag_frames_before(runs, i) + runs[i].frames,
{
}

/// Run `i` holds one of the frames `from..to`.
pub open spec fn holds_frames(runs: Seq<FlagRun>, i: int, from: int, to: int) -> bool {
    &&& 0 <= i < runs.len()
    &&& flag_frames_before(runs, i) < to
    &&& from < flag_frames_before(runs, i) + runs[i].frames
}

/// Every run of the drive's frames of clip `e` has a finite speed of at most `v`.
pub open spec fn no_faster_than(e: Evidence, v: F64) -> bool {
    forall|i: int|
        #[trigger] holds_frames(e.runs, i, e.start, e.end) ==> (e.runs[i].max_mps matches Some(m)
            && is_finite(m) && fle(m, v))
}

/// Some run of the drive's frames of clip `e` has the speed `v`.
pub open spec fn reaches_speed(e: Evidence, v: F64) -> bool {
    exists|i: int| #[trigger] holds_frames(e.runs, i, e.start, e.end) && e.runs[i].max_mps == Some(v)
}

/// Some run of the drive's frames of clip `e` has no finite speed.
pub open spec fn lacks_speed(e: Evidence) -> bool {
    exists|i: int|
        #[trigger] holds_frames(e.runs, i, e.start, e.end) && !(e.runs[i].max_mps matches Some(m)
            && is_finite(m))
}

proof fn lemma_speed_within(e: Evidence, n: int)
    requires
        0 <= n <= e.runs.len(),
    ensures
        match speed_within(e.runs, e.start, e.end, n) {
            Some(v) => {
                &&& fle(zero(), v)
                &&& forall|i: int|
                    #[trigger] holds_frames(e.runs, i, e.start, e.end) && i < n ==> (
                    e.runs[i].max_mps matches Some(m) && is_finite(m) && fle(m, v))
                &&& v == zero() || exists|i: int|
                    #[trigger] holds_frames(e.runs, i, e.start, e.end) && i < n && e.runs[i].max_mps
                        == Some(v)
            },
            None => exists|i: int|
                #[trigger] holds_frames(e.runs, i, e.start, e.end) && i < n && !(
                e.runs[i].max_mps matches Some(m) && is_finite(m)),
        },
    decreases n,
{
    if n > 0 {
        lemma_speed_within(e, n - 1);
        let k = n - 1;
        assert(run_reaches(e.runs, k, e.start, e.end) == holds_frames(e.runs, k, e.start, e.end));
        let before = speed_within(e.runs, e.start, e.end, k);
        let now = speed_within(e.runs, e.start, e.end, n);
        if before is None {
            let i = choose|i: int|
                #[trigger] holds_frames(e.runs, i, e.start, e.end) && i < k && !(
                e.runs[i].max_mps matches Some(m) && is_finite(m));
            assert(holds_frames(e.runs, i, e.start, e.end) && i < n);
        } else if now is None {
            assert(holds_frames(e.runs, k, e.start, e.end));
        } else if now != before {
            assert(holds_frames(e.runs, k, e.start, e.end));
        } else if now->0 != zero() {
            let i = choose|i: int|
                #[trigger] holds_frames(e.runs, i, e.start, e.end) && i < k && e.runs[i].max_mps
                    == before;
            assert(holds_frames(e.runs, i, e.start, e.end) && i < n);
        }
    }
}

/// `v` is the greatest speed of the drive's frames of all clips, or zero.
pub open spec fn is_exact_speed(clips: Seq<Evidence>, v: F64, n: int) -> bool {
    &&& fle(zero(), v)
    &&& forall|i: int| 0 <= i < n ==> no_faster_than(#[trigger] clips[i], v)
    &&& v == zero() || exists|i: int| 0 <= i < n && reaches_speed(#[trigger] clips[i], v)
}

proof fn lemma_drive_speed(clips: Seq<Evidence>, n: int)
    requires
        0 <= n <= clips.len(),
    ensures
        match drive_speed(clips, n) {
            Some(v) => is_exact_speed(clips, v, n),
            None => exists|i: int| 0 <= i < n && lacks_speed(#[trigger] clips[i]),
        },
    decreases n,
{
    if n > 0 {
        lemma_drive_speed(clips, n - 1);
        let e = clips[n - 1];
        lemma_speed_within(e, e.runs.len() as int);
        let before = drive_speed(clips, n - 1);
        let mine = evidence_speed(e);
        let now = drive_speed(clips, n);
        if mine is None {
            assert(lacks_speed(clips[n - 1]));
        } else if before is None {
            let i = choose|i: int| 0 <= i < n - 1 && lacks_speed(#[trigger] clips[i]);
            assert(lacks_speed(clips[i]));
        } else {
            let v = now->0;
            assert forall|i: int| 0 <= i < n implies no_faster_than(#[trigger] clips[i], v) by {
                if i < n - 1 {
                    assert(no_faster_than(clips[i], before->0));
                }
                let c = clips[i];
                assert forall|j: int| #[trigger] holds_frames(c.runs, j, c.start, c.end) implies (
                c.runs[j].max_mps matches Some(m) && is_finite(m) && fle(m, v)) by {}
            }
            if v != zero() {
                if now == mine {
                    assert(reaches_speed(clips[n - 1], v));
                } else {
                    let i = choose|i: int| 0 <= i < n - 1 && reaches_speed(#[trigger] clips[i], before->0);
                    assert(reaches_speed(clips[i], v));
                }
            }
        }
    }
}

/// A pedal was touched in the drive's frames of the clip: one of the two pedal flags.
pub open spec fn touches_pedal(e: Evidence) -> bool {
    exists|i: int|
        #[trigger] holds_frames(e.runs, i, e.start, e.end) && e.runs[i].flags & 12u8 != 0
}

/// Both indicators are on in one of the frames `from..to`.
pub open spec fn hazards_in(e: Evidence, from: int, to: int) -> bool {
    exists|i: int| #[trigger] holds_frames(e.runs, i, from, to) && e.runs[i].flags & 3u8 == 3u8
}

proof fn lemma_flags(e: Evidence, from: int, to: int)
    ensures
        flags_show(e.runs, from, to, HAZARD, true) == hazards_in(e, from, to),
        flags_show(e.runs, e.start, e.end, PEDAL, false) == touches_pedal(e),
{
    if flags_show(e.runs, from, to, HAZARD, true) {
        let i = choose|i: int|
            0 <= i < e.runs.len() && run_reaches(e.runs, i, from, to) && run_carries(
                #[trigger] e.runs[i],
                HAZARD,
                true,
            );
        assert(holds_frames(e.runs, i, from, to));
    }
    if hazards_in(e, from, to) {
        let i = choose|i: int|
            #[trigger] holds_frames(e.runs, i, from, to) && e.runs[i].flags & 3u8 == 3u8;
        assert(run_carries(e.runs[i], HAZARD, true));
        assert(run_reaches(e.runs, i, from, to));
    }
    if flags_show(e.runs, e.start, e.end, PEDAL, false) {
        let i = choose|i: int|
            0 <= i < e.runs.len() && run_reaches(e.runs, i, e.start, e.end) && run_carries(
                #[trigger] e.runs[i],
                PEDAL,
                false,
            );
        assert(holds_frames(e.runs, i, e.start, e.end));
    }
    if touches_pedal(e) {
        let i = choose|i: int|
            #[trigger] holds_frames(e.runs, i, e.start, e.end) && e.runs[i].flags & 12u8 != 0;
        assert(run_carries(e.runs[i], PEDAL, false));
        assert(run_reaches(e.runs, i, e.start, e.end));
    }
}

/// A speed of a summon: above zero, and at most four and a half metres per second.
pub open spec fn walking_pace(v: F64) -> bool {
    flt(zero(), v) && !flt(F64 { bits: 0x4012_0000_0000_0000 }, v)
}

/// A drive is a summon just where it lasts up to ten minutes, every clip has flags and
/// frames in it, no pedal is touched, the hazards show in the first ten seconds of its
/// first clip and in the last ten of its last, and it moves at walking pace: by the speed
/// of its own frames where all are known, and else by that of its clips, where recorded.
pub proof fn law_what_a_summon_is(
    clips: Seq<Evidence>,
    max_speed_mps: F64,
    duration_ms: int,
    has_sei_speeds: bool,
)
    requires
        clips.len() > 0,
    ensures
        is_summon(clips, max_speed_mps, duration_ms, has_sei_speeds) <==> ({
            let (first, last) = (clips[0], clips.last());
            let (a, b) = (bookend_frames(first.total), bookend_frames(last.total));
            &&& 0 < duration_ms <= 600_000
            &&& forall|i: int|
                0 <= i < clips.len() ==> (#[trigger] clips[i]).runs.len() > 0 && clips[i].total != 0
                    && clips[i].start < clips[i].end
            &&& forall|i: int| 0 <= i < clips.len() ==> !touches_pedal(#[trigger] clips[i])
            &&& hazards_in(
                first,
                first.start,
                if first.start + a < first.end {
                    first.start + a
                } else {
                    first.end
                },
            )
            &&& hazards_in(
                last,
                if last.end - b > last.start {
                    last.end - b
                } else {
                    last.start
                },
                last.end,
            )
            &&& (exists|v: F64|
                #[trigger] is_exact_speed(clips, v, clips.len() as int) && walking_pace(v)) || (
            has_sei_speeds && walking_pace(max_speed_mps) && exists|i: int|
                0 <= i < clips.len() && lacks_speed(#[trigger] clips[i]))
        }),
{
    let n = clips.len() as int;
    let (first, last) = (clips[0], clips.last());
    let (a, b) = (bookend_frames(first.total), bookend_frames(last.total));
    lemma_drive_speed(clips, n);
    lemma_flags(
        first,
        first.start,
        if first.start + a < first.end {
            first.start + a
        } else {
            first.end
        },
    );
    lemma_flags(
        last,
        if last.end - b > last.start {
            last.end - b
        } else {
            last.start
        },
        last.end,
    );
    assert forall|i: int| 0 <= i < n implies pedal_in(#[trigger] clips[i]) == touches_pedal(clips[i]) by {
        lemma_flags(clips[i], 0, 0);
    }
    assert(clips[n - 1] == last);
    let exact = drive_speed(clips, n);
    if exact is Some {
        let v = exact->0;
        assert(is_exact_speed(clips, v, n));
        assert forall|i: int| 0 <= i < n implies !lacks_speed(#[trigger] clips[i]) by {
            assert(no_faster_than(clips[i], v));
        }
        assert forall|w: F64| #[trigger] is_exact_speed(clips, w, n) && walking_pace(w) implies walking_pace(v) by {
            lemma_same_speed(clips, v, w, n);
        }
    } else {
        let i = choose|i: int| 0 <= i < n && lacks_speed(#[trigger] clips[i]);
        assert forall|w: F64| !(#[trigger] is_exact_speed(clips, w, n)) by {
            if is_exact_speed(clips, w, n) {
                assert(no_faster_than(clips[i], w));
                let c = clips[i];
                let j = choose|j: int|
                    #[trigger] holds_frames(c.runs, j, c.start, c.end) && !(
                    c.runs[j].max_mps matches Some(m) && is_finite(m));
                assert(holds_frames(c.runs, j, c.start, c.end));
            }
        }
    }
    if is_summon(clips, max_speed_mps, duration_ms, has_sei_speeds) {
        assert forall|i: int| 0 <= i < n implies (#[trigger] clips[i]).runs.len() > 0 && clips[i].total != 0
            && clips[i].start < clips[i].end by {
            assert(judgeable(clips[i]));
        }
    }
}

proof fn lemma_same_speed(clips: Seq<Evidence>, v: F64, w: F64, n: int)
    requires
        is_exact_speed(clips, v, n),
        is_exact_speed(clips, w, n),
        flt(zero(), w),
    ensures
        rank(v) == rank(w),
        !is_nan(v),
{
    assert(w != zero());
    let i = choose|i: int| 0 <= i < n && reaches_speed(#[trigger] clips[i], w);
    let c = clips[i];
    let j = choose|j: int|
        #[trigger] holds_frames(c.runs, j, c.start, c.end) && c.runs[j].max_mps == Some(w);
    assert(no_faster_than(clips[i], v));
    assert(fle(w, v));
    assert(v != zero());
    let k = choose|k: int| 0 <= k < n && reaches_speed(#[trigger] clips[k], v);
    let d = clips[k];
    let l = choose|l: int|
        #[trigger] holds_frames(d.runs, l, d.start, d.end) && d.runs[l].max_mps == Some(v);
    assert(no_faster_than(clips[k], w));
    assert(fle(v, w));
}

/// Hazards are looked for in a sixth of the clip's frames, rounded up: ten seconds of its
/// minute.
pub proof fn law_bookends_last_ten_seconds(total: int)
    requires
        1 <= total <= u32::MAX,
    ensures
        6 * (bookend_frames(total) - 1) < total <= 6 * bookend_frames(total),
{
    let t = total as nat;
    let u = one();
    let g = grain();
    lemma_one();
    lemma_from_int_exact(t);
    lemma_from_int_exact(10);
    lemma_from_int_exact(1000);
    lemma_from_int_exact(60_000);
    let a = fmul(from_int(total), from_int(10));
    lemma_exact_product(t, 10);
    assert(t * 10 == 10 * t);
    assert(a == from_int((10 * t) as int));
    lemma_exact_product(10 * t, 1000);
    let b = fmul(a, from_int(1000));
    let n = 10_000 * t;
    assert((10 * t) * 1000 == n);
    assert(b == from_int(n as int));
    lemma_from_int_exact(n);
    let q = fdiv(b, from_int(60_000));
    // Near a sixth of the frames.
    lemma_near_int(n);
    lemma_near_int(60_000);
    lemma_within_sixty(n);
    assert(holds_units(b, n * u));
    assert(holds_units(from_int(n as int), n * u));
    lemma_same_units(b, from_int(n as int));
    lemma_within_int(60_000);
    lemma_within_more(60_000, 1, 32, 400);
    assert(0nat * 0 == 0);
    lemma_near_quotient(b, from_int(60_000), n, 1, 60_000, 1, 0, 0, 400);
    let s = size_of(q);
    assert(n * 1 == n && 1 * 60_000 == 60_000nat);
    assert(g * (s * 60_000) <= (g + 4) * (n * u) && g * (n * u) <= g * (s * 60_000) + 4 * (n * u));
    let k = t / 6;
    let rest = t % 6;
    if rest == 0 {
        lemma_scaled_is_value(k, 1074);
        let y = 60_000 * u;
        assert((k * u) * y == (n * u) * u) by (nonlinear_arith)
            requires
                n == 10_000 * t,
                t == 6 * k,
                y == 60_000 * u,
        ;
        lemma_quotient(b, from_int(60_000), n * u, y, k * u, k * u);
        assert(s == k * u);
    } else {
        assert(k * u < s && s < (k + 1) * u) by (nonlinear_arith)
            requires
                g * (s * 60_000) <= (g + 4) * (n * u),
                g * (n * u) <= g * (s * 60_000) + 4 * (n * u),
                n == 10_000 * t,
                t == 6 * k + rest,
                1 <= rest <= 5,
                t <= 0xFFFF_FFFF,
                g == 0x20_0000_0000_0000,
                u > 0,
        ;
    }
    // Rounded up.
    reveal(fceil);
    let m = ((s + u - 1) as nat) / u;
    vstd::arithmetic::div_mod::lemma_fundamental_div_mod(s + u - 1, u as int);
    vstd::arithmetic::div_mod::lemma_mod_bound(s + u - 1, u as int);
    let over = ((s + u - 1) % (u as int)) as nat;
    assert(s + u - 1 == u * m + over && over < u);
    let up: nat = if rest == 0 {
        k
    } else {
        k + 1
    };
    assert(m == up) by (nonlinear_arith)
        requires
            s + u - 1 == u * m + over,
            over < u,
            u > 0,
            rest == 0 ==> s == k * u && up == k,
            rest != 0 ==> k * u < s < (k + 1) * u && up == k + 1,
    ;
    lemma_scaled_is_value(m, 1074);
    lemma_between(m * u, 1, m * u, m * u);
    reveal(whole_part);
    assert(m * u == u * m) by (nonlinear_arith);
    vstd::arithmetic::div_mod::lemma_div_multiples_vanish(m as int, u as int);
}

proof fn lemma_exact_product(a: nat, b: nat)
    requires
        a * b < 2 * HALF64,
        a < 2 * HALF64,
        b < 2 * HALF64,
    ensures
        fmul(from_int(a as int), from_int(b as int)) == from_int((a * b) as int),
{
    let u = one();
    lemma_one();
    lemma_from_int_exact(a);
    lemma_from_int_exact(b);
    lemma_from_int_exact(a * b);
    let v = (a * b) * u;
    lemma_scaled_is_value(a * b, 1074);
    assert((a * u) * (b * u) == v * u) by (nonlinear_arith)
        requires
            v == (a * b) * u,
    ;
    lemma_product(from_int(a as int), from_int(b as int), a * u, b * u, v, v);
    lemma_same_units(fmul(from_int(a as int), from_int(b as int)), from_int((a * b) as int));
}

/// Numbers not below zero with the same units are the same.
proof fn lemma_same_units(a: F64, b: F64)
    requires
        !is_negative(a),
        !is_negative(b),
        is_finite(a),
        is_finite(b),
        size_of(a) == size_of(b),
    ensures
        a == b,
{
    lemma_order(a, b);
    lemma_order(b, a);
    assert(rank(a) == rank(b));
}

proof fn lemma_within_sixty(n: nat)
    requires
        1 <= n <= 10_000 * 0xFFFF_FFFFnat,
    ensures
        within(n, 1, 400),
{
    vstd::arithmetic::power2::lemma2_to64();
    vstd::arithmetic::power2::lemma2_to64_rest();
    vstd::arithmetic::power2::lemma_pow2_strictly_increases(64, 400);
    assert(n * vstd::arithmetic::power2::pow2(400) >= 1) by (nonlinear_arith)
        requires
            n >= 1,
            vstd::arithmetic::power2::pow2(400) >= 1,
    ;
}

/// A clip is slow where its recorded speeds, or else its sampled ones, never pass four and
/// a half metres per second; one without speeds is not.
pub proof fn law_slow_clips_never_pass_walking_pace(r: RouteSummary)
    ensures
        r.aggregates.sei_speed_abs_max is Some ==> (clip_is_slow(r) <==> fle(
            r.aggregates.sei_speed_abs_max->0,
            F64 { bits: 0x4012_0000_0000_0000 },
        )),
        r.aggregates.sei_speed_abs_max is None ==> (clip_is_slow(r)
            <==> r.aggregates.speed_sample_count > 0 && fle(
            r.aggregates.max_speed_mps,
            F64 { bits: 0x4012_0000_0000_0000 },
        )),
        evidence_is_current(r) <==> r.flag_runs@.len() > 0 && !(exists|i: int|
            0 <= i < r.flag_runs@.len() && !((#[trigger] r.flag_runs@[i]).max_mps is Some && is_finite(
                r.flag_runs@[i].max_mps->0,
            ))),
{
}

/// A drive that is flagged already, or came from elsewhere, has no suspects; all files of a
/// slow drive are; of another only those at its edges, each file of it at most once per
/// edge.
pub proof fn law_suspects_are_slow_or_at_an_edge(s: Seq<RouteSummary>, c: Seq<SubClipSummary>)
    requires
        c.len() > 0,
    ensures
        ({
            let files = drive_files(s, c, c.len() as int);
            let first = s[c[0].summary as int];
            &&& drive_is_summon(s, c) ==> suspects(s, c).len() == 0 && !is_candidate(s, c)
            &&& first.source is Some && first.source->0@ != "sei"@ ==> suspects(s, c).len() == 0
                && !is_candidate(s, c)
            &&& !drive_is_summon(s, c) && (first.source is None || first.source->0@ == "sei"@)
                && drive_is_slow(s, c) ==> suspects(s, c) == files && is_candidate(s, c)
            &&& !drive_is_slow(s, c) ==> suspects(s, c).len() <= 20
        }),
{
    let files = drive_files(s, c, c.len() as int);
    law_slow_edges_end_at_a_fast_file(s, files, 0);
    law_slow_edges_end_at_a_fast_file(s, files.reverse(), 0);
}

} // verus!
