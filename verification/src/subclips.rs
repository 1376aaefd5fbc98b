//! Stored clips without point data, grouped into drives.

use crate::aggregate::frames_before;
use crate::calc::{PARK_MAJORITY_FRACTION, lit};
use crate::clock::{move_by, shifted};
use crate::float::{F64, fdiv, flt, fmul, from_int, fround, to_int};
use crate::gapfill::{row_has_driving, row_shows_driving, run_in_gear, telemetry_gear_driving};
use crate::grouper::{
    all_by_signature, append_by_signature, lemma_signature_members, member_of_some,
};
use crate::split::{
    FrameSeg, Sourced, Token, all_parked, any_parked, clip_frames, clip_segs, frame_seconds,
    frame_segments, frames_fit, has_only_parked, has_parked, law_segments_tile_the_clip,
    lemma_frames_nonnegative, runs_between, runs_of, sig_views, sources_below, tiles,
};
use crate::timeline::{
    ClipKey, Key, Timed, build_time_line, indices_below, key_views, split_at_pauses, stretches,
    time_line, views,
};
use crate::types::{GearRun, RouteSummary};
use vstd::prelude::*;

verus! {

/// A clip of a drive, or the stretch of one between two Park gaps. Scalars of the
/// clip count for it by its share of the frames.
#[derive(Clone, Copy, Debug, PartialEq, Eq, Structural)]
pub struct SubClipSummary {
    /// Position of the stored clip.
    pub summary: usize,
    /// Time at which the stretch starts.
    pub ts: i64,
    pub start_frame: u32,
    pub end_frame: u32,
    /// Frames of the clip; 1 where none were recorded.
    pub total_frames: u32,
    /// Share of the clip's frames.
    pub fraction: F64,
}

impl Sourced for SubClipSummary {
    open spec fn spec_source(&self) -> usize {
        self.summary
    }

    fn source(&self) -> (r: usize) {
        self.summary
    }
}

/// Frame counts of every clip are in range.
pub open spec fn summaries_fit(summaries: Seq<RouteSummary>) -> bool {
    forall|i: int| 0 <= i < summaries.len() ==> frames_fit((#[trigger] summaries[i]).gear_runs@)
}

pub open spec fn summary_drives(s: RouteSummary) -> bool {
    row_shows_driving(
        s.gear_runs@,
        s.raw_park_count,
        s.raw_frame_count,
        s.aggregates.max_speed_mps,
    )
}

/// The telemetry of a clip without point data shows driving.
pub fn summary_has_driving(s: &RouteSummary) -> (b: bool)
    ensures
        b == summary_drives(*s),
{
    row_has_driving(
        s.gear_runs.as_slice(),
        s.raw_park_count,
        s.raw_frame_count,
        s.aggregates.max_speed_mps,
    )
}

/// What the time line reads of the clips.
pub open spec fn keys_of_summaries(summaries: Seq<RouteSummary>) -> Seq<Key> {
    Seq::new(
        summaries.len(),
        |i: int|
            Key {
                file: summaries[i].file@,
                driving: summary_drives(summaries[i]),
                gear_driving: run_in_gear(summaries[i].gear_runs@),
            },
    )
}

fn summary_keys<'a>(summaries: &'a [RouteSummary]) -> (keys: Vec<ClipKey<'a>>)
    ensures
        key_views(keys@) == keys_of_summaries(summaries@),
{
    let mut out: Vec<ClipKey<'a>> = Vec::new();
    let none: Vec<u8> = Vec::new();
    let mut i: usize = 0;
    while i < summaries.len()
        invariant
            i <= summaries.len(),
            none@.len() == 0,
            key_views(out@) =~= keys_of_summaries(summaries@).take(i as int),
        decreases summaries.len() - i,
    {
        let s: &'a RouteSummary = &summaries[i];
        let ghost before = key_views(out@);
        out.push(
            ClipKey {
                file: s.file.as_str(),
                driving: summary_has_driving(s),
                gear_driving: telemetry_gear_driving(s.gear_runs.as_slice(), &none),
            },
        );
        proof {
            assert(key_views(out@) =~= before.push(keys_of_summaries(summaries@)[i as int]));
        }
        i = i + 1;
    }
    proof {
        assert(keys_of_summaries(summaries@).take(summaries@.len() as int) =~= keys_of_summaries(summaries@));
    }
    out
}

// ---------------------------------------------------------------------------
// Park
// ---------------------------------------------------------------------------

/// All of a clip.
pub open spec fn whole_sub(summaries: Seq<RouteSummary>, t: Timed) -> SubClipSummary {
    let runs = summaries[t.index as int].gear_runs@;
    let sum = frames_before(runs, runs.len() as int);
    let total = if sum > 0 {
        sum as u32
    } else {
        1
    };
    SubClipSummary {
        summary: t.index,
        ts: t.ts,
        start_frame: 0,
        end_frame: total,
        total_frames: total,
        fraction: from_int(1),
    }
}

/// The stretch `seg` of a clip of `total` frames. It starts as many milliseconds
/// into the clip as the frames before it last.
pub open spec fn sub_of_seg(t: Timed, seg: FrameSeg, total: int) -> SubClipSummary {
    SubClipSummary {
        summary: t.index,
        ts: shifted(
            t.ts as int,
            to_int(
                fround(
                    fmul(
                        fmul(from_int(seg.start as int), frame_seconds(total)),
                        from_int(1000),
                    ),
                ),
                i64::MIN as int,
                i64::MAX as int,
            ),
        ) as i64,
        start_frame: seg.start,
        end_frame: seg.end,
        total_frames: total as u32,
        fraction: fdiv(from_int(seg.end - seg.start), from_int(total)),
    }
}

/// A clip as stretches and Park boundaries. One without frames, or without a Park
/// gap, stays whole; one that is nothing but Park gaps is a boundary.
pub open spec fn sub_tokens(summaries: Seq<RouteSummary>, t: Timed) -> Seq<Token<SubClipSummary>> {
    let runs = summaries[t.index as int].gear_runs@;
    let total = frames_before(runs, runs.len() as int);
    let segs = clip_segs(runs);
    if total == 0 {
        seq![Token::Clip(whole_sub(summaries, t))]
    } else if all_parked(segs) {
        seq![Token::Boundary]
    } else if !any_parked(segs) {
        seq![Token::Clip(whole_sub(summaries, t))]
    } else {
        Seq::new(
            segs.len(),
            |i: int|
                if segs[i].parked {
                    Token::Boundary
                } else {
                    Token::Clip(sub_of_seg(t, segs[i], total))
                },
        )
    }
}

/// The first `n` clips of a group as stretches and Park boundaries.
pub open spec fn all_sub_tokens(summaries: Seq<RouteSummary>, group: Seq<Timed>, n: int) -> Seq<
    Token<SubClipSummary>,
>
    decreases n,
{
    if n <= 0 {
        Seq::empty()
    } else {
        all_sub_tokens(summaries, group, n - 1) + sub_tokens(summaries, group[n - 1])
    }
}

/// More than half of a clip's raw frames are Park.
pub open spec fn mostly_parked_raw(s: RouteSummary) -> bool {
    s.raw_frame_count > 0 && flt(
        lit(PARK_MAJORITY_FRACTION),
        fdiv(from_int(s.raw_park_count as int), from_int(s.raw_frame_count as int)),
    )
}

pub open spec fn legacy_sub_tokens(summaries: Seq<RouteSummary>, group: Seq<Timed>) -> Seq<
    Token<SubClipSummary>,
> {
    Seq::new(
        group.len(),
        |i: int|
            if mostly_parked_raw(summaries[group[i].index as int]) {
                Token::Boundary
            } else {
                Token::Clip(whole_sub(summaries, group[i]))
            },
    )
}

pub open spec fn whole_subs(summaries: Seq<RouteSummary>, group: Seq<Timed>) -> Seq<SubClipSummary> {
    Seq::new(group.len(), |i: int| whole_sub(summaries, group[i]))
}

pub open spec fn any_summary_runs(summaries: Seq<RouteSummary>, group: Seq<Timed>) -> bool {
    exists|i: int|
        0 <= i < group.len() && summaries[(#[trigger] group[i]).index as int].gear_runs@.len() > 0
}

/// A group of clips cut at Park. Without gear runs a clip mostly in Park is a
/// boundary, unless it is alone. Where nothing but Park is left, nothing is.
pub open spec fn sub_split(summaries: Seq<RouteSummary>, group: Seq<Timed>) -> Seq<
    Seq<SubClipSummary>,
> {
    if group.len() == 0 {
        Seq::empty()
    } else if any_summary_runs(summaries, group) {
        runs_of(all_sub_tokens(summaries, group, group.len() as int))
    } else if group.len() == 1 {
        seq![whole_subs(summaries, group)]
    } else {
        runs_of(legacy_sub_tokens(summaries, group))
    }
}

/// The stretch lies within its clip.
pub open spec fn sub_fits(n: int, c: SubClipSummary) -> bool {
    c.summary < n && c.start_frame <= c.end_frame <= c.total_frames && c.total_frames > 0
}

pub open spec fn subs_fit(n: int, cs: Seq<SubClipSummary>) -> bool {
    forall|i: int| 0 <= i < cs.len() ==> sub_fits(n, #[trigger] cs[i])
}

pub open spec fn sub_tokens_fit(n: int, ts: Seq<Token<SubClipSummary>>) -> bool {
    forall|i: int| 0 <= i < ts.len() ==> ((#[trigger] ts[i]) matches Token::Clip(c) ==> sub_fits(n, c))
}

/// A clip that a drive takes whole.
pub fn whole_clip(summaries: &[RouteSummary], t: Timed) -> (c: SubClipSummary)
    requires
        t.index < summaries@.len(),
        summaries_fit(summaries@),
    ensures
        c == whole_sub(summaries@, t),
        sub_fits(summaries@.len() as int, c),
{
    let runs: &[GearRun] = summaries[t.index].gear_runs.as_slice();
    let sum: u32 = clip_frames(runs);
    let total: u32 = if sum > 0 {
        sum
    } else {
        1
    };
    SubClipSummary {
        summary: t.index,
        ts: t.ts,
        start_frame: 0,
        end_frame: total,
        total_frames: total,
        fraction: F64::of_u64(1),
    }
}

proof fn lemma_segs_within(runs: Seq<GearRun>)
    requires
        frames_fit(runs),
    ensures
        forall|i: int|
            0 <= i < clip_segs(runs).len() ==> (#[trigger] clip_segs(runs)[i]).start <= clip_segs(
                runs,
            )[i].end <= frames_before(runs, runs.len() as int),
{
    let total = frames_before(runs, runs.len() as int);
    let segs = clip_segs(runs);
    law_segments_tile_the_clip(runs, total, runs.len() as int);
    assert forall|i: int| 0 <= i < segs.len() implies (#[trigger] segs[i]).start <= segs[i].end
        <= total by {
        lemma_tile_ends(segs, total, i);
    }
}

proof fn lemma_tile_ends(segs: Seq<FrameSeg>, total: int, i: int)
    requires
        tiles(segs, total),
        0 <= i < segs.len(),
    ensures
        segs[i].end <= total,
    decreases segs.len() - i,
{
    if i < segs.len() - 1 {
        lemma_tile_ends(segs, total, i + 1);
        assert(segs[i + 1 - 1].end == segs[i + 1].start);
        assert(segs[i + 1].start <= segs[i + 1].end);
    }
}

fn clip_sub_tokens(summaries: &[RouteSummary], t: Timed) -> (r: Vec<Token<SubClipSummary>>)
    requires
        t.index < summaries@.len(),
        summaries_fit(summaries@),
    ensures
        r@ == sub_tokens(summaries@, t),
        sub_tokens_fit(summaries@.len() as int, r@),
{
    let mut out: Vec<Token<SubClipSummary>> = Vec::new();
    let runs: &[GearRun] = summaries[t.index].gear_runs.as_slice();
    let total: u32 = clip_frames(runs);
    proof {
        assert(frames_fit(summaries@[t.index as int].gear_runs@));
        lemma_frames_nonnegative(runs@, 0, runs@.len() as int);
    }
    if total == 0 {
        out.push(Token::Clip(whole_clip(summaries, t)));
        proof {
            assert(out@ =~= sub_tokens(summaries@, t));
        }
        return out;
    }
    let segs: Vec<FrameSeg> = frame_segments(runs, total);
    if has_only_parked(&segs) {
        out.push(Token::Boundary);
        proof {
            assert(out@ =~= sub_tokens(summaries@, t));
        }
        return out;
    }
    if !has_parked(&segs) {
        out.push(Token::Clip(whole_clip(summaries, t)));
        proof {
            assert(out@ =~= sub_tokens(summaries@, t));
        }
        return out;
    }
    proof {
        lemma_segs_within(runs@);
    }
    let spf: F64 = F64::of_u64(60).over(F64::of_u32(total));
    let mut i: usize = 0;
    while i < segs.len()
        invariant
            i <= segs.len(),
            t.index < summaries@.len(),
            total > 0,
            spf == frame_seconds(total as int),
            forall|k: int|
                0 <= k < segs@.len() ==> (#[trigger] segs@[k]).start <= segs@[k].end <= total,
            out@.len() == i,
            forall|k: int|
                0 <= k < i ==> #[trigger] out@[k] == (if segs@[k].parked {
                    Token::Boundary
                } else {
                    Token::Clip(sub_of_seg(t, segs@[k], total as int))
                }),
            sub_tokens_fit(summaries@.len() as int, out@),
        decreases segs.len() - i,
    {
        let seg: FrameSeg = segs[i];
        proof {
            assert(segs@[i as int].start <= segs@[i as int].end);
        }
        if seg.parked {
            out.push(Token::Boundary);
        } else {
            let offset: i64 = F64::of_u32(seg.start).times(spf).times(
                F64::of_u64(1000),
            ).round().to_i64();
            out.push(
                Token::Clip(
                    SubClipSummary {
                        summary: t.index,
                        ts: move_by(t.ts, offset),
                        start_frame: seg.start,
                        end_frame: seg.end,
                        total_frames: total,
                        fraction: F64::of_u32(seg.end - seg.start).over(F64::of_u32(total)),
                    },
                ),
            );
        }
        i = i + 1;
    }
    proof {
        assert(out@ =~= sub_tokens(summaries@, t));
    }
    out
}

fn cut_subs(n: usize, tokens: &[Token<SubClipSummary>]) -> (r: Vec<Vec<SubClipSummary>>)
    requires
        sub_tokens_fit(n as int, tokens@),
    ensures
        views(r@) == runs_of(tokens@),
        forall|i: int|
            0 <= i < r@.len() ==> (#[trigger] r@[i])@.len() > 0 && subs_fit(n as int, r@[i]@),
{
    let r: Vec<Vec<SubClipSummary>> = runs_between(tokens);
    proof {
        assert forall|i: int| 0 <= i < r@.len() implies (#[trigger] r@[i])@.len() > 0 && subs_fit(
            n as int,
            r@[i]@,
        ) by {
            assert forall|j: int| 0 <= j < r@[i]@.len() implies sub_fits(
                n as int,
                #[trigger] r@[i]@[j],
            ) by {
                let k = choose|k: int|
                    0 <= k < tokens@.len() && tokens@[k] == Token::Clip(r@[i]@[j]);
                assert(tokens@[k] == Token::Clip(r@[i]@[j]));
            }
        }
    }
    r
}

fn split_summary_by_gear_state_legacy(summaries: &[RouteSummary], group: &[Timed]) -> (r: Vec<
    Vec<SubClipSummary>,
>)
    requires
        indices_below(group@, summaries@.len() as int),
        summaries_fit(summaries@),
        group@.len() > 0,
    ensures
        views(r@) == if group@.len() == 1 {
            seq![whole_subs(summaries@, group@)]
        } else {
            runs_of(legacy_sub_tokens(summaries@, group@))
        },
        forall|i: int|
            0 <= i < r@.len() ==> (#[trigger] r@[i])@.len() > 0 && subs_fit(
                summaries@.len() as int,
                r@[i]@,
            ),
{
    if group.len() == 1 {
        let mut one: Vec<SubClipSummary> = Vec::new();
        one.push(whole_clip(summaries, group[0]));
        proof {
            assert(one@ =~= whole_subs(summaries@, group@));
        }
        let mut out: Vec<Vec<SubClipSummary>> = Vec::new();
        out.push(one);
        proof {
            assert(views(out@) =~= seq![whole_subs(summaries@, group@)]);
        }
        return out;
    }
    let mut tokens: Vec<Token<SubClipSummary>> = Vec::new();
    let mut i: usize = 0;
    while i < group.len()
        invariant
            i <= group.len(),
            summaries_fit(summaries@),
            indices_below(group@, summaries@.len() as int),
            tokens@ =~= legacy_sub_tokens(summaries@, group@).take(i as int),
            sub_tokens_fit(summaries@.len() as int, tokens@),
        decreases group.len() - i,
    {
        let t: Timed = group[i];
        let s: &RouteSummary = &summaries[t.index];
        let parked: bool = s.raw_frame_count > 0 && F64::from_bits(PARK_MAJORITY_FRACTION).lt(
            F64::of_u32(s.raw_park_count).over(F64::of_u32(s.raw_frame_count)),
        );
        if parked {
            tokens.push(Token::Boundary);
        } else {
            tokens.push(Token::Clip(whole_clip(summaries, t)));
        }
        i = i + 1;
    }
    proof {
        assert(legacy_sub_tokens(summaries@, group@).take(group@.len() as int)
            =~= legacy_sub_tokens(summaries@, group@));
    }
    cut_subs(summaries.len(), &tokens)
}

/// Cuts a group of clips wherever the car stands in Park for two seconds or more,
/// inside clips too.
fn split_summary_by_gear_state(summaries: &[RouteSummary], group: &[Timed]) -> (r: Vec<
    Vec<SubClipSummary>,
>)
    requires
        indices_below(group@, summaries@.len() as int),
        summaries_fit(summaries@),
    ensures
        views(r@) == sub_split(summaries@, group@),
        forall|i: int|
            0 <= i < r@.len() ==> (#[trigger] r@[i])@.len() > 0 && subs_fit(
                summaries@.len() as int,
                r@[i]@,
            ),
{
    if group.len() == 0 {
        let r: Vec<Vec<SubClipSummary>> = Vec::new();
        proof {
            assert(views(r@) =~= sub_split(summaries@, group@));
        }
        return r;
    }
    let mut runs: bool = false;
    let mut h: usize = 0;
    while h < group.len() && !runs
        invariant
            h <= group.len(),
            indices_below(group@, summaries@.len() as int),
            runs ==> any_summary_runs(summaries@, group@),
            !runs ==> forall|i: int|
                0 <= i < h ==> summaries@[(#[trigger] group@[i]).index as int].gear_runs@.len() == 0,
        decreases group.len() - h,
    {
        if summaries[group[h].index].gear_runs.len() > 0 {
            proof {
                assert(summaries@[group@[h as int].index as int].gear_runs@.len() > 0);
            }
            runs = true;
        }
        h = h + 1;
    }
    if !runs {
        return split_summary_by_gear_state_legacy(summaries, group);
    }
    let mut tokens: Vec<Token<SubClipSummary>> = Vec::new();
    let mut i: usize = 0;
    proof {
        assert(tokens@ =~= all_sub_tokens(summaries@, group@, 0));
    }
    while i < group.len()
        invariant
            i <= group.len(),
            summaries_fit(summaries@),
            indices_below(group@, summaries@.len() as int),
            tokens@ == all_sub_tokens(summaries@, group@, i as int),
            sub_tokens_fit(summaries@.len() as int, tokens@),
        decreases group.len() - i,
    {
        let mut parts: Vec<Token<SubClipSummary>> = clip_sub_tokens(summaries, group[i]);
        tokens.append(&mut parts);
        i = i + 1;
    }
    cut_subs(summaries.len(), &tokens)
}

// ---------------------------------------------------------------------------
// Drives
// ---------------------------------------------------------------------------

/// The drives of the first `n` stretches.
pub open spec fn sub_drives_of(
    summaries: Seq<RouteSummary>,
    sigs: Seq<Option<Seq<char>>>,
    line: Seq<Seq<Timed>>,
    n: int,
) -> Seq<Seq<SubClipSummary>>
    decreases n,
{
    if n <= 0 {
        Seq::empty()
    } else {
        let g = sub_split(summaries, line[n - 1]);
        sub_drives_of(summaries, sigs, line, n - 1) + all_by_signature(sigs, g, g.len() as int)
    }
}

pub open spec fn summary_signatures(summaries: Seq<RouteSummary>) -> Seq<Option<Seq<char>>> {
    Seq::new(
        summaries.len(),
        |i: int|
            match summaries[i].external_signature {
                Some(s) => Some(s@),
                None => None,
            },
    )
}

/// The drives: clips in time, cut at pauses, then at Park, then by signature.
pub open spec fn sub_drives(summaries: Seq<RouteSummary>) -> Seq<Seq<SubClipSummary>> {
    let line = time_line(keys_of_summaries(summaries));
    let s = stretches(line, line.len() as int);
    sub_drives_of(summaries, summary_signatures(summaries), s, s.len() as int)
}

fn summary_signatures_of<'a>(summaries: &'a [RouteSummary]) -> (r: Vec<Option<&'a str>>)
    ensures
        sig_views(r@) == summary_signatures(summaries@),
{
    let mut out: Vec<Option<&'a str>> = Vec::new();
    let mut i: usize = 0;
    while i < summaries.len()
        invariant
            i <= summaries.len(),
            sig_views(out@) =~= summary_signatures(summaries@).take(i as int),
        decreases summaries.len() - i,
    {
        let s: Option<&'a str> = match &summaries[i].external_signature {
            Some(t) => Some(t.as_str()),
            None => None,
        };
        let ghost before = sig_views(out@);
        out.push(s);
        proof {
            assert(sig_views(out@) =~= before.push(summary_signatures(summaries@)[i as int]));
        }
        i = i + 1;
    }
    proof {
        assert(summary_signatures(summaries@).take(summaries@.len() as int)
            =~= summary_signatures(summaries@));
    }
    out
}

/// Groups stored clips into drives. Members of a drive are named by the position
/// of their clip in `summaries`.
pub fn group_summary_clips(summaries: &[RouteSummary]) -> (r: Vec<Vec<SubClipSummary>>)
    requires
        summaries_fit(summaries@),
    ensures
        views(r@) == sub_drives(summaries@),
        forall|i: int|
            0 <= i < r@.len() ==> (#[trigger] r@[i])@.len() > 0 && subs_fit(
                summaries@.len() as int,
                r@[i]@,
            ),
{
    let keys: Vec<ClipKey> = summary_keys(summaries);
    let line: Vec<Timed> = build_time_line(&keys);
    let parts: Vec<Vec<Timed>> = split_at_pauses(&line);
    let sigs: Vec<Option<&str>> = summary_signatures_of(summaries);
    let ghost sv = summary_signatures(summaries@);
    let ghost pv = views(parts@);
    let ghost n = summaries@.len() as int;
    proof {
        assert(sig_views(sigs@).len() == sigs@.len());
    }
    let mut out: Vec<Vec<SubClipSummary>> = Vec::new();
    let mut i: usize = 0;
    proof {
        assert(views(out@) =~= sub_drives_of(summaries@, sv, pv, 0));
    }
    while i < parts.len()
        invariant
            i <= parts.len(),
            n == summaries@.len(),
            summaries_fit(summaries@),
            sv == summary_signatures(summaries@),
            sig_views(sigs@) == sv,
            sigs@.len() == n,
            pv == views(parts@),
            indices_below(line@, n),
            forall|i: int, n: int|
                0 <= i < parts@.len() && #[trigger] indices_below(line@, n) ==> indices_below(
                    (#[trigger] parts@[i])@,
                    n,
                ),
            views(out@) == sub_drives_of(summaries@, sv, pv, i as int),
            forall|i: int|
                0 <= i < out@.len() ==> (#[trigger] out@[i])@.len() > 0 && sources_below(
                    out@[i]@,
                    sigs@.len() as int,
                ) && subs_fit(n, out@[i]@),
        decreases parts.len() - i,
    {
        proof {
            assert(indices_below(parts@[i as int]@, n));
        }
        let g: Vec<Vec<SubClipSummary>> = split_summary_by_gear_state(
            summaries,
            parts[i].as_slice(),
        );
        proof {
            assert forall|k: int| 0 <= k < g@.len() implies (#[trigger] g@[k])@.len() > 0
                && sources_below(g@[k]@, sigs@.len() as int) by {
                assert forall|j: int| 0 <= j < g@[k]@.len() implies (
                #[trigger] g@[k]@[j]).spec_source() < sigs@.len() by {
                    assert(sub_fits(n, g@[k]@[j]));
                }
            }
        }
        let ghost before = views(out@);
        let ghost old_out = out@;
        append_by_signature(&sigs, &g, &mut out);
        proof {
            assert(pv[i as int] == parts@[i as int]@);
            lemma_signature_members(sv, views(g@), g@.len() as int);
            let add = all_by_signature(sv, views(g@), g@.len() as int);
            assert(views(out@) == before + add);
            assert(views(out@).len() == out@.len());
            assert(before.len() == old_out.len());
            assert forall|k: int| 0 <= k < out@.len() implies subs_fit(n, (#[trigger] out@[k])@) by {
                assert(views(out@)[k] == out@[k]@);
                if k < before.len() {
                    assert(before[k] == old_out[k]@);
                    assert(out@[k]@ == old_out[k]@);
                } else {
                    let q = k - before.len();
                    assert(add[q] == out@[k]@);
                    assert forall|j: int| 0 <= j < out@[k]@.len() implies sub_fits(
                        n,
                        #[trigger] out@[k]@[j],
                    ) by {
                        assert(member_of_some(views(g@), add[q][j]));
                        let (a, b) = choose|a: int, b: int|
                            0 <= a < views(g@).len() && 0 <= b < views(g@)[a].len()
                                && #[trigger] views(g@)[a][b] == add[q][j];
                        assert(g@[a]@[b] == add[q][j]);
                        assert(sub_fits(n, g@[a]@[b]));
                    }
                }
            }
        }
        i = i + 1;
    }
    out
}

} // verus!
