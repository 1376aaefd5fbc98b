//! Cutting clips at Park, and groups of clips at boundaries and by signature.

use crate::aggregate::{frames_before, total_frames};
use crate::float::{F64, fdiv, fle, fmul, from_int, fround, to_int};
use crate::rounding::lemma_shares_in_order;
use crate::text::{copy_range, same_text};
use crate::timeline::{joined, views};
use crate::types::{GEAR_PARK, GearRun};
use vstd::prelude::*;

verus! {

// ---------------------------------------------------------------------------
// Park inside a clip
// ---------------------------------------------------------------------------

/// A stretch of a clip's frames.
#[derive(Clone, Copy, Debug, PartialEq, Eq, Structural)]
pub struct FrameSeg {
    pub start: u32,
    pub end: u32,
    pub parked: bool,
}

/// The frame counts of `runs` add up within the range of a frame index.
pub open spec fn frames_fit(runs: Seq<GearRun>) -> bool {
    runs.len() <= i32::MAX && frames_before(runs, runs.len() as int) <= u32::MAX
}

/// Seconds that a frame lasts in a clip of `total` frames.
pub open spec fn frame_seconds(total: int) -> F64 {
    fdiv(from_int(60), from_int(total))
}

/// A run of two seconds or more in Park.
pub open spec fn park_gap(run: GearRun, total: int) -> bool {
    run.gear == GEAR_PARK && fle(from_int(2), fmul(from_int(run.frames as int), frame_seconds(total)))
}

/// The first `n` runs as stretches: every Park gap one, what lies between two of
/// them one.
pub open spec fn frame_segs(runs: Seq<GearRun>, total: int, n: int) -> Seq<FrameSeg>
    decreases n,
{
    if n <= 0 {
        Seq::empty()
    } else {
        let m = frame_segs(runs, total, n - 1);
        let here = FrameSeg {
            start: frames_before(runs, n - 1) as u32,
            end: frames_before(runs, n) as u32,
            parked: park_gap(runs[n - 1], total),
        };
        if m.len() > 0 && !m.last().parked && !here.parked {
            m.drop_last().push(FrameSeg { end: here.end, ..m.last() })
        } else {
            m.push(here)
        }
    }
}

/// The stretches of a whole clip.
pub open spec fn clip_segs(runs: Seq<GearRun>) -> Seq<FrameSeg> {
    frame_segs(runs, frames_before(runs, runs.len() as int), runs.len() as int)
}

pub open spec fn any_parked(segs: Seq<FrameSeg>) -> bool {
    exists|i: int| 0 <= i < segs.len() && (#[trigger] segs[i]).parked
}

pub open spec fn all_parked(segs: Seq<FrameSeg>) -> bool {
    forall|i: int| 0 <= i < segs.len() ==> (#[trigger] segs[i]).parked
}

/// The stretches follow each other without gap or overlap from frame 0 on, and a
/// Park stretch separates any two others.
pub open spec fn tiles(segs: Seq<FrameSeg>, total: int) -> bool {
    &&& segs.len() > 0 ==> segs[0].start == 0 && segs.last().end == total
    &&& forall|i: int| 0 <= i < segs.len() ==> (#[trigger] segs[i]).start <= segs[i].end
    &&& forall|i: int|
        1 <= i < segs.len() ==> segs[i - 1].end == (#[trigger] segs[i]).start && (segs[i
            - 1].parked || segs[i].parked)
}

pub proof fn lemma_frames_nonnegative(runs: Seq<GearRun>, i: int, j: int)
    requires
        0 <= i <= j <= runs.len(),
    ensures
        0 <= frames_before(runs, i) <= frames_before(runs, j),
    decreases j,
{
    if j > 0 {
        if i < j {
            lemma_frames_nonnegative(runs, i, j - 1);
        } else {
            lemma_frames_nonnegative(runs, i - 1, j - 1);
        }
    }
}

/// Whether the frames of a clip can be counted.
pub fn gear_runs_fit(runs: &[GearRun]) -> (b: bool)
    ensures
        b == frames_fit(runs@),
{
    let n: usize = runs.len();
    if n > 0x7FFF_FFFF {
        return false;
    }
    let mut t: u64 = 0;
    let mut i: usize = 0;
    while i < n
        invariant
            i <= n,
            n == runs@.len(),
            n <= i32::MAX,
            t == frames_before(runs@, i as int),
            t <= u32::MAX,
        decreases n - i,
    {
        t = t + runs[i].frames as u64;
        if t > 0xFFFF_FFFF {
            proof {
                lemma_frames_nonnegative(runs@, i + 1, n as int);
            }
            return false;
        }
        i = i + 1;
    }
    true
}

/// The stretches of a clip tile its frames.
pub proof fn law_segments_tile_the_clip(runs: Seq<GearRun>, total: int, n: int)
    requires
        0 <= n <= runs.len(),
        frames_before(runs, n) <= u32::MAX,
    ensures
        tiles(frame_segs(runs, total, n), frames_before(runs, n)),
        n > 0 ==> frame_segs(runs, total, n).len() > 0,
    decreases n,
{
    if n > 0 {
        lemma_frames_nonnegative(runs, 0, n - 1);
        lemma_frames_nonnegative(runs, n - 1, n);
        law_segments_tile_the_clip(runs, total, n - 1);
        let m = frame_segs(runs, total, n - 1);
        let s = frame_segs(runs, total, n);
        if m.len() > 0 {
            assert(m[m.len() - 1].start <= m[m.len() - 1].end);
        }
        if m.len() > 0 && s.len() == m.len() {
            let k = m.len() - 1;
            assert forall|i: int| 1 <= i < s.len() implies s[i - 1].end == (#[trigger] s[i]).start
                && (s[i - 1].parked || s[i].parked) by {
                assert(s[i - 1] == m[i - 1]);
                assert(m[i - 1].end == m[i].start);
                assert(s[i].start == m[i].start && s[i].parked == m[i].parked);
            }
            assert forall|i: int| 0 <= i < s.len() implies (#[trigger] s[i]).start <= s[i].end by {
                if i < k {
                    assert(s[i] == m[i]);
                }
            }
        } else {
            assert forall|i: int| 1 <= i < s.len() implies s[i - 1].end == (#[trigger] s[i]).start
                && (s[i - 1].parked || s[i].parked) by {
                assert(s[i - 1] == m[i - 1]);
                if i < m.len() {
                    assert(s[i] == m[i]);
                }
            }
            assert forall|i: int| 0 <= i < s.len() implies (#[trigger] s[i]).start <= s[i].end by {
                if i < m.len() {
                    assert(s[i] == m[i]);
                }
            }
        }
    }
}

/// The stretches of a clip of `total` frames.
pub fn frame_segments(runs: &[GearRun], total: u32) -> (segs: Vec<FrameSeg>)
    requires
        frames_fit(runs@),
        total == frames_before(runs@, runs@.len() as int),
    ensures
        segs@ == clip_segs(runs@),
{
    let spf: F64 = F64::of_u64(60).over(F64::of_u32(total));
    let mut segs: Vec<FrameSeg> = Vec::new();
    let mut frame: u32 = 0;
    let mut i: usize = 0;
    while i < runs.len()
        invariant
            i <= runs.len(),
            frames_fit(runs@),
            total == frames_before(runs@, runs@.len() as int),
            spf == frame_seconds(total as int),
            frame == frames_before(runs@, i as int),
            segs@ == frame_segs(runs@, total as int, i as int),
        decreases runs.len() - i,
    {
        proof {
            lemma_frames_nonnegative(runs@, i as int + 1, runs@.len() as int);
        }
        let next: u32 = frame + runs[i].frames;
        let parked: bool = runs[i].gear == GEAR_PARK && F64::of_u64(2).le(
            F64::of_u32(runs[i].frames).times(spf),
        );
        let n: usize = segs.len();
        if n > 0 && !segs[n - 1].parked && !parked {
            let last: FrameSeg = segs[n - 1];
            let ghost before = segs@;
            segs.set(n - 1, FrameSeg { start: last.start, end: next, parked: false });
            proof {
                assert(segs@ =~= before.drop_last().push(
                    FrameSeg { end: next, ..before.last() },
                ));
            }
        } else {
            segs.push(FrameSeg { start: frame, end: next, parked });
        }
        frame = next;
        i = i + 1;
    }
    segs
}

pub fn has_parked(segs: &[FrameSeg]) -> (b: bool)
    ensures
        b == any_parked(segs@),
{
    let mut i: usize = 0;
    while i < segs.len()
        invariant
            i <= segs.len(),
            forall|j: int| 0 <= j < i ==> !(#[trigger] segs@[j]).parked,
        decreases segs.len() - i,
    {
        if segs[i].parked {
            proof {
                assert(segs@[i as int].parked);
            }
            return true;
        }
        i = i + 1;
    }
    false
}

pub fn has_only_parked(segs: &[FrameSeg]) -> (b: bool)
    ensures
        b == all_parked(segs@),
{
    let mut i: usize = 0;
    while i < segs.len()
        invariant
            i <= segs.len(),
            forall|j: int| 0 <= j < i ==> (#[trigger] segs@[j]).parked,
        decreases segs.len() - i,
    {
        if !segs[i].parked {
            proof {
                assert(!segs@[i as int].parked);
            }
            return false;
        }
        i = i + 1;
    }
    true
}

/// Frames of a clip with a frame index in range.
pub fn clip_frames(runs: &[GearRun]) -> (t: u32)
    requires
        frames_fit(runs@),
    ensures
        t == frames_before(runs@, runs@.len() as int),
{
    total_frames(runs) as u32
}

// ---------------------------------------------------------------------------
// The points of a stretch
// ---------------------------------------------------------------------------

/// A planned fragment of a clip: a range of points and how many seconds into the
/// clip it starts, or a Park boundary.
#[derive(Clone, Copy, Debug, PartialEq, Eq, Structural)]
pub struct PlannedSeg {
    pub start: usize,
    pub end: usize,
    pub offset_secs: i64,
    pub parked: bool,
}

/// Share of the clip before `frame`.
pub open spec fn frame_share(frame: u32, total: int) -> F64 {
    fdiv(from_int(frame as int), from_int(total))
}

/// The point at a share of the clip.
pub open spec fn point_at(share: F64, n_points: int) -> int {
    to_int(fround(fmul(share, from_int(n_points))), 0, usize::MAX as int)
}

/// The fragment of a stretch; none where it is left without a point.
pub open spec fn planned(seg: FrameSeg, total: int, n_points: int) -> Option<PlannedSeg> {
    let a = point_at(frame_share(seg.start, total), n_points);
    let b = point_at(frame_share(seg.end, total), n_points);
    let start = if a < n_points {
        a
    } else if n_points > 0 {
        n_points - 1
    } else {
        0
    };
    let end = if b > n_points {
        n_points
    } else {
        b
    };
    if seg.parked {
        Some(PlannedSeg { start: 0, end: 0, offset_secs: 0, parked: true })
    } else if end <= start {
        None
    } else {
        Some(
            PlannedSeg {
                start: start as usize,
                end: end as usize,
                offset_secs: to_int(
                    fmul(frame_share(seg.start, total), from_int(60)),
                    i64::MIN as int,
                    i64::MAX as int,
                ) as i64,
                parked: false,
            },
        )
    }
}

/// The fragments of the first `k` stretches.
pub open spec fn planned_all(segs: Seq<FrameSeg>, total: int, n_points: int, k: int) -> Seq<
    PlannedSeg,
>
    decreases k,
{
    if k <= 0 {
        Seq::empty()
    } else {
        match planned(segs[k - 1], total, n_points) {
            Some(p) => planned_all(segs, total, n_points, k - 1).push(p),
            None => planned_all(segs, total, n_points, k - 1),
        }
    }
}

/// The fragments of a clip with `n_points` points; none where it stays whole.
pub open spec fn clip_plan(runs: Seq<GearRun>, n_points: int) -> Option<Seq<PlannedSeg>> {
    let total = frames_before(runs, runs.len() as int);
    let segs = clip_segs(runs);
    if total == 0 || !any_parked(segs) {
        None
    } else {
        Some(planned_all(segs, total, n_points, segs.len() as int))
    }
}

/// Ranges of points lie within the clip.
pub open spec fn plan_within(plan: Seq<PlannedSeg>, n_points: int) -> bool {
    forall|i: int|
        0 <= i < plan.len() ==> (#[trigger] plan[i]).parked || plan[i].start < plan[i].end
            <= n_points
}

fn plan_one(seg: FrameSeg, total: u32, n_points: usize) -> (r: Option<PlannedSeg>)
    ensures
        r == planned(seg, total as int, n_points as int),
{
    if seg.parked {
        return Some(PlannedSeg { start: 0, end: 0, offset_secs: 0, parked: true });
    }
    let t: F64 = F64::of_u32(total);
    let n: F64 = F64::of_usize(n_points);
    let from: F64 = F64::of_u32(seg.start).over(t);
    let to: F64 = F64::of_u32(seg.end).over(t);
    let mut start: usize = from.times(n).round().to_usize();
    let mut end: usize = to.times(n).round().to_usize();
    if start >= n_points {
        start = if n_points > 0 {
            n_points - 1
        } else {
            0
        };
    }
    if end > n_points {
        end = n_points;
    }
    if end <= start {
        return None;
    }
    Some(
        PlannedSeg { start, end, offset_secs: from.times(F64::of_u64(60)).to_i64(), parked: false },
    )
}

/// Plans the fragments of a clip at its Park gaps, from its gear runs and the
/// number of its points alone. `None`: the clip stays whole.
pub fn plan_clip_at_park_gaps(gear_runs: &[GearRun], n_points: usize) -> (r: Option<Vec<PlannedSeg>>)
    requires
        frames_fit(gear_runs@),
    ensures
        match (r, clip_plan(gear_runs@, n_points as int)) {
            (Some(v), Some(p)) => v@ == p && plan_within(v@, n_points as int),
            (None, None) => true,
            _ => false,
        },
{
    let total: u32 = clip_frames(gear_runs);
    if total == 0 {
        return None;
    }
    let segs: Vec<FrameSeg> = frame_segments(gear_runs, total);
    if !has_parked(&segs) {
        return None;
    }
    let mut out: Vec<PlannedSeg> = Vec::new();
    let mut i: usize = 0;
    while i < segs.len()
        invariant
            i <= segs.len(),
            out@ == planned_all(segs@, total as int, n_points as int, i as int),
            plan_within(out@, n_points as int),
        decreases segs.len() - i,
    {
        match plan_one(segs[i], total, n_points) {
            Some(p) => {
                out.push(p);
            },
            None => {},
        }
        i = i + 1;
    }
    Some(out)
}

// ---------------------------------------------------------------------------
// Boundaries
// ---------------------------------------------------------------------------

/// A member of a drive, or a boundary between drives.
#[derive(Clone, Copy, Debug)]
pub enum Token<T> {
    Boundary,
    Clip(T),
}

/// Members since the last boundary among the first `n` tokens.
pub open spec fn open_run<T>(tokens: Seq<Token<T>>, n: int) -> Seq<T>
    decreases n,
{
    if n <= 0 {
        Seq::empty()
    } else {
        match tokens[n - 1] {
            Token::Boundary => Seq::empty(),
            Token::Clip(x) => open_run(tokens, n - 1).push(x),
        }
    }
}

/// Runs of members that a boundary among the first `n` tokens ended.
pub open spec fn closed_runs<T>(tokens: Seq<Token<T>>, n: int) -> Seq<Seq<T>>
    decreases n,
{
    if n <= 0 {
        Seq::empty()
    } else if tokens[n - 1] is Boundary && open_run(tokens, n - 1).len() > 0 {
        closed_runs(tokens, n - 1).push(open_run(tokens, n - 1))
    } else {
        closed_runs(tokens, n - 1)
    }
}

/// The runs of members between boundaries.
pub open spec fn runs_of<T>(tokens: Seq<Token<T>>) -> Seq<Seq<T>> {
    let n = tokens.len() as int;
    if open_run(tokens, n).len() > 0 {
        closed_runs(tokens, n).push(open_run(tokens, n))
    } else {
        closed_runs(tokens, n)
    }
}

/// The members among the first `n` tokens.
pub open spec fn members<T>(tokens: Seq<Token<T>>, n: int) -> Seq<T>
    decreases n,
{
    if n <= 0 {
        Seq::empty()
    } else {
        match tokens[n - 1] {
            Token::Boundary => members(tokens, n - 1),
            Token::Clip(x) => members(tokens, n - 1).push(x),
        }
    }
}

proof fn lemma_runs_keep_members<T>(tokens: Seq<Token<T>>, n: int)
    requires
        0 <= n <= tokens.len(),
    ensures
        joined(closed_runs(tokens, n)) + open_run(tokens, n) == members(tokens, n),
        forall|i: int|
            0 <= i < closed_runs(tokens, n).len() ==> (#[trigger] closed_runs(tokens, n)[i]).len()
                > 0,
    decreases n,
{
    if n > 0 {
        lemma_runs_keep_members(tokens, n - 1);
        let c = closed_runs(tokens, n - 1);
        let o = open_run(tokens, n - 1);
        match tokens[n - 1] {
            Token::Boundary => {
                if o.len() > 0 {
                    assert(closed_runs(tokens, n).drop_last() =~= c);
                    assert(joined(closed_runs(tokens, n)) == joined(c) + o);
                    assert(joined(closed_runs(tokens, n)) + open_run(tokens, n) =~= members(
                        tokens,
                        n,
                    ));
                } else {
                    assert(joined(closed_runs(tokens, n)) + open_run(tokens, n) =~= members(
                        tokens,
                        n,
                    ));
                }
            },
            Token::Clip(x) => {
                assert(joined(c) + o.push(x) =~= (joined(c) + o).push(x));
            },
        }
    } else {
        assert(joined(closed_runs(tokens, n)) + open_run(tokens, n) =~= members(tokens, n));
    }
}

/// Cutting at boundaries keeps every member, once and in order, and leaves no
/// run empty.
pub proof fn law_runs_keep_every_member<T>(tokens: Seq<Token<T>>)
    ensures
        joined(runs_of(tokens)) == members(tokens, tokens.len() as int),
        forall|i: int|
            0 <= i < runs_of(tokens).len() ==> (#[trigger] runs_of(tokens)[i]).len() > 0,
{
    let n = tokens.len() as int;
    lemma_runs_keep_members(tokens, n);
    let c = closed_runs(tokens, n);
    let o = open_run(tokens, n);
    if o.len() > 0 {
        assert(runs_of(tokens).drop_last() =~= c);
        assert(joined(runs_of(tokens)) == joined(c) + o);
    } else {
        assert(joined(c) + o =~= joined(c));
    }
}

/// Cuts a list of members at its boundaries.
pub fn runs_between<T: Copy>(tokens: &[Token<T>]) -> (r: Vec<Vec<T>>)
    ensures
        views(r@) == runs_of(tokens@),
        forall|i: int| 0 <= i < r@.len() ==> (#[trigger] r@[i])@.len() > 0,
        forall|i: int, j: int|
            0 <= i < r@.len() && 0 <= j < r@[i]@.len() ==> exists|k: int|
                0 <= k < tokens@.len() && tokens@[k] == Token::Clip(#[trigger] r@[i]@[j]),
{
    let mut out: Vec<Vec<T>> = Vec::new();
    let mut current: Vec<T> = Vec::new();
    let mut i: usize = 0;
    proof {
        assert(views(out@) =~= closed_runs(tokens@, 0));
        assert(current@ =~= open_run(tokens@, 0));
    }
    while i < tokens.len()
        invariant
            i <= tokens.len(),
            views(out@) == closed_runs(tokens@, i as int),
            current@ == open_run(tokens@, i as int),
            forall|k: int| 0 <= k < out@.len() ==> (#[trigger] out@[k])@.len() > 0,
            forall|a: int, b: int|
                0 <= a < out@.len() && 0 <= b < out@[a]@.len() ==> exists|k: int|
                    0 <= k < tokens@.len() && tokens@[k] == Token::Clip(#[trigger] out@[a]@[b]),
            forall|b: int|
                0 <= b < current@.len() ==> exists|k: int|
                    0 <= k < tokens@.len() && tokens@[k] == Token::Clip(#[trigger] current@[b]),
        decreases tokens.len() - i,
    {
        match tokens[i] {
            Token::Boundary => {
                if current.len() > 0 {
                    let ghost before = views(out@);
                    let ghost cur = current@;
                    let mut done: Vec<T> = Vec::new();
                    std::mem::swap(&mut done, &mut current);
                    out.push(done);
                    proof {
                        assert(views(out@) =~= before.push(cur));
                    }
                }
                proof {
                    assert(current@ =~= open_run(tokens@, i as int + 1));
                }
            },
            Token::Clip(x) => {
                let ghost before = current@;
                current.push(x);
                proof {
                    assert(tokens@[i as int] == Token::Clip(x));
                    assert forall|b: int| 0 <= b < current@.len() implies exists|k: int|
                        0 <= k < tokens@.len() && tokens@[k] == Token::Clip(
                            #[trigger] current@[b],
                        ) by {
                        if b < before.len() {
                            assert(current@[b] == before[b]);
                        }
                    }
                }
            },
        }
        i = i + 1;
    }
    if current.len() > 0 {
        let ghost before = views(out@);
        let ghost cur = current@;
        out.push(current);
        proof {
            assert(views(out@) =~= before.push(cur));
        }
    }
    out
}

// ---------------------------------------------------------------------------
// Signatures
// ---------------------------------------------------------------------------

/// Something that stands for a stored clip or a part of one.
pub trait Sourced: Copy {
    spec fn spec_source(&self) -> usize;

    /// Position of the stored clip.
    fn source(&self) -> (r: usize)
        ensures
            r == self.spec_source(),
    ;
}

/// The signature of a member's clip.
pub open spec fn signature<T: Sourced>(sigs: Seq<Option<Seq<char>>>, x: T) -> Option<Seq<char>> {
    sigs[x.spec_source() as int]
}

/// The members among the first `n` that carry no signature.
pub open spec fn unsigned<T: Sourced>(sigs: Seq<Option<Seq<char>>>, group: Seq<T>, n: int) -> Seq<T>
    decreases n,
{
    if n <= 0 {
        Seq::empty()
    } else if signature(sigs, group[n - 1]) is None {
        unsigned(sigs, group, n - 1).push(group[n - 1])
    } else {
        unsigned(sigs, group, n - 1)
    }
}

/// The first bucket from `k` on with signature `sig`; the number of buckets where
/// there is none.
pub open spec fn bucket_of<T: Sourced>(
    sigs: Seq<Option<Seq<char>>>,
    buckets: Seq<Seq<T>>,
    sig: Option<Seq<char>>,
    k: int,
) -> int
    decreases buckets.len() - k,
{
    if k < 0 || k >= buckets.len() || signature(sigs, buckets[k][0]) == sig {
        k
    } else {
        bucket_of(sigs, buckets, sig, k + 1)
    }
}

/// The members among the first `n` that carry a signature, one bucket for each
/// signature in the order of their first members.
pub open spec fn buckets<T: Sourced>(sigs: Seq<Option<Seq<char>>>, group: Seq<T>, n: int) -> Seq<
    Seq<T>,
>
    decreases n,
{
    if n <= 0 {
        Seq::empty()
    } else if signature(sigs, group[n - 1]) is None {
        buckets(sigs, group, n - 1)
    } else {
        let b = buckets(sigs, group, n - 1);
        let k = bucket_of(sigs, b, signature(sigs, group[n - 1]), 0);
        if k < b.len() {
            b.update(k, b[k].push(group[n - 1]))
        } else {
            b.push(seq![group[n - 1]])
        }
    }
}

pub open spec fn any_signed<T: Sourced>(sigs: Seq<Option<Seq<char>>>, group: Seq<T>) -> bool {
    exists|i: int| 0 <= i < group.len() && signature(sigs, #[trigger] group[i]) is Some
}

/// A group cut by signature: the members without one, then one group for each
/// signature. A group of one, or without any signature, stays as it is.
pub open spec fn by_signature<T: Sourced>(sigs: Seq<Option<Seq<char>>>, group: Seq<T>) -> Seq<
    Seq<T>,
> {
    let n = group.len() as int;
    if n <= 1 || !any_signed(sigs, group) {
        seq![group]
    } else if unsigned(sigs, group, n).len() > 0 {
        seq![unsigned(sigs, group, n)] + buckets(sigs, group, n)
    } else {
        buckets(sigs, group, n)
    }
}

/// Texts of optional signatures.
pub open spec fn sig_views(sigs: Seq<Option<&str>>) -> Seq<Option<Seq<char>>> {
    Seq::new(
        sigs.len(),
        |i: int|
            match sigs[i] {
                Some(s) => Some(s@),
                None => None,
            },
    )
}

/// All members stand for clips below `n`.
pub open spec fn sources_below<T: Sourced>(group: Seq<T>, n: int) -> bool {
    forall|i: int| 0 <= i < group.len() ==> (#[trigger] group[i]).spec_source() < n
}

/// Buckets are never empty, and hold members of clips below `n`.
pub open spec fn good_buckets<T: Sourced>(b: Seq<Vec<T>>, n: int) -> bool {
    forall|i: int|
        0 <= i < b.len() ==> (#[trigger] b[i])@.len() > 0 && sources_below(b[i]@, n)
}

fn same_signature(a: Option<&str>, b: Option<&str>) -> (r: bool)
    ensures
        r == match (a, b) {
            (Some(x), Some(y)) => x@ == y@,
            (None, None) => true,
            _ => false,
        },
{
    match (a, b) {
        (Some(x), Some(y)) => same_text(x, y),
        (None, None) => true,
        _ => false,
    }
}

fn copy_group<T: Copy>(group: &Vec<T>) -> (r: Vec<T>)
    ensures
        r@ == group@,
{
    proof {
        assert(group@.subrange(0, group@.len() as int) =~= group@);
    }
    copy_range(group.as_slice(), 0, group.len())
}

/// Cuts a group by the signatures of its members' clips.
pub fn split_by_external_signature<T: Sourced>(sigs: &[Option<&str>], group: &Vec<T>) -> (r: Vec<
    Vec<T>,
>)
    requires
        sources_below(group@, sigs@.len() as int),
    ensures
        views(r@) == by_signature(sig_views(sigs@), group@),
        group@.len() > 0 ==> forall|i: int| 0 <= i < r@.len() ==> (#[trigger] r@[i])@.len() > 0,
        forall|i: int|
            0 <= i < r@.len() ==> sources_below((#[trigger] r@[i])@, sigs@.len() as int),
{
    let ghost sv = sig_views(sigs@);
    let n: usize = group.len();
    let mut signed: bool = false;
    let mut h: usize = 0;
    while h < n
        invariant
            h <= n,
            n == group@.len(),
            sv == sig_views(sigs@),
            sources_below(group@, sigs@.len() as int),
            signed == (exists|i: int|
                0 <= i < h && signature(sv, #[trigger] group@[i]) is Some),
        decreases n - h,
    {
        let s: usize = group[h].source();
        proof {
            assert(group@[h as int].spec_source() < sigs@.len());
        }
        if sigs[s].is_some() {
            signed = true;
            proof {
                assert(signature(sv, group@[h as int]) is Some);
            }
        } else {
            proof {
                assert(signature(sv, group@[h as int]) is None);
            }
        }
        h = h + 1;
    }
    if n <= 1 || !signed {
        let one: Vec<T> = copy_group(group);
        let mut out: Vec<Vec<T>> = Vec::new();
        out.push(one);
        proof {
            assert(views(out@) =~= seq![group@]);
        }
        return out;
    }
    let mut bare: Vec<T> = Vec::new();
    let mut bs: Vec<Vec<T>> = Vec::new();
    let mut i: usize = 0;
    proof {
        assert(bare@ =~= unsigned(sv, group@, 0));
        assert(views(bs@) =~= buckets(sv, group@, 0));
    }
    while i < n
        invariant
            i <= n,
            n == group@.len(),
            sv == sig_views(sigs@),
            sources_below(group@, sigs@.len() as int),
            bare@ == unsigned(sv, group@, i as int),
            views(bs@) == buckets(sv, group@, i as int),
            sources_below(bare@, sigs@.len() as int),
            good_buckets(bs@, sigs@.len() as int),
        decreases n - i,
    {
        let x: T = group[i];
        proof {
            assert(group@[i as int].spec_source() < sigs@.len());
        }
        let sig: Option<&str> = sigs[x.source()];
        match sig {
            None => {
                bare.push(x);
            },
            Some(_) => {
                let ghost b0 = views(bs@);
                let mut k: usize = 0;
                let mut found: bool = false;
                while k < bs.len() && !found
                    invariant
                        k <= bs.len(),
                        sv == sig_views(sigs@),
                        b0 == views(bs@),
                        x.spec_source() < sigs@.len(),
                        sig == sigs@[x.spec_source() as int],
                        sig is Some,
                        good_buckets(bs@, sigs@.len() as int),
                        found ==> k < bs.len(),
                        found ==> bucket_of(sv, b0, signature(sv, x), 0) == k,
                        !found ==> bucket_of(sv, b0, signature(sv, x), 0) == bucket_of(
                            sv,
                            b0,
                            signature(sv, x),
                            k as int,
                        ),
                    decreases
                        bs.len() - k + if found {
                            0int
                        } else {
                            1int
                        },
                {
                    proof {
                        assert(bs@[k as int]@.len() > 0);
                        assert(bs@[k as int]@[0].spec_source() < sigs@.len());
                        assert(b0[k as int] == bs@[k as int]@);
                    }
                    let first: usize = bs[k][0].source();
                    if same_signature(sigs[first], sig) {
                        found = true;
                    } else {
                        k = k + 1;
                    }
                }
                if found {
                    let mut b: Vec<T> = copy_group(&bs[k]);
                    b.push(x);
                    bs.set(k, b);
                    proof {
                        assert(views(bs@) =~= b0.update(k as int, b0[k as int].push(x)));
                    }
                } else {
                    let mut b: Vec<T> = Vec::new();
                    b.push(x);
                    bs.push(b);
                    proof {
                        assert(views(bs@) =~= b0.push(seq![x]));
                    }
                }
            },
        }
        i = i + 1;
    }
    let mut out: Vec<Vec<T>> = Vec::new();
    if bare.len() > 0 {
        let ghost bare_view = bare@;
        out.push(bare);
        let ghost head = views(out@);
        let ghost tail = views(bs@);
        proof {
            assert(head =~= seq![bare_view]);
        }
        out.append(&mut bs);
        proof {
            assert(views(out@) =~= head + tail);
        }
        out
    } else {
        bs
    }
}

// ---------------------------------------------------------------------------
// Fragments
// ---------------------------------------------------------------------------

/// Later stretches begin no earlier than earlier ones end.
proof fn lemma_tiles_in_order(segs: Seq<FrameSeg>, total: int, i: int, j: int)
    requires
        tiles(segs, total),
        0 <= i < j < segs.len(),
    ensures
        segs[i].end <= segs[j].start,
    decreases j - i,
{
    assert(segs[j - 1].end == segs[j].start);
    if i < j - 1 {
        lemma_tiles_in_order(segs, total, i, j - 1);
        assert(segs[j - 1].start <= segs[j - 1].end);
    }
}

proof fn lemma_points_in_order(f: u32, g: u32, total: int, n_points: int)
    requires
        f <= g <= total,
        1 <= total <= u32::MAX,
        0 <= n_points <= usize::MAX,
    ensures
        0 <= point_at(frame_share(f, total), n_points) <= point_at(
            frame_share(g, total),
            n_points,
        ),
{
    lemma_shares_in_order(f as nat, g as nat, total as nat, n_points as nat);
}

/// Two stretches of a clip, cut to its points, do not overlap, unless the later
/// one has no point of its own and falls back to the last point.
pub proof fn law_fragments_do_not_overlap(
    segs: Seq<FrameSeg>,
    total: int,
    n_points: int,
    i: int,
    j: int,
)
    requires
        tiles(segs, total),
        1 <= total <= u32::MAX,
        1 <= n_points <= usize::MAX,
        0 <= i < j < segs.len(),
        planned(segs[i], total, n_points) is Some,
        planned(segs[j], total, n_points) is Some,
        !segs[i].parked,
        !segs[j].parked,
    ensures
        ({
            let a = planned(segs[i], total, n_points)->0;
            let b = planned(segs[j], total, n_points)->0;
            a.end <= b.start || b.start == n_points - 1
        }),
{
    lemma_tiles_in_order(segs, total, i, j);
    assert(segs[j].start <= segs[j].end);
    let last = segs.len() - 1;
    if j < last {
        lemma_tiles_in_order(segs, total, j, last);
        assert(segs[last].start <= segs[last].end);
    }
    lemma_points_in_order(segs[i].end, segs[j].start, total, n_points);
}

} // verus!
