//! Summon drives: the car moving itself, at walking pace, hazards on at both ends.

use crate::calc::lit;
use crate::extract::flag_frames_before;
use crate::float::{F64, fceil, fdiv, flt, fmul, from_int, is_finite, to_int, zero};
use crate::types::FlagRun;
use vstd::prelude::*;

verus! {

/// Bits of 4.5, the speed in m/s above which a drive is no summon.
pub const SUMMON_MAX_SPEED_MPS: u64 = 0x4012_0000_0000_0000;

/// Hazards must show within this many seconds of the start and of the end.
pub const SUMMON_BOOKEND_SECONDS: u64 = 10;

/// A summon lasts no longer than this.
pub const SUMMON_MAX_DURATION_MS: i64 = 600_000;

/// Both blinkers at once.
pub const HAZARD: u8 = 3;

/// Either pedal.
pub const PEDAL: u8 = 12;

/// What one clip of a drive tells about a summon: its flag runs, and the frames
/// of it that belong to the drive.
#[derive(Clone, Copy, Debug)]
pub struct SummonClipEvidence<'a> {
    pub flag_runs: &'a [FlagRun],
    pub start_frame: u32,
    pub end_frame: u32,
    pub total_frames: u32,
}

/// The same with the runs as a sequence.
pub struct Evidence {
    pub runs: Seq<FlagRun>,
    pub start: int,
    pub end: int,
    pub total: int,
}

pub open spec fn evidence_of(c: SummonClipEvidence) -> Evidence {
    Evidence {
        runs: c.flag_runs@,
        start: c.start_frame as int,
        end: c.end_frame as int,
        total: c.total_frames as int,
    }
}

pub open spec fn evidence_views(clips: Seq<SummonClipEvidence>) -> Seq<Evidence> {
    Seq::new(clips.len(), |i: int| evidence_of(clips[i]))
}

/// The frame counts of flag runs add up within the range of a frame index.
pub open spec fn flags_fit(runs: Seq<FlagRun>) -> bool {
    flag_frames_before(runs, runs.len() as int) <= u32::MAX
}

/// Whether the frames of a clip's flags can be counted.
pub fn flag_frames_fit(runs: &[FlagRun]) -> (b: bool)
    ensures
        b == flags_fit(runs@),
{
    let n: usize = runs.len();
    let mut t: u64 = 0;
    let mut i: usize = 0;
    while i < n
        invariant
            i <= n,
            n == runs@.len(),
            t == flag_frames_before(runs@, i as int),
            t <= u32::MAX,
        decreases n - i,
    {
        t = t + runs[i].frames as u64;
        if t > 0xFFFF_FFFF {
            proof {
                lemma_flag_frames_monotone(runs@, i + 1, n as int);
            }
            return false;
        }
        i = i + 1;
    }
    true
}

/// Run `i` reaches into the frames `from <= f < to`.
pub open spec fn run_reaches(runs: Seq<FlagRun>, i: int, from: int, to: int) -> bool {
    flag_frames_before(runs, i + 1) > from && flag_frames_before(runs, i) < to
}

/// Run `i` carries the bits of `mask`: all of them, or any.
pub open spec fn run_carries(run: FlagRun, mask: u8, all: bool) -> bool {
    if all {
        run.flags & mask == mask
    } else {
        run.flags & mask != 0
    }
}

/// Some run that reaches into the frames carries the bits of `mask`.
pub open spec fn flags_show(runs: Seq<FlagRun>, from: int, to: int, mask: u8, all: bool) -> bool {
    exists|i: int|
        0 <= i < runs.len() && run_reaches(runs, i, from, to) && run_carries(
            #[trigger] runs[i],
            mask,
            all,
        )
}

pub proof fn lemma_flag_frames_monotone(runs: Seq<FlagRun>, i: int, j: int)
    requires
        0 <= i <= j <= runs.len(),
    ensures
        0 <= flag_frames_before(runs, i) <= flag_frames_before(runs, j),
    decreases j,
{
    if j > 0 {
        if i < j {
            lemma_flag_frames_monotone(runs, i, j - 1);
        } else {
            lemma_flag_frames_monotone(runs, i - 1, j - 1);
        }
    }
}

/// True when a flag run that reaches into `from_frame..to_frame` carries `mask`
/// bits: all of them in one run, or any.
pub fn flag_runs_overlap(
    runs: &[FlagRun],
    from_frame: u32,
    to_frame: u32,
    mask: u8,
    require_all: bool,
) -> (b: bool)
    requires
        flags_fit(runs@),
    ensures
        b == flags_show(runs@, from_frame as int, to_frame as int, mask, require_all),
{
    let mut frame: u32 = 0;
    let mut i: usize = 0;
    while i < runs.len()
        invariant
            i <= runs.len(),
            flags_fit(runs@),
            frame == flag_frames_before(runs@, i as int),
            forall|k: int|
                0 <= k < i ==> !(run_reaches(runs@, k, from_frame as int, to_frame as int)
                    && run_carries(#[trigger] runs@[k], mask, require_all)),
        decreases runs.len() - i,
    {
        proof {
            lemma_flag_frames_monotone(runs@, i as int + 1, runs@.len() as int);
        }
        let start: u32 = frame;
        let end: u32 = frame + runs[i].frames;
        frame = end;
        if end > from_frame {
            if start >= to_frame {
                proof {
                    assert forall|k: int| 0 <= k < runs@.len() implies !(run_reaches(
                        runs@,
                        k,
                        from_frame as int,
                        to_frame as int,
                    ) && run_carries(#[trigger] runs@[k], mask, require_all)) by {
                        if k >= i {
                            lemma_flag_frames_monotone(runs@, i as int, k);
                        }
                    }
                }
                return false;
            }
            let bits: u8 = runs[i].flags & mask;
            let hit: bool = if require_all {
                bits == mask
            } else {
                bits != 0
            };
            if hit {
                proof {
                    assert(run_carries(runs@[i as int], mask, require_all));
                }
                return true;
            }
        }
        i = i + 1;
    }
    false
}

/// The greatest speed of the runs among the first `n` that reach into the frames;
/// none where one of them has no finite speed.
pub open spec fn speed_within(runs: Seq<FlagRun>, from: int, to: int, n: int) -> Option<F64>
    decreases n,
{
    if n <= 0 {
        Some(zero())
    } else if !run_reaches(runs, n - 1, from, to) {
        speed_within(runs, from, to, n - 1)
    } else {
        match (speed_within(runs, from, to, n - 1), runs[n - 1].max_mps) {
            (Some(p), Some(m)) if is_finite(m) => Some(
                if flt(p, m) {
                    m
                } else {
                    p
                },
            ),
            _ => None,
        }
    }
}

/// The greatest speed of a clip's frames in the drive.
pub open spec fn evidence_speed(e: Evidence) -> Option<F64> {
    speed_within(e.runs, e.start, e.end, e.runs.len() as int)
}

proof fn lemma_speed_beyond(runs: Seq<FlagRun>, from: int, to: int, k: int, n: int)
    requires
        0 <= k <= n <= runs.len(),
        forall|j: int| k <= j < n ==> !run_reaches(runs, j, from, to),
    ensures
        speed_within(runs, from, to, n) == speed_within(runs, from, to, k),
    decreases n,
{
    if k < n {
        lemma_speed_beyond(runs, from, to, k, n - 1);
    }
}

proof fn lemma_speed_lost(runs: Seq<FlagRun>, from: int, to: int, k: int, n: int)
    requires
        0 <= k <= n <= runs.len(),
        speed_within(runs, from, to, k) is None,
    ensures
        speed_within(runs, from, to, n) is None,
    decreases n,
{
    if k < n {
        lemma_speed_lost(runs, from, to, k, n - 1);
    }
}

/// The greatest recorded speed of a clip's frames in the drive; `None` where a
/// run that reaches into them has none.
pub fn segment_max_speed(c: &SummonClipEvidence) -> (r: Option<F64>)
    requires
        flags_fit(c.flag_runs@),
    ensures
        r == evidence_speed(evidence_of(*c)),
{
    let runs: &[FlagRun] = c.flag_runs;
    let ghost from = c.start_frame as int;
    let ghost to = c.end_frame as int;
    let mut frame: u32 = 0;
    let mut max: F64 = F64::from_bits(0);
    let mut i: usize = 0;
    while i < runs.len()
        invariant
            i <= runs.len(),
            runs@ == c.flag_runs@,
            from == c.start_frame,
            to == c.end_frame,
            flags_fit(runs@),
            frame == flag_frames_before(runs@, i as int),
            Some(max) == speed_within(runs@, from, to, i as int),
        decreases runs.len() - i,
    {
        proof {
            lemma_flag_frames_monotone(runs@, i as int + 1, runs@.len() as int);
        }
        let start: u32 = frame;
        let end: u32 = frame + runs[i].frames;
        frame = end;
        if end > c.start_frame {
            if start >= c.end_frame {
                proof {
                    assert forall|k: int| i <= k < runs@.len() implies !run_reaches(
                        runs@,
                        k,
                        from,
                        to,
                    ) by {
                        lemma_flag_frames_monotone(runs@, i as int, k);
                    }
                    lemma_speed_beyond(runs@, from, to, i as int, runs@.len() as int);
                }
                return Some(max);
            }
            match runs[i].max_mps {
                Some(m) => {
                    if !m.finite() {
                        proof {
                            lemma_speed_lost(runs@, from, to, i as int + 1, runs@.len() as int);
                        }
                        return None;
                    }
                    if max.lt(m) {
                        max = m;
                    }
                },
                None => {
                    proof {
                        lemma_speed_lost(runs@, from, to, i as int + 1, runs@.len() as int);
                    }
                    return None;
                },
            }
        }
        i = i + 1;
    }
    Some(max)
}

/// A clip can be judged: it has flag runs and frames in the drive.
pub open spec fn judgeable(e: Evidence) -> bool {
    e.runs.len() > 0 && e.total != 0 && e.end > e.start
}

/// The greatest speed of the first `n` clips; none where one of them has none.
pub open spec fn drive_speed(clips: Seq<Evidence>, n: int) -> Option<F64>
    decreases n,
{
    if n <= 0 {
        Some(zero())
    } else {
        match (drive_speed(clips, n - 1), evidence_speed(clips[n - 1])) {
            (Some(p), Some(m)) => Some(
                if flt(p, m) {
                    m
                } else {
                    p
                },
            ),
            _ => None,
        }
    }
}

/// Frames of a clip in which hazards must show, at its own frame rate.
pub open spec fn bookend_frames(total: int) -> int {
    let n = to_int(
        fceil(
            fdiv(
                fmul(fmul(from_int(total), from_int(10)), from_int(1000)),
                from_int(60_000),
            ),
        ),
        0,
        u32::MAX as int,
    );
    if n > 1 {
        n
    } else {
        1
    }
}

/// A pedal was touched in the drive's frames of a clip.
pub open spec fn pedal_in(e: Evidence) -> bool {
    flags_show(e.runs, e.start, e.end, PEDAL, false)
}

/// Hazards show in the opening frames of a clip.
pub open spec fn hazard_opens(e: Evidence) -> bool {
    let b = bookend_frames(e.total);
    flags_show(
        e.runs,
        e.start,
        if e.start + b < e.end {
            e.start + b
        } else {
            e.end
        },
        HAZARD,
        true,
    )
}

/// Hazards show in the closing frames of a clip.
pub open spec fn hazard_closes(e: Evidence) -> bool {
    let b = bookend_frames(e.total);
    flags_show(
        e.runs,
        if e.end - b > e.start {
            e.end - b
        } else {
            e.start
        },
        e.end,
        HAZARD,
        true,
    )
}

/// A summon: no longer than ten minutes; every clip judgeable; moving, but at
/// walking pace; no pedal; hazards at both ends. The speed is that of the drive's
/// own frames where every clip recorded it, and else the clips' greatest, which
/// must then have been recorded.
pub open spec fn is_summon(
    clips: Seq<Evidence>,
    max_speed_mps: F64,
    duration_ms: int,
    has_sei_speeds: bool,
) -> bool {
    let n = clips.len() as int;
    let exact = drive_speed(clips, n);
    let speed = match exact {
        Some(v) => v,
        None => max_speed_mps,
    };
    &&& n > 0
    &&& 0 < duration_ms <= SUMMON_MAX_DURATION_MS
    &&& forall|i: int| 0 <= i < n ==> judgeable(#[trigger] clips[i])
    &&& exact is Some || has_sei_speeds
    &&& flt(zero(), speed)
    &&& !flt(lit(SUMMON_MAX_SPEED_MPS), speed)
    &&& forall|i: int| 0 <= i < n ==> !pedal_in(#[trigger] clips[i])
    &&& hazard_opens(clips[0])
    &&& hazard_closes(clips[n - 1])
}

/// Frame counts of every clip's flag runs are in range.
pub open spec fn evidence_fits(clips: Seq<SummonClipEvidence>) -> bool {
    forall|i: int| 0 <= i < clips.len() ==> flags_fit((#[trigger] clips[i]).flag_runs@)
}

fn bookend(total: u32) -> (n: u32)
    ensures
        n == bookend_frames(total as int),
{
    let n: u32 = F64::of_u32(total).times(F64::of_u64(10)).times(F64::of_u64(1000)).over(
        F64::of_u64(60_000),
    ).ceil().to_u32();
    if n > 1 {
        n
    } else {
        1
    }
}

proof fn lemma_drive_speed_lost(clips: Seq<Evidence>, k: int, n: int)
    requires
        0 <= k <= n <= clips.len(),
        drive_speed(clips, k) is None,
    ensures
        drive_speed(clips, n) is None,
    decreases n,
{
    if k < n {
        lemma_drive_speed_lost(clips, k, n - 1);
    }
}

fn exact_speed(clips: &[SummonClipEvidence]) -> (r: Option<F64>)
    requires
        evidence_fits(clips@),
    ensures
        r == drive_speed(evidence_views(clips@), clips@.len() as int),
{
    let ghost ev = evidence_views(clips@);
    let mut speed: F64 = F64::from_bits(0);
    let mut i: usize = 0;
    while i < clips.len()
        invariant
            i <= clips.len(),
            evidence_fits(clips@),
            ev == evidence_views(clips@),
            Some(speed) == drive_speed(ev, i as int),
        decreases clips.len() - i,
    {
        proof {
            assert(flags_fit(clips@[i as int].flag_runs@));
            assert(ev[i as int] == evidence_of(clips@[i as int]));
        }
        match segment_max_speed(&clips[i]) {
            Some(m) => {
                if speed.lt(m) {
                    speed = m;
                }
            },
            None => {
                proof {
                    lemma_drive_speed_lost(ev, i as int + 1, clips@.len() as int);
                }
                return None;
            },
        }
        i = i + 1;
    }
    Some(speed)
}

/// Detects a summon from the flags and speeds of its clips' frames.
pub fn detect_summon(
    clips: &[SummonClipEvidence],
    max_speed_mps: F64,
    duration_ms: i64,
    has_sei_speeds: bool,
) -> (b: bool)
    requires
        evidence_fits(clips@),
    ensures
        b == is_summon(
            evidence_views(clips@),
            max_speed_mps,
            duration_ms as int,
            has_sei_speeds,
        ),
{
    let ghost ev = evidence_views(clips@);
    let n: usize = clips.len();
    if n == 0 || duration_ms <= 0 || duration_ms > SUMMON_MAX_DURATION_MS {
        return false;
    }
    let mut i: usize = 0;
    while i < n
        invariant
            i <= n,
            n == clips@.len(),
            ev == evidence_views(clips@),
            forall|k: int| 0 <= k < i ==> judgeable(#[trigger] ev[k]),
        decreases n - i,
    {
        let c: SummonClipEvidence = clips[i];
        proof {
            assert(ev[i as int] == evidence_of(c));
        }
        if c.flag_runs.len() == 0 || c.total_frames == 0 || c.end_frame <= c.start_frame {
            proof {
                assert(!judgeable(ev[i as int]));
            }
            return false;
        }
        i = i + 1;
    }
    let exact: Option<F64> = exact_speed(clips);
    let speed: F64 = match exact {
        Some(v) => v,
        None => {
            if !has_sei_speeds {
                return false;
            }
            max_speed_mps
        },
    };
    if !F64::from_bits(0).lt(speed) || F64::from_bits(SUMMON_MAX_SPEED_MPS).lt(speed) {
        return false;
    }
    let mut j: usize = 0;
    while j < n
        invariant
            j <= n,
            n == clips@.len(),
            evidence_fits(clips@),
            ev == evidence_views(clips@),
            forall|k: int| 0 <= k < j ==> !pedal_in(#[trigger] ev[k]),
        decreases n - j,
    {
        let c: SummonClipEvidence = clips[j];
        proof {
            assert(flags_fit(clips@[j as int].flag_runs@));
            assert(ev[j as int] == evidence_of(c));
        }
        if flag_runs_overlap(c.flag_runs, c.start_frame, c.end_frame, PEDAL, false) {
            proof {
                assert(pedal_in(ev[j as int]));
            }
            return false;
        }
        j = j + 1;
    }
    let first: SummonClipEvidence = clips[0];
    let last: SummonClipEvidence = clips[n - 1];
    proof {
        assert(ev[0] == evidence_of(first));
        assert(ev[n - 1] == evidence_of(last));
        assert(judgeable(ev[0]));
        assert(judgeable(ev[n - 1]));
        assert(flags_fit(clips@[0].flag_runs@));
        assert(flags_fit(clips@[n - 1].flag_runs@));
    }
    let open: u32 = bookend(first.total_frames);
    let to: u32 = if open < first.end_frame - first.start_frame {
        first.start_frame + open
    } else {
        first.end_frame
    };
    let close: u32 = bookend(last.total_frames);
    let from: u32 = if close < last.end_frame - last.start_frame {
        last.end_frame - close
    } else {
        last.start_frame
    };
    flag_runs_overlap(first.flag_runs, first.start_frame, to, HAZARD, true) && flag_runs_overlap(
        last.flag_runs,
        from,
        last.end_frame,
        HAZARD,
        true,
    )
}

/// A drive with a clip that carries no flag runs cannot be verified and is no
/// summon, nor is one with a touched pedal.
pub proof fn law_summon_needs_full_evidence(
    clips: Seq<Evidence>,
    max_speed_mps: F64,
    duration_ms: int,
    has_sei_speeds: bool,
    i: int,
)
    requires
        0 <= i < clips.len(),
        clips[i].runs.len() == 0 || pedal_in(clips[i]),
    ensures
        !is_summon(clips, max_speed_mps, duration_ms, has_sei_speeds),
{
    assert(judgeable(clips[i]) ==> clips[i].runs.len() > 0);
}

} // verus!
