//! Which clips are worth reading again for summon evidence.

use crate::calc::{MPS_TO_MPH, lit, rounded2};
use crate::clock::span;
use crate::float::{F64, fadd, fle, fmul, is_finite};
use crate::list::{collect_files, drive_files};
use crate::subclips::{SubClipSummary, group_summary_clips, sub_drives, subs_fit, summaries_fit};
use crate::summary::{
    DriveShape, drive_end, drive_is_summon, drive_shape, drive_start, flag_runs_fit, imported,
    text_view, texts, top_speed,
};
use crate::summon::{SUMMON_MAX_DURATION_MS, SUMMON_MAX_SPEED_MPS};
use crate::text::{chars_of, contains_text, holds, same_text};
use crate::timeline::views;
use crate::types::{RouteAggregates, RouteSummary};
use vstd::prelude::*;

verus! {

/// A summon lasts at most ten minutes, so at most ten one-minute clips per edge.
pub const MAX_EDGE_CLIPS: usize = 10;

/// Guard of 0.01 mph for speeds that are kept rounded to two decimals.
pub const ROUNDING_GUARD_MPH: u64 = 0x3F84_7AE1_47AE_147B;

/// Clips to read again, and how many drives they stand in.
#[derive(Clone, Debug)]
pub struct SummonCheckCandidates {
    /// Drives whose shape could hide a summon.
    pub candidate_drives: usize,
    /// Their clips that lack current flag evidence, in drive order.
    pub files: Vec<String>,
}

/// The last of the first `n` clips with this file.
pub open spec fn clip_of(s: Seq<RouteSummary>, file: Seq<char>, n: int) -> Option<int>
    decreases n,
{
    if n <= 0 {
        None
    } else if s[n - 1].file@ == file {
        Some(n - 1)
    } else {
        clip_of(s, file, n - 1)
    }
}

/// Every flag run carries a speed.
pub open spec fn evidence_is_current(r: RouteSummary) -> bool {
    r.flag_runs@.len() > 0 && forall|i: int|
        0 <= i < r.flag_runs@.len() ==> ((#[trigger] r.flag_runs@[i]).max_mps matches Some(m)
            && is_finite(m))
}

/// The clip never left parking-lot speed, as far as its speeds tell.
pub open spec fn clip_is_slow(r: RouteSummary) -> bool {
    match r.aggregates.sei_speed_abs_max {
        Some(m) => fle(m, lit(SUMMON_MAX_SPEED_MPS)),
        None => r.aggregates.speed_sample_count > 0 && fle(
            r.aggregates.max_speed_mps,
            lit(SUMMON_MAX_SPEED_MPS),
        ),
    }
}

pub open spec fn file_is_slow(s: Seq<RouteSummary>, file: Seq<char>) -> bool {
    clip_of(s, file, s.len() as int) matches Some(i) && clip_is_slow(s[i])
}

/// The file can be read again and would gain evidence.
pub open spec fn worth_reading(s: Seq<RouteSummary>, file: Seq<char>) -> bool {
    &&& !holds(file, "-front-bridge.mp4"@)
    &&& clip_of(s, file, s.len() as int) matches Some(i)
    &&& !evidence_is_current(s[i])
}

/// The end of the slow files from `i` on, within an edge.
pub open spec fn slow_until(s: Seq<RouteSummary>, files: Seq<Seq<char>>, i: int) -> int
    decreases files.len() - i,
{
    if i < 0 || i >= files.len() || i >= MAX_EDGE_CLIPS || !file_is_slow(s, files[i]) {
        i
    } else {
        slow_until(s, files, i + 1)
    }
}

/// How many files of the head of a drive are looked at: the slow run and one
/// file past it.
pub open spec fn edge_length(s: Seq<RouteSummary>, files: Seq<Seq<char>>) -> int {
    let k = slow_until(s, files, 0);
    if 0 < k < MAX_EDGE_CLIPS && k < files.len() {
        k + 1
    } else {
        k
    }
}

/// The whole drive fits the speed and length of a summon.
pub open spec fn drive_is_slow(s: Seq<RouteSummary>, c: Seq<SubClipSummary>) -> bool {
    fle(
        rounded2(fmul(top_speed(s, c, c.len() as int), lit(MPS_TO_MPH))),
        fadd(fmul(lit(SUMMON_MAX_SPEED_MPS), lit(MPS_TO_MPH)), lit(ROUNDING_GUARD_MPH)),
    ) && span(drive_start(c), drive_end(c)) <= SUMMON_MAX_DURATION_MS
}

/// The drive is already flagged, or came from elsewhere and cannot gain evidence.
pub open spec fn drive_is_settled(s: Seq<RouteSummary>, c: Seq<SubClipSummary>) -> bool {
    imported(text_view(s[c[0].summary as int].source)) || drive_is_summon(s, c)
}

/// The files of one drive that could hide a summon, in the order in which they
/// are looked at.
pub open spec fn suspects(s: Seq<RouteSummary>, c: Seq<SubClipSummary>) -> Seq<Seq<char>> {
    let files = drive_files(s, c, c.len() as int);
    if drive_is_settled(s, c) {
        Seq::empty()
    } else if drive_is_slow(s, c) {
        files
    } else {
        files.take(edge_length(s, files)) + files.reverse().take(edge_length(s, files.reverse()))
    }
}

/// The drive could hide a summon.
pub open spec fn is_candidate(s: Seq<RouteSummary>, c: Seq<SubClipSummary>) -> bool {
    let files = drive_files(s, c, c.len() as int);
    !drive_is_settled(s, c) && (drive_is_slow(s, c) || slow_until(s, files, 0) > 0 || slow_until(
        s,
        files.reverse(),
        0,
    ) > 0)
}

/// `out` with the first `n` of `files` added, each once and only where worth it.
pub open spec fn queued(
    s: Seq<RouteSummary>,
    out: Seq<Seq<char>>,
    files: Seq<Seq<char>>,
    n: int,
) -> Seq<Seq<char>>
    decreases n,
{
    if n <= 0 {
        out
    } else {
        let before = queued(s, out, files, n - 1);
        if worth_reading(s, files[n - 1]) && !before.contains(files[n - 1]) {
            before.push(files[n - 1])
        } else {
            before
        }
    }
}

/// The files of the first `n` drives.
pub open spec fn candidate_files(
    s: Seq<RouteSummary>,
    groups: Seq<Seq<SubClipSummary>>,
    n: int,
) -> Seq<Seq<char>>
    decreases n,
{
    if n <= 0 {
        Seq::empty()
    } else {
        let found = suspects(s, groups[n - 1]);
        queued(s, candidate_files(s, groups, n - 1), found, found.len() as int)
    }
}

/// How many of the first `n` drives are candidates.
pub open spec fn candidate_count(
    s: Seq<RouteSummary>,
    groups: Seq<Seq<SubClipSummary>>,
    n: int,
) -> int
    decreases n,
{
    if n <= 0 {
        0
    } else if is_candidate(s, groups[n - 1]) {
        candidate_count(s, groups, n - 1) + 1
    } else {
        candidate_count(s, groups, n - 1)
    }
}

fn find_clip(summaries: &[RouteSummary], file: &str) -> (r: Option<usize>)
    ensures
        match r {
            Some(i) => i < summaries@.len() && clip_of(
                summaries@,
                file@,
                summaries@.len() as int,
            ) == Some(i as int),
            None => clip_of(summaries@, file@, summaries@.len() as int) is None,
        },
{
    let mut n: usize = summaries.len();
    while n > 0
        invariant
            n <= summaries@.len(),
            clip_of(summaries@, file@, summaries@.len() as int) == clip_of(
                summaries@,
                file@,
                n as int,
            ),
        decreases n,
    {
        if same_text(summaries[n - 1].file.as_str(), file) {
            return Some(n - 1);
        }
        n = n - 1;
    }
    None
}

fn has_current_evidence(r: &RouteSummary) -> (b: bool)
    ensures
        b == evidence_is_current(*r),
{
    let mut i: usize = 0;
    while i < r.flag_runs.len()
        invariant
            i <= r.flag_runs@.len(),
            forall|k: int|
                0 <= k < i ==> ((#[trigger] r.flag_runs@[k]).max_mps matches Some(m) && is_finite(
                    m,
                )),
        decreases r.flag_runs.len() - i,
    {
        match r.flag_runs[i].max_mps {
            Some(m) => {
                if !m.finite() {
                    return false;
                }
            },
            None => {
                return false;
            },
        }
        i = i + 1;
    }
    r.flag_runs.len() > 0
}

fn route_is_slow(summaries: &[RouteSummary], file: &str) -> (b: bool)
    ensures
        b == file_is_slow(summaries@, file@),
{
    match find_clip(summaries, file) {
        None => false,
        Some(i) => {
            let a: RouteAggregates = summaries[i].aggregates;
            match a.sei_speed_abs_max {
                Some(m) => m.le(F64::from_bits(SUMMON_MAX_SPEED_MPS)),
                None => a.speed_sample_count > 0 && a.max_speed_mps.le(
                    F64::from_bits(SUMMON_MAX_SPEED_MPS),
                ),
            }
        },
    }
}

fn is_worth_reading(summaries: &[RouteSummary], file: &str) -> (b: bool)
    ensures
        b == worth_reading(summaries@, file@),
{
    let cs: Vec<char> = chars_of(file);
    if contains_text(cs.as_slice(), "-front-bridge.mp4") {
        return false;
    }
    match find_clip(summaries, file) {
        None => false,
        Some(i) => !has_current_evidence(&summaries[i]),
    }
}

/// Whether a text stands in a list.
pub fn lists(out: &Vec<String>, file: &str) -> (b: bool)
    ensures
        b == texts(out@).contains(file@),
{
    let mut i: usize = 0;
    while i < out.len()
        invariant
            i <= out@.len(),
            forall|k: int| 0 <= k < i ==> (#[trigger] out@[k])@ != file@,
        decreases out.len() - i,
    {
        if same_text(out[i].as_str(), file) {
            proof {
                assert(texts(out@)[i as int] == file@);
            }
            return true;
        }
        i = i + 1;
    }
    proof {
        if texts(out@).contains(file@) {
            let k = choose|k: int| 0 <= k < texts(out@).len() && texts(out@)[k] == file@;
            assert(out@[k]@ == file@);
        }
    }
    false
}

/// The length of the edge at the head of `files`, or at their tail.
fn measure_edge(summaries: &[RouteSummary], files: &Vec<String>, tail: bool) -> (r: (usize, bool))
    ensures
        r.0 <= files@.len(),
        ({
            let seen = if tail {
                texts(files@).reverse()
            } else {
                texts(files@)
            };
            r.0 == edge_length(summaries@, seen) && r.1 == (slow_until(summaries@, seen, 0) > 0)
        }),
{
    let ghost seen = if tail {
        texts(files@).reverse()
    } else {
        texts(files@)
    };
    let n: usize = files.len();
    let mut k: usize = 0;
    let mut going: bool = true;
    while going && k < n && k < MAX_EDGE_CLIPS
        invariant
            k <= n,
            k <= MAX_EDGE_CLIPS,
            n == files@.len(),
            seen == if tail {
                texts(files@).reverse()
            } else {
                texts(files@)
            },
            slow_until(summaries@, seen, 0) == slow_until(summaries@, seen, k as int),
            !going ==> k < n && k < MAX_EDGE_CLIPS && !file_is_slow(summaries@, seen[k as int]),
        decreases n - k + (if going { 1int } else { 0int }),
    {
        let at: usize = if tail {
            n - 1 - k
        } else {
            k
        };
        proof {
            assert(seen[k as int] == files@[at as int]@);
        }
        if route_is_slow(summaries, files[at].as_str()) {
            k = k + 1;
        } else {
            going = false;
        }
    }
    if k > 0 && k < MAX_EDGE_CLIPS && k < n {
        (k + 1, true)
    } else {
        (k, k > 0)
    }
}

/// Adds the first `count` files, or the last, last first.
fn queue_files(
    summaries: &[RouteSummary],
    files: &Vec<String>,
    tail: bool,
    count: usize,
    out: &mut Vec<String>,
)
    requires
        count <= files@.len(),
    ensures
        ({
            let seen = if tail {
                texts(files@).reverse()
            } else {
                texts(files@)
            };
            texts(final(out)@) == queued(summaries@, texts(old(out)@), seen, count as int)
        }),
{
    let ghost seen = if tail {
        texts(files@).reverse()
    } else {
        texts(files@)
    };
    let ghost start = texts(out@);
    let n: usize = files.len();
    let mut k: usize = 0;
    while k < count
        invariant
            k <= count <= n,
            n == files@.len(),
            seen == if tail {
                texts(files@).reverse()
            } else {
                texts(files@)
            },
            texts(out@) == queued(summaries@, start, seen, k as int),
        decreases count - k,
    {
        let at: usize = if tail {
            n - 1 - k
        } else {
            k
        };
        proof {
            assert(seen[k as int] == files@[at as int]@);
        }
        if is_worth_reading(summaries, files[at].as_str()) && !lists(out, files[at].as_str()) {
            let ghost before = texts(out@);
            let f: String = files[at].clone();
            out.push(f);
            proof {
                assert(texts(out@) =~= before.push(f@));
            }
        }
        k = k + 1;
    }
}

proof fn lemma_queued_joins(
    s: Seq<RouteSummary>,
    out: Seq<Seq<char>>,
    a: Seq<Seq<char>>,
    b: Seq<Seq<char>>,
    n: int,
)
    requires
        0 <= n <= a.len() + b.len(),
    ensures
        queued(s, out, a + b, n) == if n <= a.len() {
            queued(s, out, a, n)
        } else {
            queued(s, queued(s, out, a, a.len() as int), b, n - a.len())
        },
    decreases n,
{
    if n > 0 {
        lemma_queued_joins(s, out, a, b, n - 1);
        if n <= a.len() {
            assert((a + b)[n - 1] == a[n - 1]);
        } else {
            let x = queued(s, out, a, a.len() as int);
            assert(queued(s, x, b, 0) == x);
            assert((a + b)[n - 1] == b[n - 1 - a.len()]);
        }
    }
}

proof fn lemma_queued_takes(s: Seq<RouteSummary>, out: Seq<Seq<char>>, a: Seq<Seq<char>>, k: int, n: int)
    requires
        0 <= n <= k <= a.len(),
    ensures
        queued(s, out, a.take(k), n) == queued(s, out, a, n),
    decreases n,
{
    if n > 0 {
        lemma_queued_takes(s, out, a, k, n - 1);
    }
}

/// The clips that could hide a summon but lack current flag evidence.
pub fn summon_check_candidates(summaries: &[RouteSummary]) -> (r: SummonCheckCandidates)
    requires
        summaries_fit(summaries@),
        flag_runs_fit(summaries@),
    ensures
        r.candidate_drives == candidate_count(
            summaries@,
            sub_drives(summaries@),
            sub_drives(summaries@).len() as int,
        ),
        texts(r.files@) == candidate_files(
            summaries@,
            sub_drives(summaries@),
            sub_drives(summaries@).len() as int,
        ),
{
    let limit: F64 = F64::from_bits(SUMMON_MAX_SPEED_MPS).times(
        F64::from_bits(MPS_TO_MPH),
    ).plus(F64::from_bits(ROUNDING_GUARD_MPH));
    let groups: Vec<Vec<SubClipSummary>> = group_summary_clips(summaries);
    let mut out: Vec<String> = Vec::new();
    let mut count: usize = 0;
    let mut i: usize = 0;
    proof {
        assert(texts(out@) =~= candidate_files(summaries@, sub_drives(summaries@), 0));
    }
    while i < groups.len()
        invariant
            i <= groups.len(),
            count <= i,
            views(groups@) == sub_drives(summaries@),
            flag_runs_fit(summaries@),
            limit == fadd(
                fmul(lit(SUMMON_MAX_SPEED_MPS), lit(MPS_TO_MPH)),
                lit(ROUNDING_GUARD_MPH),
            ),
            forall|k: int|
                0 <= k < groups@.len() ==> (#[trigger] groups@[k])@.len() > 0 && subs_fit(
                    summaries@.len() as int,
                    groups@[k]@,
                ),
            count == candidate_count(summaries@, sub_drives(summaries@), i as int),
            texts(out@) == candidate_files(summaries@, sub_drives(summaries@), i as int),
        decreases groups.len() - i,
    {
        let ghost c = groups@[i as int]@;
        let ghost before = texts(out@);
        proof {
            assert(views(groups@)[i as int] == c);
            assert(c.len() > 0);
        }
        let files: Vec<String> = collect_files(summaries, &groups[i]);
        let ghost all = texts(files@);
        let shape: DriveShape = drive_shape(summaries, groups[i].as_slice());
        if !shape.imported && !shape.summon {
            if shape.max_speed_mph.le(limit) && shape.duration_ms <= SUMMON_MAX_DURATION_MS {
                count = count + 1;
                queue_files(summaries, &files, false, files.len(), &mut out);
            } else {
                let head: (usize, bool) = measure_edge(summaries, &files, false);
                let tail: (usize, bool) = measure_edge(summaries, &files, true);
                queue_files(summaries, &files, false, head.0, &mut out);
                queue_files(summaries, &files, true, tail.0, &mut out);
                proof {
                    let a = all.take(head.0 as int);
                    let b = all.reverse().take(tail.0 as int);
                    lemma_queued_joins(summaries@, before, a, b, (a + b).len() as int);
                    lemma_queued_takes(summaries@, before, all, head.0 as int, head.0 as int);
                    lemma_queued_takes(
                        summaries@,
                        queued(summaries@, before, a, a.len() as int),
                        all.reverse(),
                        tail.0 as int,
                        tail.0 as int,
                    );
                    if b.len() == 0 {
                        assert(a + b =~= a);
                    }
                }
                if head.1 || tail.1 {
                    count = count + 1;
                }
            }
        }
        i = i + 1;
    }
    proof {
        assert(views(groups@).len() == groups@.len());
    }
    SummonCheckCandidates { candidate_drives: count, files: out }
}

// ---------------------------------------------------------------------------
// Laws
// ---------------------------------------------------------------------------

/// All of `out` are worth reading, and none stands there twice.
pub open spec fn is_work_list(s: Seq<RouteSummary>, out: Seq<Seq<char>>) -> bool {
    &&& forall|i: int| 0 <= i < out.len() ==> worth_reading(s, #[trigger] out[i])
    &&& out.no_duplicates()
}

proof fn lemma_queued_is_work_list(
    s: Seq<RouteSummary>,
    out: Seq<Seq<char>>,
    files: Seq<Seq<char>>,
    n: int,
)
    requires
        0 <= n <= files.len(),
        is_work_list(s, out),
    ensures
        is_work_list(s, queued(s, out, files, n)),
    decreases n,
{
    if n > 0 {
        lemma_queued_is_work_list(s, out, files, n - 1);
    }
}

/// Every file listed is a real clip of the store that lacks current evidence,
/// and none is listed twice.
pub proof fn law_candidates_lack_evidence(
    s: Seq<RouteSummary>,
    groups: Seq<Seq<SubClipSummary>>,
    n: int,
)
    requires
        0 <= n <= groups.len(),
    ensures
        is_work_list(s, candidate_files(s, groups, n)),
    decreases n,
{
    if n > 0 {
        law_candidates_lack_evidence(s, groups, n - 1);
        let found = suspects(s, groups[n - 1]);
        lemma_queued_is_work_list(
            s,
            candidate_files(s, groups, n - 1),
            found,
            found.len() as int,
        );
    }
}

} // verus!
