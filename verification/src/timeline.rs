//! Clips in time: which ones take part, in what order, and where a pause between
//! them ends a drive.

use crate::clock::{clip_stamp, parse_clip_timestamp, span, span_ms};
use crate::gapfill::{Cand, GapFillCandidate, cand_views, gap_fill, positions, select_gap_fill};
use crate::text::{begins_with, slashed, slashed_chars, text_of};
use vstd::prelude::*;

verus! {

/// A pause longer than this between clips ends a drive.
pub const DRIVE_GAP_MS: i64 = 300_000;

/// What the time line reads of a stored clip.
#[derive(Clone, Copy, Debug)]
pub struct ClipKey<'a> {
    pub file: &'a str,
    /// Its telemetry shows driving.
    pub driving: bool,
    /// A gear other than Park was recorded in its gear runs.
    pub gear_driving: bool,
}

/// The same with the path as text.
pub struct Key {
    pub file: Seq<char>,
    pub driving: bool,
    pub gear_driving: bool,
}

pub open spec fn key_views(keys: Seq<ClipKey>) -> Seq<Key> {
    Seq::new(
        keys.len(),
        |i: int|
            Key {
                file: keys[i].file@,
                driving: keys[i].driving,
                gear_driving: keys[i].gear_driving,
            },
    )
}

/// A clip with its time, by its position among the stored clips.
#[derive(Clone, Copy, Debug, PartialEq, Eq, Structural)]
pub struct Timed {
    pub index: usize,
    pub ts: i64,
}

/// The path lies in an event folder at top level.
pub open spec fn event_path(file: Seq<char>) -> bool {
    "SavedClips/"@.is_prefix_of(slashed(file)) || "SentryClips/"@.is_prefix_of(slashed(file))
}

/// True when a path lies in an event folder. Backslashes count as slashes.
pub fn is_event_folder_path(file: &str) -> (b: bool)
    ensures
        b == event_path(file@),
{
    let cs: Vec<char> = slashed_chars(file);
    begins_with(&cs, "SavedClips/") || begins_with(&cs, "SentryClips/")
}

/// No earlier clip has the path of clip `i`.
pub open spec fn first_of_path(keys: Seq<Key>, i: int) -> bool {
    forall|j: int| 0 <= j < i ==> slashed((#[trigger] keys[j]).file) != slashed(keys[i].file)
}

/// Clip `i` belongs to the continuous recording and has a time.
pub open spec fn is_recent(keys: Seq<Key>, i: int) -> bool {
    first_of_path(keys, i) && !event_path(keys[i].file) && clip_stamp(keys[i].file) is Some
}

/// Clip `i` is an event clip with a time.
pub open spec fn is_event(keys: Seq<Key>, i: int) -> bool {
    first_of_path(keys, i) && event_path(keys[i].file) && clip_stamp(keys[i].file) is Some
}

pub open spec fn timed(keys: Seq<Key>, i: int) -> Timed {
    Timed { index: i as usize, ts: (clip_stamp(keys[i].file)->0) as i64 }
}

/// `line` with `x` put behind every clip that is not later.
pub open spec fn in_time(line: Seq<Timed>, x: Timed) -> Seq<Timed>
    decreases line.len(),
{
    if line.len() == 0 || line.last().ts <= x.ts {
        line.push(x)
    } else {
        in_time(line.drop_last(), x).push(line.last())
    }
}

/// The continuous clips among the first `n`, in time.
pub open spec fn recents(keys: Seq<Key>, n: int) -> Seq<Timed>
    decreases n,
{
    if n <= 0 {
        Seq::empty()
    } else if is_recent(keys, n - 1) {
        in_time(recents(keys, n - 1), timed(keys, n - 1))
    } else {
        recents(keys, n - 1)
    }
}

/// The event clips among the first `n`, as stored.
pub open spec fn events(keys: Seq<Key>, n: int) -> Seq<Timed>
    decreases n,
{
    if n <= 0 {
        Seq::empty()
    } else if is_event(keys, n - 1) {
        events(keys, n - 1).push(timed(keys, n - 1))
    } else {
        events(keys, n - 1)
    }
}

pub open spec fn times(line: Seq<Timed>) -> Seq<i64> {
    Seq::new(line.len(), |i: int| line[i].ts)
}

/// Event clips as candidates for the gaps of the continuous recording.
pub open spec fn candidates(keys: Seq<Key>, ev: Seq<Timed>) -> Seq<Cand> {
    Seq::new(
        ev.len(),
        |i: int|
            Cand {
                ts: ev[i].ts,
                file: keys[ev[i].index as int].file,
                driving: Some(keys[ev[i].index as int].driving),
                gear_driving: keys[ev[i].index as int].gear_driving,
            },
    )
}

/// `line` with the first `n` of the `chosen` ones of `ev` put in.
pub open spec fn with_chosen(line: Seq<Timed>, ev: Seq<Timed>, chosen: Seq<usize>, n: int) -> Seq<
    Timed,
>
    decreases n,
{
    if n <= 0 {
        line
    } else {
        in_time(with_chosen(line, ev, chosen, n - 1), ev[chosen[n - 1] as int])
    }
}

/// The clips that take part, in time: of clips with one path the first, the
/// continuous recording, and the event clips that fill its gaps. Clips of equal
/// time stay in stored order, continuous ones before event clips.
pub open spec fn time_line(keys: Seq<Key>) -> Seq<Timed> {
    let n = keys.len() as int;
    let line = recents(keys, n);
    let ev = events(keys, n);
    let chosen = gap_fill(times(line), candidates(keys, ev));
    with_chosen(line, ev, chosen, chosen.len() as int)
}

/// All of `line` are positions below `n`.
pub open spec fn indices_below(line: Seq<Timed>, n: int) -> bool {
    forall|i: int| 0 <= i < line.len() ==> (#[trigger] line[i]).index < n
}

/// Puts `x` in its place in time.
pub(crate) fn put_in_time(line: &mut Vec<Timed>, x: Timed, Ghost(n): Ghost<int>)
    requires
        indices_below(old(line)@, n),
        x.index < n,
    ensures
        final(line)@ == in_time(old(line)@, x),
        indices_below(final(line)@, n),
{
    let ghost full = line@;
    let mut at: usize = line.len();
    proof {
        assert(full.take(at as int) =~= full);
        assert(in_time(full, x) + full.skip(at as int) =~= in_time(full, x));
    }
    while at > 0 && line[at - 1].ts > x.ts
        invariant
            at <= line.len(),
            line@ == full,
            in_time(full, x) =~= in_time(full.take(at as int), x) + full.skip(at as int),
        decreases at,
    {
        proof {
            let t = full.take(at as int);
            assert(t.drop_last() =~= full.take(at as int - 1));
            assert(in_time(t, x) == in_time(t.drop_last(), x).push(t.last()));
            assert(in_time(t.drop_last(), x).push(t.last()) + full.skip(at as int) =~= in_time(
                t.drop_last(),
                x,
            ) + full.skip(at as int - 1));
        }
        at = at - 1;
    }
    line.insert(at, x);
    proof {
        let t = full.take(at as int);
        assert(in_time(t, x) == t.push(x));
        assert(line@ =~= t.push(x) + full.skip(at as int));
    }
}

fn first_with_path(paths: &Vec<String>, i: usize) -> (b: bool)
    requires
        i < paths@.len(),
    ensures
        b == (forall|j: int| 0 <= j < i ==> (#[trigger] paths@[j])@ != paths@[i as int]@),
{
    let mut j: usize = 0;
    while j < i
        invariant
            j <= i < paths@.len(),
            forall|k: int| 0 <= k < j ==> (#[trigger] paths@[k])@ != paths@[i as int]@,
        decreases i - j,
    {
        if paths[j] == paths[i] {
            proof {
                assert(paths@[j as int]@ == paths@[i as int]@);
            }
            return false;
        }
        j = j + 1;
    }
    true
}

fn slashed_paths(keys: &[ClipKey]) -> (r: Vec<String>)
    ensures
        r@.len() == keys@.len(),
        forall|i: int|
            0 <= i < keys@.len() ==> (#[trigger] r@[i])@ == slashed(keys@[i].file@),
{
    let mut out: Vec<String> = Vec::new();
    let mut i: usize = 0;
    while i < keys.len()
        invariant
            i <= keys.len(),
            out@.len() == i,
            forall|k: int| 0 <= k < i ==> (#[trigger] out@[k])@ == slashed(keys@[k].file@),
        decreases keys.len() - i,
    {
        let cs: Vec<char> = slashed_chars(keys[i].file);
        out.push(text_of(&cs));
        i = i + 1;
    }
    out
}

/// The clips that take part, in time.
pub fn build_time_line(keys: &[ClipKey]) -> (line: Vec<Timed>)
    ensures
        line@ == time_line(key_views(keys@)),
        indices_below(line@, keys@.len() as int),
{
    let n: usize = keys.len();
    let paths: Vec<String> = slashed_paths(keys);
    let mut line: Vec<Timed> = Vec::new();
    let mut ev: Vec<Timed> = Vec::new();
    let mut i: usize = 0;
    while i < n
        invariant
            i <= n,
            n == keys@.len(),
            paths@.len() == n,
            forall|i: int|
                0 <= i < keys@.len() ==> (#[trigger] paths@[i])@ == slashed(keys@[i].file@),
            line@ == recents(key_views(keys@), i as int),
            ev@ == events(key_views(keys@), i as int),
            indices_below(line@, n as int),
            indices_below(ev@, n as int),
        decreases n - i,
    {
        let first: bool = first_with_path(&paths, i);
        proof {
            assert(first == first_of_path(key_views(keys@), i as int)) by {
                if first {
                    assert forall|j: int| 0 <= j < i implies slashed(
                        (#[trigger] key_views(keys@)[j]).file,
                    ) != slashed(key_views(keys@)[i as int].file) by {
                        assert(paths@[j]@ != paths@[i as int]@);
                    }
                } else {
                    let j = choose|j: int|
                        0 <= j < i && (#[trigger] paths@[j])@ == paths@[i as int]@;
                    assert(slashed(key_views(keys@)[j].file) == slashed(
                        key_views(keys@)[i as int].file,
                    ));
                }
            }
        }
        if first {
            match parse_clip_timestamp(keys[i].file) {
                Some(ts) => {
                    let t: Timed = Timed { index: i, ts };
                    proof {
                        assert(t == timed(key_views(keys@), i as int));
                    }
                    if is_event_folder_path(keys[i].file) {
                        ev.push(t);
                    } else {
                        put_in_time(&mut line, t, Ghost(n as int));
                    }
                },
                None => {},
            }
        }
        i = i + 1;
    }
    let mut recent_ts: Vec<i64> = Vec::new();
    let mut j: usize = 0;
    while j < line.len()
        invariant
            j <= line.len(),
            recent_ts@ =~= times(line@).take(j as int),
        decreases line.len() - j,
    {
        recent_ts.push(line[j].ts);
        j = j + 1;
    }
    proof {
        assert(times(line@).take(line@.len() as int) =~= times(line@));
    }
    let mut cands: Vec<GapFillCandidate> = Vec::new();
    let mut k: usize = 0;
    while k < ev.len()
        invariant
            k <= ev.len(),
            indices_below(ev@, keys@.len() as int),
            cand_views(cands@) =~= candidates(key_views(keys@), ev@).take(k as int),
        decreases ev.len() - k,
    {
        let e: Timed = ev[k];
        let ghost before = cand_views(cands@);
        cands.push(
            GapFillCandidate {
                ts: e.ts,
                file: keys[e.index].file,
                driving: Some(keys[e.index].driving),
                gear_driving: keys[e.index].gear_driving,
            },
        );
        proof {
            assert(cand_views(cands@) =~= before.push(candidates(key_views(keys@), ev@)[k as int]));
        }
        k = k + 1;
    }
    proof {
        assert(candidates(key_views(keys@), ev@).take(ev@.len() as int) =~= candidates(key_views(keys@), ev@));
    }
    let chosen: Vec<usize> = select_gap_fill(&recent_ts, &cands);
    let ghost base = line@;
    let mut m: usize = 0;
    while m < chosen.len()
        invariant
            m <= chosen.len(),
            positions(chosen@, ev@.len() as int),
            indices_below(line@, keys@.len() as int),
            indices_below(ev@, keys@.len() as int),
            line@ == with_chosen(base, ev@, chosen@, m as int),
        decreases chosen.len() - m,
    {
        put_in_time(&mut line, ev[chosen[m]], Ghost(keys@.len() as int));
        m = m + 1;
    }
    line
}

// ---------------------------------------------------------------------------
// Pauses
// ---------------------------------------------------------------------------

/// A pause that ends a drive lies before clip `i`.
pub open spec fn pause_before(line: Seq<Timed>, i: int) -> bool {
    span(line[i - 1].ts as int, line[i].ts as int) > DRIVE_GAP_MS
}

/// The first `n` clips, cut at every pause.
pub open spec fn stretches(line: Seq<Timed>, n: int) -> Seq<Seq<Timed>>
    decreases n,
{
    if n <= 0 {
        Seq::empty()
    } else if n == 1 || pause_before(line, n - 1) {
        stretches(line, n - 1).push(seq![line[n - 1]])
    } else {
        let s = stretches(line, n - 1);
        s.drop_last().push(s.last().push(line[n - 1]))
    }
}

/// Views of the inner sequences.
pub open spec fn views<T>(v: Seq<Vec<T>>) -> Seq<Seq<T>> {
    Seq::new(v.len(), |i: int| v[i]@)
}

/// Cuts a time line at every pause longer than five minutes.
pub fn split_at_pauses(line: &[Timed]) -> (r: Vec<Vec<Timed>>)
    ensures
        views(r@) == stretches(line@, line@.len() as int),
        forall|i: int| 0 <= i < r@.len() ==> (#[trigger] r@[i])@.len() > 0,
        forall|i: int, n: int|
            0 <= i < r@.len() && #[trigger] indices_below(line@, n) ==> indices_below(
                (#[trigger] r@[i])@,
                n,
            ),
{
    let mut out: Vec<Vec<Timed>> = Vec::new();
    let mut current: Vec<Timed> = Vec::new();
    let mut i: usize = 0;
    proof {
        assert(views(out@) =~= stretches(line@, 0));
    }
    while i < line.len()
        invariant
            i <= line.len(),
            i == 0 ==> out@.len() == 0 && current@.len() == 0,
            i > 0 ==> current@.len() > 0 && current@.last() == line@[i - 1],
            i > 0 ==> views(out@).push(current@) == stretches(line@, i as int),
            forall|k: int| 0 <= k < out@.len() ==> (#[trigger] out@[k])@.len() > 0,
            forall|k: int, n: int|
                0 <= k < out@.len() && #[trigger] indices_below(line@, n) ==> indices_below(
                    (#[trigger] out@[k])@,
                    n,
                ),
            forall|n: int| #[trigger] indices_below(line@, n) ==> indices_below(current@, n),
        decreases line.len() - i,
    {
        let ghost before = views(out@).push(current@);
        if i > 0 && span_ms(line[i - 1].ts, line[i].ts) > DRIVE_GAP_MS {
            let mut done: Vec<Timed> = Vec::new();
            std::mem::swap(&mut done, &mut current);
            out.push(done);
            proof {
                assert(views(out@) =~= before);
            }
        }
        let ghost cur = current@;
        current.push(line[i]);
        proof {
            if i == 0 || pause_before(line@, i as int) {
                assert(current@ =~= seq![line@[i as int]]);
                if i == 0 {
                    assert(stretches(line@, 0) =~= views(out@));
                    assert(views(out@).push(current@) =~= stretches(line@, 1));
                }
            } else {
                assert(before.drop_last() =~= views(out@));
                assert(before.last() == cur);
            }
        }
        i = i + 1;
    }
    if line.len() > 0 {
        let ghost before = views(out@).push(current@);
        out.push(current);
        proof {
            assert(views(out@) =~= before);
        }
    }
    out
}

// ---------------------------------------------------------------------------
// Laws
// ---------------------------------------------------------------------------

/// Inner sequences one after another.
pub open spec fn joined<T>(s: Seq<Seq<T>>) -> Seq<T>
    decreases s.len(),
{
    if s.len() == 0 {
        Seq::empty()
    } else {
        joined(s.drop_last()) + s.last()
    }
}

/// Cutting a time line at its pauses neither loses, repeats nor reorders a clip.
pub proof fn law_stretches_keep_every_clip(line: Seq<Timed>, n: int)
    requires
        0 <= n <= line.len(),
    ensures
        joined(stretches(line, n)) == line.take(n),
        n > 0 ==> stretches(line, n).len() > 0 && stretches(line, n).last().len() > 0 && stretches(
            line,
            n,
        ).last().last() == line[n - 1],
    decreases n,
{
    if n <= 0 {
        assert(joined(stretches(line, n)) =~= line.take(n));
    } else {
        law_stretches_keep_every_clip(line, n - 1);
        let s = stretches(line, n - 1);
        let t = stretches(line, n);
        if n == 1 || pause_before(line, n - 1) {
            assert(t.drop_last() =~= s);
        } else {
            assert(t.drop_last() =~= s.drop_last());
            assert(joined(s) == joined(s.drop_last()) + s.last());
        }
        assert(line.take(n) =~= line.take(n - 1).push(line[n - 1]));
        assert(joined(t) == joined(t.drop_last()) + t.last());
        assert(joined(t) =~= line.take(n));
    }
}

/// Within a stretch no pause is longer than five minutes.
pub proof fn law_stretches_hold_no_pause(line: Seq<Timed>, n: int, g: int, i: int)
    requires
        0 <= n <= line.len(),
        0 <= g < stretches(line, n).len(),
        1 <= i < stretches(line, n)[g].len(),
    ensures
        span(
            stretches(line, n)[g][i - 1].ts as int,
            stretches(line, n)[g][i].ts as int,
        ) <= 300_000,
    decreases n,
{
    if n > 0 {
        law_stretches_keep_every_clip(line, n - 1);
        let s = stretches(line, n - 1);
        if n == 1 || pause_before(line, n - 1) {
            if g < s.len() {
                law_stretches_hold_no_pause(line, n - 1, g, i);
            }
        } else {
            if g < s.len() - 1 {
                law_stretches_hold_no_pause(line, n - 1, g, i);
            } else if i < s.last().len() {
                law_stretches_hold_no_pause(line, n - 1, g, i);
            }
        }
    }
}

/// A drive ends only at a pause: from the last clip of a stretch to the first clip of
/// the next one more than five minutes pass. Clips that follow each other within five
/// minutes stay in one stretch, however long it grows.
pub proof fn law_stretches_end_at_a_pause(line: Seq<Timed>, n: int, g: int)
    requires
        0 <= n <= line.len(),
        0 <= g < stretches(line, n).len() - 1,
    ensures
        stretches(line, n)[g].len() > 0,
        stretches(line, n)[g + 1].len() > 0,
        span(
            stretches(line, n)[g].last().ts as int,
            stretches(line, n)[g + 1][0].ts as int,
        ) > 300_000,
    decreases n,
{
    if n > 0 {
        law_stretches_keep_every_clip(line, n - 1);
        law_stretches_keep_every_clip(line, n);
        let s = stretches(line, n - 1);
        if g < s.len() - 1 {
            law_stretches_end_at_a_pause(line, n - 1, g);
        }
    }
}

/// How many pauses lie among the first `n` clips.
pub open spec fn pauses(line: Seq<Timed>, n: int) -> Set<int> {
    Set::new(|i: int| 0 < i < n && span(line[i - 1].ts as int, line[i].ts as int) > 300_000)
}

/// There is one drive more than there are pauses: as many clips start a stretch as
/// follow a pause, and the first one.
pub proof fn law_every_pause_starts_a_stretch(line: Seq<Timed>, n: int)
    requires
        0 < n <= line.len(),
    ensures
        pauses(line, n).finite(),
        stretches(line, n).len() == pauses(line, n).len() + 1,
    decreases n,
{
    if n == 1 {
        assert(pauses(line, n) =~= Set::empty());
        assert(stretches(line, 0).len() == 0);
    } else {
        law_every_pause_starts_a_stretch(line, n - 1);
        law_stretches_keep_every_clip(line, n - 1);
        if span(line[n - 2].ts as int, line[n - 1].ts as int) > 300_000 {
            assert(pauses(line, n) =~= pauses(line, n - 1).insert(n - 1));
        } else {
            assert(pauses(line, n) =~= pauses(line, n - 1));
        }
    }
}

/// The line is ascending in time.
pub open spec fn ascending_line(line: Seq<Timed>) -> bool {
    forall|i: int, j: int|
        0 <= i <= j < line.len() ==> (#[trigger] line[i]).ts <= (#[trigger] line[j]).ts
}

proof fn lemma_in_time(line: Seq<Timed>, x: Timed)
    requires
        ascending_line(line),
    ensures
        ascending_line(in_time(line, x)),
        in_time(line, x).len() == line.len() + 1,
        in_time(line, x).to_multiset() == line.to_multiset().insert(x),
        in_time(line, x).last().ts == if line.len() > 0 && line.last().ts > x.ts {
            line.last().ts
        } else {
            x.ts
        },
    decreases line.len(),
{
    broadcast use vstd::seq_lib::group_to_multiset_ensures;

    if line.len() == 0 || line.last().ts <= x.ts {
        if line.len() > 0 {
            assert forall|i: int| 0 <= i < line.len() implies (#[trigger] line[i]).ts <= x.ts by {
                assert(line[i].ts <= line[line.len() - 1].ts);
            }
        }
    } else {
        let head = line.drop_last();
        assert forall|i: int, j: int| 0 <= i <= j < head.len() implies (#[trigger] head[i]).ts <= (
        #[trigger] head[j]).ts by {
            assert(line[i].ts <= line[j].ts);
        }
        lemma_in_time(head, x);
        let t = in_time(head, x);
        if head.len() > 0 {
            assert(line[head.len() - 1].ts <= line[line.len() - 1].ts);
        }
        assert forall|i: int| 0 <= i < t.len() implies (#[trigger] t[i]).ts <= line.last().ts by {
            assert(t[i].ts <= t[t.len() - 1].ts);
        }
        assert(line =~= head.push(line.last()));
        assert(line.to_multiset() =~= head.to_multiset().insert(line.last()));
        assert(in_time(line, x).to_multiset() =~= line.to_multiset().insert(x));
    }
}

proof fn lemma_recents(keys: Seq<Key>, n: int)
    requires
        0 <= n <= keys.len(),
    ensures
        ascending_line(recents(keys, n)),
    decreases n,
{
    if n > 0 {
        lemma_recents(keys, n - 1);
        if is_recent(keys, n - 1) {
            lemma_in_time(recents(keys, n - 1), timed(keys, n - 1));
        }
    }
}

proof fn lemma_with_chosen(line: Seq<Timed>, ev: Seq<Timed>, chosen: Seq<usize>, n: int)
    requires
        ascending_line(line),
        0 <= n <= chosen.len(),
    ensures
        ascending_line(with_chosen(line, ev, chosen, n)),
    decreases n,
{
    if n > 0 {
        lemma_with_chosen(line, ev, chosen, n - 1);
        lemma_in_time(with_chosen(line, ev, chosen, n - 1), ev[chosen[n - 1] as int]);
    }
}

/// The time line is in time.
pub proof fn law_time_line_is_ascending(keys: Seq<Key>)
    ensures
        ascending_line(time_line(keys)),
{
    let n = keys.len() as int;
    lemma_recents(keys, n);
    let line = recents(keys, n);
    let ev = events(keys, n);
    let chosen = gap_fill(times(line), candidates(keys, ev));
    lemma_with_chosen(line, ev, chosen, chosen.len() as int);
}

} // verus!
