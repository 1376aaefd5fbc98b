//! Decisions of the clip intake: what to read, what to keep, what to report.

use crate::analytics::{insert_text, is_ascending};
use crate::candidates::lists;
use crate::clock::{clip_stamp, parse_clip_timestamp};
use crate::gapfill::{
    Cand, gap_fill, interior_fill, positions, select_gap_fill_events, select_interior_fill,
    shows_driving, telemetry_has_driving, unseen,
};
use crate::store::{canonical, normalize_path};
use crate::subclips::{summary_drives, summary_has_driving};
use crate::summary::{text_view, texts};
use crate::text::{
    after_last_slash, base_name, chars_in_bytes, chars_of, copy_range, cut_at, lemma_utf8_grows,
    push_text, same_text, text_before, text_of,
};
use crate::timeline::{event_path, is_event_folder_path};
use crate::types::{ExtractedGps, ProcessingStatus, RouteSummary};
use vstd::prelude::*;

verus! {

/// A checkpoint is due after every so many files.
pub const SAVE_EVERY: usize = 50;

/// Progress is reported after every so many files.
pub const REPORT_EVERY: usize = 10;

/// At most so many error messages are kept.
pub const MAX_ERROR_MESSAGES: usize = 200;

/// Bytes of a time stamp at the head of a clip's name.
pub const STAMP_BYTES: usize = 19;

/// `slice::sort` of the standard library on texts, which are ordered by their
/// bytes and so by their characters. Claims that the result ascends and holds
/// the same texts, each as often as before.
#[verifier::external_body]
pub(crate) fn sort_texts(v: &mut Vec<String>)
    ensures
        forall|i: int, j: int|
            0 <= i < j < final(v)@.len() ==> !text_before(
                (#[trigger] final(v)@[j])@,
                (#[trigger] final(v)@[i])@,
            ),
        texts(final(v)@).to_multiset() == texts(old(v)@).to_multiset(),
{
    v.sort()
}

// ---------------------------------------------------------------------------
// Scanning
// ---------------------------------------------------------------------------

pub open spec fn names_event_folder(name: Seq<char>) -> bool {
    name == "SavedClips"@ || name == "SentryClips"@
}

/// Whether a directory holds event clips.
pub fn is_event_folder(name: &str) -> (b: bool)
    ensures
        b == names_event_folder(name@),
{
    same_text(name, "SavedClips") || same_text(name, "SentryClips")
}

/// Whether the target of a link, given by its components, lies in an event
/// folder.
pub fn leads_to_event(components: &Vec<String>) -> (b: bool)
    ensures
        b == exists|i: int|
            0 <= i < components@.len() && names_event_folder((#[trigger] components@[i])@),
{
    let mut i: usize = 0;
    while i < components.len()
        invariant
            i <= components@.len(),
            forall|k: int| 0 <= k < i ==> !names_event_folder((#[trigger] components@[k])@),
        decreases components.len() - i,
    {
        if is_event_folder(components[i].as_str()) {
            proof {
                assert(names_event_folder(components@[i as int]@));
            }
            return true;
        }
        i = i + 1;
    }
    false
}

/// Whether a scan goes into a directory.
pub fn enters_dir(name: &str, skip_event_dirs: bool) -> (b: bool)
    ensures
        b == !(skip_event_dirs && names_event_folder(name@)),
{
    !(skip_event_dirs && is_event_folder(name))
}

/// `s` ends with `suffix`.
pub open spec fn ends_with_text(s: Seq<char>, suffix: Seq<char>) -> bool {
    suffix.len() <= s.len() && s.skip(s.len() - suffix.len()) == suffix
}

fn has_ending(cs: &[char], suffix: &str) -> (b: bool)
    ensures
        b == ends_with_text(cs@, suffix@),
{
    let ps: Vec<char> = chars_of(suffix);
    if cs.len() < ps.len() {
        return false;
    }
    let from: usize = cs.len() - ps.len();
    let tail: Vec<char> = copy_range(cs, from, cs.len());
    let text: String = text_of(tail.as_slice());
    proof {
        assert(tail@ =~= cs@.skip(from as int));
    }
    same_text(text.as_str(), suffix)
}

/// Whether a scan takes a file: a front camera clip, and no link back to an event
/// clip where those are skipped.
pub fn takes_file(name: &str, skip_event_dirs: bool, crosslink: bool) -> (b: bool)
    ensures
        b == (ends_with_text(name@, "-front.mp4"@) && !(skip_event_dirs && crosslink)),
{
    let cs: Vec<char> = chars_of(name);
    has_ending(cs.as_slice(), "-front.mp4") && !(skip_event_dirs && crosslink)
}

/// The leading component of a path: the folder of a clip.
pub open spec fn first_component(path: Seq<char>, i: int) -> Seq<char>
    decreases path.len() - i,
{
    if i < 0 || i >= path.len() {
        path
    } else if path[i] == '/' {
        path.take(i)
    } else {
        first_component(path, i + 1)
    }
}

/// The folder that a clip is filed under.
pub fn date_dir_of(file: &str) -> (r: String)
    ensures
        r@ == first_component(file@, 0),
{
    let cs: Vec<char> = chars_of(file);
    let mut i: usize = 0;
    while i < cs.len() && cs[i] != '/'
        invariant
            i <= cs@.len(),
            cs@ == file@,
            first_component(file@, 0) == first_component(file@, i as int),
        decreases cs.len() - i,
    {
        i = i + 1;
    }
    let head: Vec<char> = copy_range(cs.as_slice(), 0, i);
    proof {
        if i < cs@.len() {
            assert(head@ =~= file@.take(i as int));
        } else {
            assert(head@ =~= file@);
        }
    }
    text_of(head.as_slice())
}

// ---------------------------------------------------------------------------
// What is left to read
// ---------------------------------------------------------------------------

/// The first `n` files whose key is not `processed`.
pub open spec fn unread(
    files: Seq<Seq<char>>,
    processed: Seq<Seq<char>>,
    n: int,
) -> Seq<Seq<char>>
    decreases n,
{
    if n <= 0 {
        Seq::empty()
    } else if processed.contains(canonical(files[n - 1])) {
        unread(files, processed, n - 1)
    } else {
        unread(files, processed, n - 1).push(files[n - 1])
    }
}

/// The files whose key is not processed, in order.
pub fn select_unprocessed(files: &Vec<String>, processed: &Vec<String>) -> (r: Vec<String>)
    ensures
        texts(r@) == unread(texts(files@), texts(processed@), files@.len() as int),
{
    let mut out: Vec<String> = Vec::new();
    let mut i: usize = 0;
    proof {
        assert(texts(out@) =~= unread(texts(files@), texts(processed@), 0));
    }
    while i < files.len()
        invariant
            i <= files@.len(),
            texts(out@) == unread(texts(files@), texts(processed@), i as int),
        decreases files.len() - i,
    {
        let key: String = normalize_path(files[i].as_str());
        proof {
            assert(texts(files@)[i as int] == files@[i as int]@);
        }
        if !lists(processed, key.as_str()) {
            let ghost before = texts(out@);
            let f: String = files[i].clone();
            out.push(f);
            proof {
                assert(texts(out@) =~= before.push(f@));
            }
        }
        i = i + 1;
    }
    out
}

/// Puts texts in order.
pub fn sorted_texts(v: Vec<String>) -> (r: Vec<String>)
    ensures
        forall|i: int, j: int|
            0 <= i < j < r@.len() ==> !text_before((#[trigger] r@[j])@, (#[trigger] r@[i])@),
        texts(r@).to_multiset() == texts(v@).to_multiset(),
{
    let mut out: Vec<String> = v;
    sort_texts(&mut out);
    out
}

/// `t` is the time of a scanned file or of a processed clip outside the event
/// folders.
pub open spec fn anchors(files: Seq<Seq<char>>, processed: Seq<Seq<char>>, t: int) -> bool {
    (exists|i: int| 0 <= i < files.len() && clip_stamp(#[trigger] files[i]) == Some(t)) || (exists|
        i: int,
    |
        0 <= i < processed.len() && !event_path(#[trigger] processed[i]) && clip_stamp(processed[i])
            == Some(t))
}

/// Ascending, each once.
pub open spec fn strictly_ascending(s: Seq<i64>) -> bool {
    forall|i: int, j: int| 0 <= i < j < s.len() ==> #[trigger] s[i] < #[trigger] s[j]
}

fn add_time(line: &mut Vec<i64>, t: i64)
    requires
        strictly_ascending(old(line)@),
    ensures
        strictly_ascending(final(line)@),
        forall|x: i64| #[trigger] final(line)@.contains(x) <==> old(line)@.contains(x) || x == t,
{
    let ghost before = line@;
    let mut at: usize = line.len();
    while at > 0 && line[at - 1] > t
        invariant
            at <= line@.len(),
            line@ == before,
            strictly_ascending(before),
            forall|k: int| at <= k < before.len() ==> #[trigger] before[k] > t,
        decreases at,
    {
        at = at - 1;
    }
    if at > 0 && line[at - 1] == t {
        proof {
            assert(before[at - 1] == t);
        }
        return ;
    }
    line.insert(at, t);
    proof {
        let after = before.insert(at as int, t);
        assert(line@ == after);
        assert(after[at as int] == t);
        assert forall|i: int, j: int| 0 <= i < j < after.len() implies #[trigger] after[i]
            < #[trigger] after[j] by {
            if i < at && at <= j {
                assert(before[i] <= before[at - 1]);
            }
        }
        assert forall|x: i64| #[trigger] after.contains(x) <==> before.contains(x) || x == t by {
            if before.contains(x) {
                let k = choose|k: int| 0 <= k < before.len() && before[k] == x;
                if k < at {
                    assert(after[k] == x);
                } else {
                    assert(after[k + 1] == x);
                }
            }
            if after.contains(x) {
                let k = choose|k: int| 0 <= k < after.len() && after[k] == x;
                if k < at {
                    assert(before[k] == x);
                } else if k > at {
                    assert(before[k - 1] == x);
                }
            }
        }
    }
}

/// The time line of the continuous recording: times of the scanned files and of
/// the processed clips outside the event folders.
pub fn recent_times(files: &Vec<String>, processed: &Vec<String>) -> (r: Vec<i64>)
    ensures
        strictly_ascending(r@),
        forall|t: i64|
            #[trigger] r@.contains(t) <==> anchors(texts(files@), texts(processed@), t as int),
{
    let ghost fs = texts(files@);
    let ghost ps = texts(processed@);
    let mut line: Vec<i64> = Vec::new();
    let mut i: usize = 0;
    while i < files.len()
        invariant
            i <= files@.len(),
            fs == texts(files@),
            strictly_ascending(line@),
            forall|t: i64|
                #[trigger] line@.contains(t) <==> (exists|k: int|
                    0 <= k < i && clip_stamp(#[trigger] fs[k]) == Some(t as int)),
        decreases files.len() - i,
    {
        proof {
            assert(fs[i as int] == files@[i as int]@);
        }
        let stamp: Option<i64> = parse_clip_timestamp(files[i].as_str());
        let ghost before = line@;
        if let Some(t) = stamp {
            add_time(&mut line, t);
        }
        proof {
            assert forall|t: i64| #[trigger] line@.contains(t) <==> (exists|k: int|
                0 <= k < i + 1 && clip_stamp(#[trigger] fs[k]) == Some(t as int)) by {
                if before.contains(t) {
                    let k = choose|k: int|
                        0 <= k < i && clip_stamp(#[trigger] fs[k]) == Some(t as int);
                    assert(clip_stamp(fs[k]) == Some(t as int));
                }
                if stamp == Some(t) {
                    assert(clip_stamp(fs[i as int]) == Some(t as int));
                }
            }
        }
        i = i + 1;
    }
    let mut j: usize = 0;
    while j < processed.len()
        invariant
            j <= processed@.len(),
            fs == texts(files@),
            ps == texts(processed@),
            strictly_ascending(line@),
            forall|t: i64|
                #[trigger] line@.contains(t) <==> (exists|k: int|
                    0 <= k < fs.len() && clip_stamp(#[trigger] fs[k]) == Some(t as int)) || (exists|
                    k: int,
                |
                    0 <= k < j && !event_path(#[trigger] ps[k]) && clip_stamp(ps[k]) == Some(
                        t as int,
                    )),
        decreases processed.len() - j,
    {
        proof {
            assert(ps[j as int] == processed@[j as int]@);
        }
        let event: bool = is_event_folder_path(processed[j].as_str());
        let stamp: Option<i64> = if event {
            None
        } else {
            parse_clip_timestamp(processed[j].as_str())
        };
        let ghost before = line@;
        if let Some(t) = stamp {
            add_time(&mut line, t);
        }
        proof {
            assert forall|t: i64| #[trigger] line@.contains(t) <==> (exists|k: int|
                0 <= k < fs.len() && clip_stamp(#[trigger] fs[k]) == Some(t as int)) || (exists|
                k: int,
            |
                0 <= k < j + 1 && !event_path(#[trigger] ps[k]) && clip_stamp(ps[k]) == Some(
                    t as int,
                )) by {
                if before.contains(t) {
                    if exists|k: int|
                        0 <= k < j && !event_path(#[trigger] ps[k]) && clip_stamp(ps[k]) == Some(
                            t as int,
                        ) {
                        let k = choose|k: int|
                            0 <= k < j && !event_path(#[trigger] ps[k]) && clip_stamp(ps[k])
                                == Some(t as int);
                        assert(!event_path(ps[k]));
                    }
                }
                if stamp == Some(t) {
                    assert(!event_path(ps[j as int]));
                }
            }
        }
        j = j + 1;
    }
    line
}

// ---------------------------------------------------------------------------
// Event clips that fill gaps
// ---------------------------------------------------------------------------

/// The first `n` files with a time in their name, with that time.
pub open spec fn timed_files(files: Seq<Seq<char>>, n: int) -> Seq<(i64, Seq<char>)>
    decreases n,
{
    if n <= 0 {
        Seq::empty()
    } else {
        match clip_stamp(files[n - 1]) {
            Some(t) => timed_files(files, n - 1).push((t as i64, files[n - 1])),
            None => timed_files(files, n - 1),
        }
    }
}

/// Timed files as candidates of which nothing is known yet.
pub open spec fn unknown_candidates(clips: Seq<(i64, Seq<char>)>) -> Seq<Cand> {
    Seq::new(
        clips.len(),
        |i: int|
            Cand { ts: clips[i].0, file: clips[i].1, driving: None, gear_driving: false },
    )
}

/// The event clips to read: unread ones that fill gaps of the recording.
pub open spec fn gap_fillers(
    recent: Seq<i64>,
    event_files: Seq<Seq<char>>,
    processed: Seq<Seq<char>>,
) -> Seq<Seq<char>> {
    let fresh = unread(event_files, processed, event_files.len() as int);
    let clips = timed_files(fresh, fresh.len() as int);
    let chosen = gap_fill(recent, unknown_candidates(clips));
    Seq::new(chosen.len(), |i: int| clips[chosen[i] as int].1)
}

fn time_files<'a>(files: &'a Vec<String>) -> (r: Vec<(i64, &'a str)>)
    ensures
        r@.len() == timed_files(texts(files@), files@.len() as int).len(),
        forall|i: int|
            0 <= i < r@.len() ==> ((#[trigger] r@[i]).0, r@[i].1@) == timed_files(
                texts(files@),
                files@.len() as int,
            )[i],
{
    let mut out: Vec<(i64, &str)> = Vec::new();
    let mut i: usize = 0;
    while i < files.len()
        invariant
            i <= files@.len(),
            out@.len() == timed_files(texts(files@), i as int).len(),
            forall|k: int|
                0 <= k < out@.len() ==> ((#[trigger] out@[k]).0, out@[k].1@) == timed_files(
                    texts(files@),
                    i as int,
                )[k],
        decreases files.len() - i,
    {
        proof {
            assert(texts(files@)[i as int] == files@[i as int]@);
        }
        if let Some(t) = parse_clip_timestamp(files[i].as_str()) {
            out.push((t, files[i].as_str()));
        }
        i = i + 1;
    }
    out
}

/// The event clips to read.
pub fn select_event_fill(
    recent: &Vec<i64>,
    event_files: &Vec<String>,
    processed: &Vec<String>,
) -> (r: Vec<String>)
    ensures
        texts(r@) == gap_fillers(recent@, texts(event_files@), texts(processed@)),
{
    let fresh: Vec<String> = select_unprocessed(event_files, processed);
    let clips: Vec<(i64, &str)> = time_files(&fresh);
    let ghost tv = timed_files(texts(fresh@), fresh@.len() as int);
    proof {
        assert(unseen(clips@) =~= unknown_candidates(tv));
    }
    let chosen: Vec<usize> = select_gap_fill_events(recent.as_slice(), clips.as_slice());
    let mut out: Vec<String> = Vec::new();
    let mut i: usize = 0;
    while i < chosen.len()
        invariant
            i <= chosen@.len(),
            positions(chosen@, clips@.len() as int),
            clips@.len() == tv.len(),
            forall|k: int| 0 <= k < clips@.len() ==> (#[trigger] clips@[k]).1@ == tv[k].1,
            out@.len() == i,
            forall|k: int| 0 <= k < i ==> (#[trigger] out@[k])@ == tv[chosen@[k] as int].1,
        decreases chosen.len() - i,
    {
        let at: usize = chosen[i];
        out.push(clips[at].1.to_string());
        i = i + 1;
    }
    proof {
        assert(texts(out@) =~= gap_fillers(recent@, texts(event_files@), texts(processed@)));
    }
    out
}

/// The time stamp at the head of a file's name, shared by all cameras of a
/// minute.
pub open spec fn head_stamp(file: Seq<char>) -> Option<Seq<char>> {
    let name = after_last_slash(file);
    if exists|n: int| cut_at(name, STAMP_BYTES as int, n) {
        Some(name.take(choose|n: int| cut_at(name, STAMP_BYTES as int, n)))
    } else {
        None
    }
}

fn stamp_of(file: &str) -> (r: Option<String>)
    ensures
        text_view(r) == head_stamp(file@),
{
    let cs: Vec<char> = chars_of(file);
    let name: Vec<char> = base_name(cs.as_slice());
    match chars_in_bytes(name.as_slice(), STAMP_BYTES) {
        Some(n) => {
            let head: Vec<char> = copy_range(name.as_slice(), 0, n);
            proof {
                assert(cut_at(name@, STAMP_BYTES as int, n as int));
                let m = choose|m: int| cut_at(name@, STAMP_BYTES as int, m);
                if m < n {
                    lemma_utf8_grows(name@, m, n as int);
                } else {
                    lemma_utf8_grows(name@, n as int, m);
                }
                assert(head@ =~= name@.take(m));
            }
            Some(text_of(head.as_slice()))
        },
        None => {
            proof {
                if exists|n: int| cut_at(name@, STAMP_BYTES as int, n) {
                    let n = choose|n: int| cut_at(name@, STAMP_BYTES as int, n);
                    assert(cut_at(name@, STAMP_BYTES as int, n));
                }
            }
            None
        },
    }
}

/// `stamp` belongs to a stored gap filler, or to an event clip strictly inside a
/// gap of the recording.
pub open spec fn is_listed(
    stored: Seq<Seq<char>>,
    recent: Seq<i64>,
    event_files: Seq<Seq<char>>,
    stamp: Seq<char>,
) -> bool {
    let clips = timed_files(event_files, event_files.len() as int);
    let inner = interior_fill(recent, unknown_candidates(clips));
    (exists|i: int| 0 <= i < stored.len() && head_stamp(#[trigger] stored[i]) == Some(stamp)) || (
    exists|i: int|
        0 <= i < inner.len() && head_stamp(clips[(#[trigger] inner[i]) as int].1) == Some(stamp))
}

/// `n` stamps, one per line.
pub open spec fn lines(stamps: Seq<Seq<char>>, n: int) -> Seq<char>
    decreases n,
{
    if n <= 0 {
        Seq::empty()
    } else {
        lines(stamps, n - 1) + stamps[n - 1] + "\n"@
    }
}

/// The event clips with driving in them among the first `n` stored clips.
pub open spec fn fillers(s: Seq<RouteSummary>, n: int) -> Seq<Seq<char>>
    decreases n,
{
    if n <= 0 {
        Seq::empty()
    } else if event_path(s[n - 1].file@) && summary_drives(s[n - 1]) {
        fillers(s, n - 1).push(s[n - 1].file@)
    } else {
        fillers(s, n - 1)
    }
}

/// The stored event clips with driving in them: those that fill gaps of drives.
pub fn gap_fill_files(summaries: &[RouteSummary]) -> (r: Vec<String>)
    ensures
        texts(r@) == fillers(summaries@, summaries@.len() as int),
{
    let mut out: Vec<String> = Vec::new();
    let mut i: usize = 0;
    proof {
        assert(texts(out@) =~= fillers(summaries@, 0));
    }
    while i < summaries.len()
        invariant
            i <= summaries@.len(),
            texts(out@) == fillers(summaries@, i as int),
        decreases summaries.len() - i,
    {
        if is_event_folder_path(summaries[i].file.as_str()) && summary_has_driving(&summaries[i]) {
            let ghost before = texts(out@);
            let f: String = summaries[i].file.clone();
            out.push(f);
            proof {
                assert(texts(out@) =~= before.push(f@));
            }
        }
        i = i + 1;
    }
    out
}

/// The stamps to list, in order.
pub fn gapfill_stamps(
    stored: &Vec<String>,
    recent: &Vec<i64>,
    event_files: &Vec<String>,
) -> (r: Vec<String>)
    ensures
        is_ascending(texts(r@)),
        forall|t: Seq<char>|
            #[trigger] texts(r@).contains(t) <==> is_listed(
                texts(stored@),
                recent@,
                texts(event_files@),
                t,
            ),
{
    let ghost sv = texts(stored@);
    let mut out: Vec<String> = Vec::new();
    let mut i: usize = 0;
    while i < stored.len()
        invariant
            i <= stored@.len(),
            sv == texts(stored@),
            is_ascending(texts(out@)),
            forall|t: Seq<char>|
                #[trigger] texts(out@).contains(t) <==> (exists|k: int|
                    0 <= k < i && head_stamp(#[trigger] sv[k]) == Some(t)),
        decreases stored.len() - i,
    {
        proof {
            assert(sv[i as int] == stored@[i as int]@);
        }
        let ghost before = texts(out@);
        let stamp: Option<String> = stamp_of(stored[i].as_str());
        if let Some(t) = &stamp {
            insert_text(&mut out, t);
        }
        proof {
            assert forall|t: Seq<char>| #[trigger] texts(out@).contains(t) <==> (exists|k: int|
                0 <= k < i + 1 && head_stamp(#[trigger] sv[k]) == Some(t)) by {
                if before.contains(t) {
                    let k = choose|k: int| 0 <= k < i && head_stamp(#[trigger] sv[k]) == Some(t);
                    assert(head_stamp(sv[k]) == Some(t));
                }
                if text_view(stamp) == Some(t) {
                    assert(head_stamp(sv[i as int]) == Some(t));
                }
            }
        }
        i = i + 1;
    }
    let clips: Vec<(i64, &str)> = time_files(event_files);
    let ghost tv = timed_files(texts(event_files@), event_files@.len() as int);
    proof {
        assert(unseen(clips@) =~= unknown_candidates(tv));
    }
    let inner: Vec<usize> = select_interior_fill(recent.as_slice(), clips.as_slice());
    let mut j: usize = 0;
    while j < inner.len()
        invariant
            j <= inner@.len(),
            sv == texts(stored@),
            positions(inner@, clips@.len() as int),
            clips@.len() == tv.len(),
            forall|k: int| 0 <= k < clips@.len() ==> (#[trigger] clips@[k]).1@ == tv[k].1,
            is_ascending(texts(out@)),
            forall|t: Seq<char>|
                #[trigger] texts(out@).contains(t) <==> (exists|k: int|
                    0 <= k < sv.len() && head_stamp(#[trigger] sv[k]) == Some(t)) || (exists|k: int|
                    0 <= k < j && head_stamp(tv[(#[trigger] inner@[k]) as int].1) == Some(t)),
        decreases inner.len() - j,
    {
        let at: usize = inner[j];
        let ghost before = texts(out@);
        let stamp: Option<String> = stamp_of(clips[at].1);
        if let Some(t) = &stamp {
            insert_text(&mut out, t);
        }
        proof {
            assert forall|t: Seq<char>| #[trigger] texts(out@).contains(t) <==> (exists|k: int|
                0 <= k < sv.len() && head_stamp(#[trigger] sv[k]) == Some(t)) || (exists|k: int|
                0 <= k < j + 1 && head_stamp(tv[(#[trigger] inner@[k]) as int].1) == Some(t)) by {
                if exists|k: int|
                    0 <= k < j && head_stamp(tv[(#[trigger] inner@[k]) as int].1) == Some(t) {
                    let k = choose|k: int|
                        0 <= k < j && head_stamp(tv[(#[trigger] inner@[k]) as int].1) == Some(t);
                    assert(head_stamp(tv[inner@[k] as int].1) == Some(t));
                }
                if text_view(stamp) == Some(t) {
                    assert(head_stamp(tv[inner@[j as int] as int].1) == Some(t));
                }
            }
        }
        j = j + 1;
    }
    out
}

/// The manifest: the stamps, one per line.
pub fn manifest_body(stamps: &Vec<String>) -> (r: String)
    ensures
        r@ == lines(texts(stamps@), stamps@.len() as int),
{
    let mut out: String = String::new();
    let mut i: usize = 0;
    proof {
        assert(out@ =~= lines(texts(stamps@), 0));
    }
    while i < stamps.len()
        invariant
            i <= stamps@.len(),
            out@ == lines(texts(stamps@), i as int),
        decreases stamps.len() - i,
    {
        push_text(&mut out, stamps[i].as_str());
        push_text(&mut out, "\n");
        proof {
            assert(texts(stamps@)[i as int] == stamps@[i as int]@);
        }
        i = i + 1;
    }
    out
}

// ---------------------------------------------------------------------------
// The run
// ---------------------------------------------------------------------------

/// What becomes of a clip that was read.
#[derive(Clone, Copy, Debug, PartialEq, Eq, Structural)]
pub enum ClipVerdict {
    /// An event clip of a parked car: only marked as read.
    Parked,
    /// Stored.
    Store,
}

/// An event clip is stored only where it shows driving; other clips always are.
pub open spec fn verdict_on(file: Seq<char>, gps: ExtractedGps) -> ClipVerdict {
    if event_path(file) && !shows_driving(
        gps.gear_runs@,
        gps.gear_states@,
        gps.speeds@,
        gps.raw_park_count,
        gps.raw_frame_count,
    ) {
        ClipVerdict::Parked
    } else {
        ClipVerdict::Store
    }
}

/// What becomes of a clip that was read.
pub fn judge_clip(file: &str, gps: &ExtractedGps) -> (r: ClipVerdict)
    ensures
        r == verdict_on(file@, *gps),
{
    if is_event_folder_path(file) && !telemetry_has_driving(
        gps.gear_runs.as_slice(),
        gps.gear_states.as_slice(),
        gps.speeds.as_slice(),
        gps.raw_park_count,
        gps.raw_frame_count,
    ) {
        ClipVerdict::Parked
    } else {
        ClipVerdict::Store
    }
}

/// An intake run under way.
#[derive(Clone, Debug)]
pub struct IntakeRun {
    pub total: usize,
    /// Files dealt with.
    pub done: usize,
    pub routes_found: usize,
    pub files_with_gps: usize,
    pub parked_skipped: usize,
    pub error_count: usize,
    /// The first error messages.
    pub errors: Vec<String>,
}

/// What is due after a file.
#[derive(Clone, Copy, Debug, PartialEq, Eq, Structural)]
pub struct StepReport {
    pub progress: bool,
    pub checkpoint: bool,
}

/// What is due after `done` of `total` files.
pub open spec fn due_after(done: int, total: int) -> StepReport {
    StepReport {
        progress: done % (REPORT_EVERY as int) == 0 || done == total,
        checkpoint: done % (SAVE_EVERY as int) == 0,
    }
}

/// `errors` with one more, where there is room.
pub open spec fn with_error(errors: Seq<Seq<char>>, message: Seq<char>) -> Seq<Seq<char>> {
    if errors.len() < MAX_ERROR_MESSAGES {
        errors.push(message)
    } else {
        errors
    }
}

impl IntakeRun {
    /// Every file dealt with was stored, passed over or failed, and as many
    /// messages are kept as there is room for.
    pub open spec fn wf(&self) -> bool {
        &&& self.done <= self.total
        &&& self.routes_found + self.parked_skipped + self.error_count == self.done
        &&& self.files_with_gps <= self.done
        &&& self.errors@.len() == if self.error_count < MAX_ERROR_MESSAGES {
            self.error_count as int
        } else {
            MAX_ERROR_MESSAGES as int
        }
    }

    /// A run over `total` files begins.
    pub fn new(total: usize) -> (r: IntakeRun)
        ensures
            r.wf(),
            r.total == total,
            r.done == 0,
    {
        IntakeRun {
            total,
            done: 0,
            routes_found: 0,
            files_with_gps: 0,
            parked_skipped: 0,
            error_count: 0,
            errors: Vec::new(),
        }
    }

    fn finish_file(&mut self) -> (r: StepReport)
        requires
            old(self).done < old(self).total,
        ensures
            final(self).done == old(self).done + 1,
            final(self).total == old(self).total,
            final(self).routes_found == old(self).routes_found,
            final(self).files_with_gps == old(self).files_with_gps,
            final(self).parked_skipped == old(self).parked_skipped,
            final(self).error_count == old(self).error_count,
            final(self).errors == old(self).errors,
            r == due_after(final(self).done as int, final(self).total as int),
    {
        self.done = self.done + 1;
        StepReport {
            progress: self.done % REPORT_EVERY == 0 || self.done == self.total,
            checkpoint: self.done % SAVE_EVERY == 0,
        }
    }

    fn keep_error(&mut self, file: &str, what: &str, message: &str)
        requires
            old(self).error_count < usize::MAX,
        ensures
            final(self).error_count == old(self).error_count + 1,
            texts(final(self).errors@) == with_error(
                texts(old(self).errors@),
                file@ + what@ + message@,
            ),
            final(self).done == old(self).done,
            final(self).total == old(self).total,
            final(self).routes_found == old(self).routes_found,
            final(self).files_with_gps == old(self).files_with_gps,
            final(self).parked_skipped == old(self).parked_skipped,
    {
        self.error_count = self.error_count + 1;
        if self.errors.len() < MAX_ERROR_MESSAGES {
            let mut text: String = String::new();
            push_text(&mut text, file);
            push_text(&mut text, what);
            push_text(&mut text, message);
            let ghost before = texts(self.errors@);
            proof {
                assert(text@ =~= file@ + what@ + message@);
            }
            self.errors.push(text);
            proof {
                assert(texts(self.errors@) =~= before.push(text@));
            }
        }
    }

    /// A file was an event clip of a parked car.
    pub fn file_parked(&mut self) -> (r: StepReport)
        requires
            old(self).wf(),
            old(self).done < old(self).total,
        ensures
            final(self).wf(),
            final(self).done == old(self).done + 1,
            final(self).total == old(self).total,
            final(self).parked_skipped == old(self).parked_skipped + 1,
            final(self).routes_found == old(self).routes_found,
            final(self).files_with_gps == old(self).files_with_gps,
            final(self).error_count == old(self).error_count,
            final(self).errors == old(self).errors,
            r == due_after(final(self).done as int, final(self).total as int),
    {
        self.parked_skipped = self.parked_skipped + 1;
        self.finish_file()
    }

    /// A file was stored.
    pub fn file_stored(&mut self, has_points: bool) -> (r: StepReport)
        requires
            old(self).wf(),
            old(self).done < old(self).total,
        ensures
            final(self).wf(),
            final(self).done == old(self).done + 1,
            final(self).total == old(self).total,
            final(self).parked_skipped == old(self).parked_skipped,
            final(self).routes_found == old(self).routes_found + 1,
            final(self).files_with_gps == old(self).files_with_gps + if has_points {
                1int
            } else {
                0int
            },
            final(self).error_count == old(self).error_count,
            final(self).errors == old(self).errors,
            r == due_after(final(self).done as int, final(self).total as int),
    {
        if has_points {
            self.files_with_gps = self.files_with_gps + 1;
        }
        self.routes_found = self.routes_found + 1;
        self.finish_file()
    }

    /// A file was read and could not be stored.
    pub fn file_not_stored(&mut self, has_points: bool, file: &str, message: &str) -> (r: StepReport)
        requires
            old(self).wf(),
            old(self).done < old(self).total,
        ensures
            final(self).wf(),
            final(self).done == old(self).done + 1,
            final(self).total == old(self).total,
            final(self).parked_skipped == old(self).parked_skipped,
            final(self).routes_found == old(self).routes_found,
            final(self).files_with_gps == old(self).files_with_gps + if has_points {
                1int
            } else {
                0int
            },
            final(self).error_count == old(self).error_count + 1,
            texts(final(self).errors@) == with_error(
                texts(old(self).errors@),
                file@ + ": save failed — "@ + message@,
            ),
            r == due_after(final(self).done as int, final(self).total as int),
    {
        if has_points {
            self.files_with_gps = self.files_with_gps + 1;
        }
        self.keep_error(file, ": save failed — ", message);
        proof {
            assert(texts(self.errors@).len() == self.errors@.len());
            assert(texts(old(self).errors@).len() == old(self).errors@.len());
        }
        self.finish_file()
    }

    /// A file could not be read.
    pub fn file_not_read(&mut self, file: &str, message: &str) -> (r: StepReport)
        requires
            old(self).wf(),
            old(self).done < old(self).total,
        ensures
            final(self).wf(),
            final(self).done == old(self).done + 1,
            final(self).total == old(self).total,
            final(self).parked_skipped == old(self).parked_skipped,
            final(self).routes_found == old(self).routes_found,
            final(self).files_with_gps == old(self).files_with_gps,
            final(self).error_count == old(self).error_count + 1,
            texts(final(self).errors@) == with_error(
                texts(old(self).errors@),
                file@ + ": extract failed — "@ + message@,
            ),
            r == due_after(final(self).done as int, final(self).total as int),
    {
        self.keep_error(file, ": extract failed — ", message);
        proof {
            assert(texts(self.errors@).len() == self.errors@.len());
            assert(texts(old(self).errors@).len() == old(self).errors@.len());
        }
        self.finish_file()
    }
}

impl ProcessingStatus {
    /// No run.
    pub fn idle() -> (s: ProcessingStatus)
        ensures
            !s.running,
            s.total_files == 0,
            s.processed_files == 0,
            s.current_file is None,
    {
        ProcessingStatus { running: false, total_files: 0, processed_files: 0, current_file: None }
    }

    /// A run over `total` files begins.
    pub fn begin(&mut self, total: usize)
        ensures
            final(self).running,
            final(self).total_files == total,
            final(self).processed_files == 0,
            final(self).current_file is None,
    {
        self.running = true;
        self.total_files = total;
        self.processed_files = 0;
        self.current_file = None;
    }

    /// File number `i` is under way.
    pub fn on_file(&mut self, i: usize, file: &str)
        ensures
            final(self).running == old(self).running,
            final(self).total_files == old(self).total_files,
            final(self).processed_files == i,
            text_view(final(self).current_file) == Some(file@),
    {
        self.current_file = Some(file.to_string());
        self.processed_files = i;
    }

    /// The run over `total` files is over.
    pub fn end(&mut self, total: usize)
        ensures
            !final(self).running,
            final(self).total_files == old(self).total_files,
            final(self).processed_files == total,
            final(self).current_file is None,
    {
        self.running = false;
        self.processed_files = total;
        self.current_file = None;
    }
}

// ---------------------------------------------------------------------------
// Laws
// ---------------------------------------------------------------------------

/// What is left to read holds exactly the files whose key is not processed, so
/// no clip is read twice.
pub proof fn law_nothing_is_read_twice(
    files: Seq<Seq<char>>,
    processed: Seq<Seq<char>>,
    n: int,
    file: Seq<char>,
)
    requires
        0 <= n <= files.len(),
    ensures
        unread(files, processed, n).contains(file) <==> (exists|i: int|
            0 <= i < n && #[trigger] files[i] == file) && !processed.contains(canonical(file)),
    decreases n,
{
    if n > 0 {
        law_nothing_is_read_twice(files, processed, n - 1, file);
        let before = unread(files, processed, n - 1);
        let after = unread(files, processed, n);
        if !processed.contains(canonical(files[n - 1])) {
            assert(after[before.len() as int] == files[n - 1]);
            if before.contains(file) {
                let k = choose|k: int| 0 <= k < before.len() && before[k] == file;
                assert(after[k] == file);
            }
            if after.contains(file) && file != files[n - 1] {
                let k = choose|k: int| 0 <= k < after.len() && after[k] == file;
                assert(before[k] == file);
            }
        }
        if file == files[n - 1] {
            assert(files[n - 1] == file);
        }
        if exists|i: int| 0 <= i < n - 1 && #[trigger] files[i] == file {
            let i = choose|i: int| 0 <= i < n - 1 && #[trigger] files[i] == file;
            assert(files[i] == file && i < n);
        }
    }
}

/// Clips of the continuous recording are always stored; event clips of a parked
/// car never are.
pub proof fn law_parked_events_are_not_stored(file: Seq<char>, gps: ExtractedGps)
    ensures
        !event_path(file) ==> verdict_on(file, gps) == ClipVerdict::Store,
        event_path(file) ==> (verdict_on(file, gps) == ClipVerdict::Store <==> shows_driving(
            gps.gear_runs@,
            gps.gear_states@,
            gps.speeds@,
            gps.raw_park_count,
            gps.raw_frame_count,
        )),
{
}

} // verus!
