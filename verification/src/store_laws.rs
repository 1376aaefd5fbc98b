//! What the store keeps, and what is read into it.

use crate::aggregate::sat_mul;
use crate::analytics_laws::own_drive;
use crate::calc::{MAX_FROM_MEDIAN_M, lit, null_island};
use crate::candidates::{file_is_slow, queued, slow_until, worth_reading};
use crate::clock::{gap, iso_seconds, law_spans_turn_round, sat_add, span};
use crate::drive::{nearest, seconds_apart};
use crate::float::{F64, fabs, fle, flt, from_int};
use crate::grouper::Piece;
use crate::import::{ClipFacts, Section, after_clips, fresh_import, section_named, tail_of};
use crate::overlap::{covers, is_repeated};
use crate::processor::{due_after, fillers, unread};
use crate::store::{
    TagRow, are_grouped, canonical, distinct, first_present, storable_tags, tag_keys, tags_of_key,
};
use crate::subclips::summary_drives;
use crate::summary::{hold32, hold64, tags_under, texts};
use crate::text::trimmed;
use crate::timeline::event_path;
use crate::track::{Located, is_stray, kept, real_spots, within_reach, without_strays};
use crate::types::{DriveSummary, RouteSummary, TagEntry};
use vstd::prelude::*;

verus! {

// ---------------------------------------------------------------------------
// Texts, each once
// ---------------------------------------------------------------------------

/// Keys are kept each once, and none is left out.
pub proof fn law_each_key_once(s: Seq<Seq<char>>, n: int)
    requires
        0 <= n <= s.len(),
    ensures
        distinct(s, n).no_duplicates(),
        forall|x: Seq<char>| #[trigger] distinct(s, n).contains(x) <==> s.take(n).contains(x),
    decreases n,
{
    if n > 0 {
        law_each_key_once(s, n - 1);
        let (a, b) = (s.take(n - 1), s.take(n));
        let (p, q) = (distinct(s, n - 1), distinct(s, n));
        assert(b =~= a.push(s[n - 1]));
        assert forall|x: Seq<char>| #[trigger] q.contains(x) <==> b.contains(x) by {
            lemma_pushed(a, s[n - 1], x);
            lemma_pushed(p, s[n - 1], x);
            assert(p.contains(x) <==> a.contains(x));
        }
        if q.len() > p.len() {
            assert forall|i: int, j: int| 0 <= i < q.len() && 0 <= j < q.len() && i != j implies q[i]
                != q[j] by {
                if i < p.len() && j < p.len() {
                } else if i < p.len() {
                    assert(p.contains(p[i]));
                } else {
                    assert(p.contains(p[j]));
                }
            }
        }
    }
}

proof fn lemma_pushed<T>(s: Seq<T>, y: T, x: T)
    ensures
        s.push(y).contains(x) <==> s.contains(x) || x == y,
{
    let t = s.push(y);
    if s.contains(x) {
        let i = choose|i: int| 0 <= i < s.len() && s[i] == x;
        assert(t[i] == x);
    }
    if x == y {
        assert(t[s.len() as int] == x);
    }
    if t.contains(x) {
        let i = choose|i: int| 0 <= i < t.len() && t[i] == x;
        if i < s.len() {
            assert(s[i] == x);
        }
    }
}

/// Tags are stored each once, empty ones left out, and no other.
pub proof fn law_tags_are_stored_once(tags: Seq<Seq<char>>, n: int)
    requires
        0 <= n <= tags.len(),
    ensures
        storable_tags(tags, n).no_duplicates(),
        forall|x: Seq<char>| #[trigger]
            storable_tags(tags, n).contains(x) <==> x.len() > 0 && tags.take(n).contains(x),
    decreases n,
{
    if n > 0 {
        law_tags_are_stored_once(tags, n - 1);
        let (a, b) = (tags.take(n - 1), tags.take(n));
        let (p, q) = (storable_tags(tags, n - 1), storable_tags(tags, n));
        assert(b =~= a.push(tags[n - 1]));
        assert forall|x: Seq<char>| #[trigger] q.contains(x) <==> x.len() > 0 && b.contains(x) by {
            lemma_pushed(a, tags[n - 1], x);
            lemma_pushed(p, tags[n - 1], x);
            assert(p.contains(x) <==> x.len() > 0 && a.contains(x));
        }
        if q.len() > p.len() {
            assert forall|i: int, j: int| 0 <= i < q.len() && 0 <= j < q.len() && i != j implies q[i]
                != q[j] by {
                if i < p.len() && j < p.len() {
                } else if i < p.len() {
                    assert(p.contains(p[i]));
                } else {
                    assert(p.contains(p[j]));
                }
            }
        }
    }
}

proof fn lemma_tag_keys(rows: Seq<TagRow>, n: int)
    requires
        0 <= n <= rows.len(),
    ensures
        tag_keys(rows, n).no_duplicates(),
        forall|k: int| 0 <= k < n ==> tag_keys(rows, n).contains((#[trigger] rows[k]).key@),
    decreases n,
{
    if n > 0 {
        lemma_tag_keys(rows, n - 1);
        let (p, q) = (tag_keys(rows, n - 1), tag_keys(rows, n));
        assert forall|k: int| 0 <= k < n implies q.contains((#[trigger] rows[k]).key@) by {
            lemma_pushed(p, rows[n - 1].key@, rows[k].key@);
        }
        if q.len() > p.len() {
            assert forall|i: int, j: int| 0 <= i < q.len() && 0 <= j < q.len() && i != j implies q[i]
                != q[j] by {
                if i < p.len() && j < p.len() {
                } else if i < p.len() {
                    assert(p.contains(p[i]));
                } else {
                    assert(p.contains(p[j]));
                }
            }
        }
    }
}

proof fn lemma_tags_of_key(rows: Seq<TagRow>, key: Seq<char>, n: int)
    requires
        0 <= n <= rows.len(),
    ensures
        forall|x: Seq<char>| #[trigger]
            tags_of_key(rows, key, n).contains(x) <==> exists|k: int|
                0 <= k < n && (#[trigger] rows[k]).key@ == key && rows[k].tag@ == x,
    decreases n,
{
    if n > 0 {
        lemma_tags_of_key(rows, key, n - 1);
        let (p, q) = (tags_of_key(rows, key, n - 1), tags_of_key(rows, key, n));
        assert forall|x: Seq<char>| #[trigger] q.contains(x) <==> exists|k: int|
            0 <= k < n && (#[trigger] rows[k]).key@ == key && rows[k].tag@ == x by {
            lemma_pushed(p, rows[n - 1].tag@, x);
            assert(p.contains(x) <==> exists|k: int|
                0 <= k < n - 1 && (#[trigger] rows[k]).key@ == key && rows[k].tag@ == x);
            if p.contains(x) {
                let k = choose|k: int|
                    0 <= k < n - 1 && (#[trigger] rows[k]).key@ == key && rows[k].tag@ == x;
                assert(rows[k].key@ == key);
            }
            if q.contains(x) && !p.contains(x) {
                assert(rows[n - 1].key@ == key && rows[n - 1].tag@ == x);
            }
        }
    }
}

/// Tags are listed under their keys: one entry for each key, with the tags of all rows
/// that carry it, and no others.
pub proof fn law_tags_are_under_their_keys(rows: Seq<TagRow>, entries: Seq<TagEntry>)
    requires
        are_grouped(rows, rows.len() as int, entries),
    ensures
        forall|i: int, j: int|
            0 <= i < j < entries.len() ==> (#[trigger] entries[i]).key@ != (#[trigger] entries[j]).key@,
        forall|k: int|
            0 <= k < rows.len() ==> exists|i: int|
                0 <= i < entries.len() && (#[trigger] entries[i]).key@ == (#[trigger] rows[k]).key@
                    && texts(entries[i].tags@).contains(rows[k].tag@),
        forall|i: int, x: Seq<char>|
            0 <= i < entries.len() && #[trigger] texts((#[trigger] entries[i]).tags@).contains(x)
                ==> exists|k: int|
                0 <= k < rows.len() && (#[trigger] rows[k]).key@ == entries[i].key@ && rows[k].tag@ == x,
{
    let n = rows.len() as int;
    lemma_tag_keys(rows, n);
    let keys = tag_keys(rows, n);
    assert forall|i: int, j: int| 0 <= i < j < entries.len() implies (#[trigger] entries[i]).key@ != (
    #[trigger] entries[j]).key@ by {
        assert(keys[i] != keys[j]);
    }
    assert forall|k: int| 0 <= k < rows.len() implies exists|i: int|
        0 <= i < entries.len() && (#[trigger] entries[i]).key@ == (#[trigger] rows[k]).key@ && texts(
            entries[i].tags@,
        ).contains(rows[k].tag@) by {
        assert(keys.contains(rows[k].key@));
        let i = choose|i: int| 0 <= i < keys.len() && keys[i] == rows[k].key@;
        assert(entries[i].key@ == rows[k].key@);
        lemma_tags_of_key(rows, entries[i].key@, n);
        assert(texts(entries[i].tags@).contains(rows[k].tag@));
    }
    assert forall|i: int, x: Seq<char>|
        0 <= i < entries.len() && #[trigger] texts((#[trigger] entries[i]).tags@).contains(x) implies exists|
        k: int,
    |
        0 <= k < rows.len() && (#[trigger] rows[k]).key@ == entries[i].key@ && rows[k].tag@ == x by {
        lemma_tags_of_key(rows, entries[i].key@, n);
    }
}

/// The tags of a drive are those of the first entry under its key.
pub proof fn law_tags_are_found_under_the_key(tags: Seq<TagEntry>, key: Seq<char>, i: int)
    requires
        0 <= i <= tags.len(),
        forall|j: int| 0 <= j < i ==> (#[trigger] tags[j]).key@ != key,
    ensures
        (forall|j: int| 0 <= j < tags.len() ==> (#[trigger] tags[j]).key@ != key) ==> tags_under(
            tags,
            key,
            i,
        ).len() == 0,
        forall|k: int|
            0 <= k < tags.len() && (#[trigger] tags[k]).key@ == key && (forall|j: int|
                0 <= j < k ==> (#[trigger] tags[j]).key@ != key) ==> tags_under(tags, key, i) == texts(
                tags[k].tags@,
            ),
    decreases tags.len() - i,
{
    if i < tags.len() && tags[i].key@ != key {
        law_tags_are_found_under_the_key(tags, key, i + 1);
    }
}

// ---------------------------------------------------------------------------
// Imports
// ---------------------------------------------------------------------------

/// Clip `i` repeats the key of an earlier one.
pub open spec fn repeats_key(clips: Seq<ClipFacts>, i: int) -> bool {
    exists|j: int| 0 <= j < i && canonical((#[trigger] clips[j]).file) == canonical(clips[i].file)
}

proof fn lemma_keys(clips: Seq<ClipFacts>, n: int, key: Seq<char>)
    requires
        0 <= n <= clips.len(),
    ensures
        after_clips(fresh_import(), clips, n).keys.contains(key) <==> exists|j: int|
            0 <= j < n && canonical((#[trigger] clips[j]).file) == key,
    decreases n,
{
    if n > 0 {
        lemma_keys(clips, n - 1, key);
        let p = after_clips(fresh_import(), clips, n - 1).keys;
        let x = canonical(clips[n - 1].file);
        lemma_pushed(p, x, key);
        if p.contains(key) {
            let j = choose|j: int| 0 <= j < n - 1 && canonical((#[trigger] clips[j]).file) == key;
            assert(canonical(clips[j].file) == key);
        } else if x == key {
            assert(canonical(clips[n - 1].file) == key);
        }
    }
}

/// An import counts its clips, those without points, those without a date, and those whose
/// key came before.
pub proof fn law_import_counts_its_findings(clips: Seq<ClipFacts>, n: int)
    requires
        0 <= n <= clips.len(),
    ensures
        ({
            let v = after_clips(fresh_import(), clips, n);
            let bare = Set::new(|i: int| 0 <= i < n && !clips[i].has_points);
            let undated = Set::new(|i: int| 0 <= i < n && trimmed(clips[i].date).len() == 0);
            let twins = Set::new(|i: int| 0 <= i < n && repeats_key(clips, i));
            &&& bare.finite() && undated.finite() && twins.finite()
            &&& v.seen == n
            &&& v.empty_points == bare.len()
            &&& v.empty_date == undated.len()
            &&& v.duplicates == twins.len()
        }),
    decreases n,
{
    let bare = Set::new(|i: int| 0 <= i < n && !clips[i].has_points);
    let undated = Set::new(|i: int| 0 <= i < n && trimmed(clips[i].date).len() == 0);
    let twins = Set::new(|i: int| 0 <= i < n && repeats_key(clips, i));
    if n <= 0 {
        assert(bare =~= Set::empty());
        assert(undated =~= Set::empty());
        assert(twins =~= Set::empty());
    } else {
        let k = n - 1;
        law_import_counts_its_findings(clips, k);
        lemma_keys(clips, k, canonical(clips[k].file));
        let b = Set::new(|i: int| 0 <= i < k && !clips[i].has_points);
        let u = Set::new(|i: int| 0 <= i < k && trimmed(clips[i].date).len() == 0);
        let t = Set::new(|i: int| 0 <= i < k && repeats_key(clips, i));
        if !clips[k].has_points {
            assert(bare =~= b.insert(k));
        } else {
            assert(bare =~= b);
        }
        if trimmed(clips[k].date).len() == 0 {
            assert(undated =~= u.insert(k));
        } else {
            assert(undated =~= u);
        }
        if repeats_key(clips, k) {
            let j = choose|j: int|
                0 <= j < k && canonical((#[trigger] clips[j]).file) == canonical(clips[k].file);
            assert(canonical(clips[j].file) == canonical(clips[k].file));
            assert(twins =~= t.insert(k));
        } else {
            assert(twins =~= t);
        }
    }
}

/// Of a history the newest entries are kept, in order.
pub proof fn law_histories_keep_the_newest<T>(s: Seq<T>, max: int)
    requires
        0 <= max,
    ensures
        s.len() <= max ==> tail_of(s, max) == s,
        s.len() > max ==> tail_of(s, max).len() == max && forall|i: int|
            0 <= i < max ==> #[trigger] tail_of(s, max)[i] == s[s.len() - max + i],
{
}

// ---------------------------------------------------------------------------
// Intake
// ---------------------------------------------------------------------------

/// A file is read where its key is not among the processed ones, and only there; files
/// stay in their order.
pub proof fn law_unread_files_are_read(files: Seq<Seq<char>>, processed: Seq<Seq<char>>, n: int)
    requires
        0 <= n <= files.len(),
    ensures
        forall|x: Seq<char>| #[trigger]
            unread(files, processed, n).contains(x) <==> files.take(n).contains(x)
                && !processed.contains(canonical(x)),
        unread(files, processed, n).len() <= n,
    decreases n,
{
    if n > 0 {
        law_unread_files_are_read(files, processed, n - 1);
        let (a, b) = (files.take(n - 1), files.take(n));
        let (p, q) = (unread(files, processed, n - 1), unread(files, processed, n));
        assert(b =~= a.push(files[n - 1]));
        assert forall|x: Seq<char>| #[trigger] q.contains(x) <==> b.contains(x) && !processed.contains(
            canonical(x),
        ) by {
            lemma_pushed(a, files[n - 1], x);
            lemma_pushed(p, files[n - 1], x);
            assert(p.contains(x) <==> a.contains(x) && !processed.contains(canonical(x)));
        }
    }
}

/// Stored fillers are the event clips of the store that show driving.
pub proof fn law_fillers_are_event_clips_that_drive(s: Seq<RouteSummary>, n: int)
    requires
        0 <= n <= s.len(),
    ensures
        forall|x: Seq<char>| #[trigger]
            fillers(s, n).contains(x) <==> exists|i: int|
                0 <= i < n && (#[trigger] s[i]).file@ == x && event_path(x) && summary_drives(s[i]),
    decreases n,
{
    if n > 0 {
        law_fillers_are_event_clips_that_drive(s, n - 1);
        let (p, q) = (fillers(s, n - 1), fillers(s, n));
        assert forall|x: Seq<char>| #[trigger] q.contains(x) <==> exists|i: int|
            0 <= i < n && (#[trigger] s[i]).file@ == x && event_path(x) && summary_drives(s[i]) by {
            lemma_pushed(p, s[n - 1].file@, x);
            assert(p.contains(x) <==> exists|i: int|
                0 <= i < n - 1 && (#[trigger] s[i]).file@ == x && event_path(x) && summary_drives(s[i]));
            if p.contains(x) {
                let i = choose|i: int|
                    0 <= i < n - 1 && (#[trigger] s[i]).file@ == x && event_path(x) && summary_drives(
                        s[i],
                    );
                assert(s[i].file@ == x);
            }
            if q.contains(x) && !p.contains(x) {
                assert(s[n - 1].file@ == x);
            }
        }
    }
}

/// Progress is told after every tenth file and the last; the store is saved after every
/// fiftieth.
pub proof fn law_progress_is_told(done: int, total: int)
    ensures
        due_after(done, total).progress <==> done % 10 == 0 || done == total,
        due_after(done, total).checkpoint <==> done % 50 == 0,
{
}

/// Of the places to import from the first that is there is taken.
pub proof fn law_the_first_present_is_taken(present: Seq<bool>, i: int)
    requires
        0 <= i <= present.len(),
        forall|j: int| 0 <= j < i ==> !(#[trigger] present[j]),
    ensures
        match first_present(present, i) {
            Some(k) => 0 <= k < present.len() && present[k] && forall|j: int|
                0 <= j < k ==> !(#[trigger] present[j]),
            None => forall|j: int| 0 <= j < present.len() ==> !(#[trigger] present[j]),
        },
    decreases present.len() - i,
{
    if i < present.len() && !present[i] {
        law_the_first_present_is_taken(present, i + 1);
    }
}

// ---------------------------------------------------------------------------
// Overlaps
// ---------------------------------------------------------------------------

/// A drive is hidden where it came from Tessie and its time, from start to end, overlaps
/// that of a drive that the car itself recorded.
pub proof fn law_recorded_drives_hide_imported_ones(ds: Seq<DriveSummary>, d: DriveSummary)
    ensures
        is_repeated(ds, d) <==> d.source is Some && d.source->0@ == "tessie"@ && exists|j: int|
            0 <= j < ds.len() && own_drive(#[trigger] ds[j]) && iso_seconds(ds[j].start_time@) is Some
                && iso_seconds(ds[j].end_time@) is Some && iso_seconds(d.start_time@) is Some
                && iso_seconds(d.end_time@) is Some && iso_seconds(ds[j].end_time@)->0 > iso_seconds(
                d.start_time@,
            )->0 && iso_seconds(ds[j].start_time@)->0 < iso_seconds(d.end_time@)->0,
{
    if is_repeated(ds, d) {
        let j = choose|j: int| 0 <= j < ds.len() && covers(#[trigger] ds[j], d);
        assert(own_drive(ds[j]));
    }
    if d.source is Some && d.source->0@ == "tessie"@ && exists|j: int|
        0 <= j < ds.len() && own_drive(#[trigger] ds[j]) && iso_seconds(ds[j].start_time@) is Some
            && iso_seconds(ds[j].end_time@) is Some && iso_seconds(d.start_time@) is Some && iso_seconds(
            d.end_time@,
        ) is Some && iso_seconds(ds[j].end_time@)->0 > iso_seconds(d.start_time@)->0 && iso_seconds(
            ds[j].start_time@,
        )->0 < iso_seconds(d.end_time@)->0 {
        let j = choose|j: int|
            0 <= j < ds.len() && own_drive(#[trigger] ds[j]) && iso_seconds(ds[j].start_time@) is Some
                && iso_seconds(ds[j].end_time@) is Some && iso_seconds(d.start_time@) is Some
                && iso_seconds(d.end_time@) is Some && iso_seconds(ds[j].end_time@)->0 > iso_seconds(
                d.start_time@,
            )->0 && iso_seconds(ds[j].start_time@)->0 < iso_seconds(d.end_time@)->0;
        assert(covers(ds[j], d));
    }
}

// ---------------------------------------------------------------------------
// Candidates
// ---------------------------------------------------------------------------

/// The slow edge of a drive are its files up to the first that is not slow, ten at most.
pub proof fn law_slow_edges_end_at_a_fast_file(s: Seq<RouteSummary>, files: Seq<Seq<char>>, i: int)
    requires
        0 <= i <= files.len(),
        i <= 10,
    ensures
        ({
            let k = slow_until(s, files, i);
            &&& i <= k <= files.len() && k <= 10
            &&& forall|j: int| i <= j < k ==> file_is_slow(s, #[trigger] files[j])
            &&& k < files.len() && k < 10 ==> !file_is_slow(s, files[k])
        }),
    decreases files.len() - i,
{
    if i < files.len() && i < 10 && file_is_slow(s, files[i]) {
        law_slow_edges_end_at_a_fast_file(s, files, i + 1);
    }
}

/// Suspects are queued each once, where reading them again is worth it, and behind what
/// is queued already.
pub proof fn law_suspects_are_queued_once(
    s: Seq<RouteSummary>,
    out: Seq<Seq<char>>,
    files: Seq<Seq<char>>,
    n: int,
)
    requires
        0 <= n <= files.len(),
        out.no_duplicates(),
    ensures
        queued(s, out, files, n).no_duplicates(),
        out.is_prefix_of(queued(s, out, files, n)),
        forall|x: Seq<char>| #[trigger]
            queued(s, out, files, n).contains(x) <==> out.contains(x) || (files.take(n).contains(x)
                && worth_reading(s, x)),
    decreases n,
{
    if n > 0 {
        law_suspects_are_queued_once(s, out, files, n - 1);
        let (a, b) = (files.take(n - 1), files.take(n));
        let (p, q) = (queued(s, out, files, n - 1), queued(s, out, files, n));
        assert(b =~= a.push(files[n - 1]));
        assert forall|x: Seq<char>| #[trigger] q.contains(x) <==> out.contains(x) || (b.contains(x)
            && worth_reading(s, x)) by {
            lemma_pushed(a, files[n - 1], x);
            lemma_pushed(p, files[n - 1], x);
            assert(p.contains(x) <==> out.contains(x) || (a.contains(x) && worth_reading(s, x)));
        }
        if q.len() > p.len() {
            assert forall|i: int, j: int| 0 <= i < q.len() && 0 <= j < q.len() && i != j implies q[i]
                != q[j] by {
                if i < p.len() && j < p.len() {
                } else if i < p.len() {
                    assert(p.contains(p[i]));
                } else {
                    assert(p.contains(p[j]));
                }
            }
        }
    }
}

// ---------------------------------------------------------------------------
// Tracks
// ---------------------------------------------------------------------------

/// Members that are kept are those that are to be kept, in order: `at` tells which.
pub open spec fn keeps<T>(s: Seq<T>, keep: spec_fn(int) -> bool, out: Seq<T>, at: Seq<int>, n: int) -> bool {
    &&& out.len() == at.len()
    &&& forall|i: int|
        0 <= i < at.len() ==> 0 <= #[trigger] at[i] < n && keep(at[i]) && out[i] == s[at[i]]
    &&& forall|i: int, j: int| 0 <= i < j < at.len() ==> #[trigger] at[i] < #[trigger] at[j]
    &&& forall|k: int| 0 <= k < n && #[trigger] keep(k) ==> at.contains(k)
}

proof fn lemma_kept<T>(s: Seq<T>, keep: spec_fn(int) -> bool, n: int) -> (at: Seq<int>)
    requires
        0 <= n <= s.len(),
    ensures
        keeps(s, keep, kept(s, keep, n), at, n),
    decreases n,
{
    if n <= 0 {
        Seq::empty()
    } else {
        let b = lemma_kept(s, keep, n - 1);
        if keep(n - 1) {
            let at = b.push(n - 1);
            assert forall|k: int| 0 <= k < n && #[trigger] keep(k) implies at.contains(k) by {
                if k < n - 1 {
                    assert(b.contains(k));
                }
                lemma_pushed(b, n - 1, k);
            }
            at
        } else {
            b
        }
    }
}

/// Member `i` is not within a degree of zero both ways.
pub open spec fn is_fixed<T: Located>(s: Seq<T>) -> spec_fn(int) -> bool {
    |i: int|
        !(flt(fabs(s[i].spot().lat), from_int(1)) && flt(fabs(s[i].spot().lng), from_int(1)))
}

/// Member `i` is within a thousand kilometres.
pub open spec fn is_close(reach: Seq<F64>) -> spec_fn(int) -> bool {
    |i: int| fle(reach[i], F64 { bits: 0x412E_8480_0000_0000 })
}

/// Member `i` of `n` is within five kilometres of a neighbour.
pub open spec fn has_company(hops: Seq<F64>, n: int) -> spec_fn(int) -> bool {
    |i: int|
        (i > 0 && !flt(F64 { bits: 0x40B3_8800_0000_0000 }, hops[i])) || (i < n - 1 && !flt(
            F64 { bits: 0x40B3_8800_0000_0000 },
            hops[i + 1],
        ))
}

/// Points without a fix are dropped from a track, and no others.
pub proof fn law_tracks_keep_every_fix<T: Located>(s: Seq<T>)
    ensures
        exists|at: Seq<int>|
            keeps(
                s,
                is_fixed(s),
                real_spots(s),
                at,
                s.len() as int,
            ),
{
    let keep = |i: int| !null_island(s[i].spot().lat, s[i].spot().lng);
    let mine = is_fixed(s);
    assert(keep =~= mine);
    let at = lemma_kept(s, keep, s.len() as int);
    assert(keeps(s, mine, real_spots(s), at, s.len() as int));
}

/// A track of more than two points loses those more than a thousand kilometres from its
/// middle, then those a jump of more than five kilometres away from every neighbour, and
/// no others; a shorter one is left as it is.
pub proof fn law_tracks_lose_outliers_alone<T>(s: Seq<T>, reach: Seq<F64>, hops: Seq<F64>)
    ensures
        s.len() <= 2 ==> within_reach(s, reach) == s && without_strays(s, hops) == s,
        s.len() > 2 ==> exists|at: Seq<int>|
            keeps(
                s,
                is_close(reach),
                within_reach(s, reach),
                at,
                s.len() as int,
            ),
        s.len() > 2 ==> exists|at: Seq<int>|
            keeps(
                s,
                has_company(hops, s.len() as int),
                without_strays(s, hops),
                at,
                s.len() as int,
            ),
{
    let n = s.len() as int;
    if n > 2 {
        let a = |i: int| fle(reach[i], lit(MAX_FROM_MEDIAN_M));
        let b = is_close(reach);
        assert(a =~= b);
        let p = lemma_kept(s, a, n);
        assert(keeps(s, b, within_reach(s, reach), p, n));
        let c = |i: int| !is_stray(hops, n, i);
        let d = has_company(hops, n);
        assert(c =~= d);
        let q = lemma_kept(s, c, n);
        assert(keeps(s, d, without_strays(s, hops), q, n));
    }
}

// ---------------------------------------------------------------------------
// Picking a drive
// ---------------------------------------------------------------------------

/// Of several groups the one that starts nearest to the time asked for is shown, to the
/// second; of equals the first.
pub proof fn law_the_nearest_group_is_shown(groups: Seq<Seq<Piece>>, t: int, n: int)
    requires
        1 <= n <= groups.len(),
    ensures
        ({
            let k = nearest(groups, t, n);
            &&& 0 <= k < n
            &&& forall|i: int|
                0 <= i < n ==> seconds_apart(groups[k][0].ts as int, t) <= seconds_apart(
                    (#[trigger] groups[i])[0].ts as int,
                    t,
                )
            &&& forall|i: int|
                0 <= i < k ==> seconds_apart(groups[k][0].ts as int, t) < seconds_apart(
                    (#[trigger] groups[i])[0].ts as int,
                    t,
                )
        }),
    decreases n,
{
    if n > 1 {
        law_the_nearest_group_is_shown(groups, t, n - 1);
    }
}

/// Seconds between two times are the whole seconds of the span between them, whichever
/// comes first.
pub proof fn law_seconds_apart_are_whole(a: int, b: int)
    requires
        i64::MIN < span(a, b) < i64::MAX,
    ensures
        seconds_apart(a, b) == seconds_apart(b, a),
        span(a, b) >= 0 ==> 1000 * seconds_apart(a, b) <= span(a, b) < 1000 * seconds_apart(a, b)
            + 1000,
{
    law_spans_turn_round(a, b);
}

/// The parts of an export are known by their keys.
pub proof fn law_parts_are_known_by_their_keys()
    ensures
        section_named("processedFiles"@) == Section::ProcessedFiles,
        section_named("routes"@) == Section::Routes,
        section_named("driveTags"@) == Section::DriveTags,
        section_named("telemetrySamples"@) == Section::TelemetrySamples,
        section_named("chargeTags"@) == Section::ChargeTags,
        section_named("chargeCosts"@) == Section::ChargeCosts,
        forall|key: Seq<char>|
            key != "processedFiles"@ && key != "routes"@ && key != "driveTags"@ && key
                != "telemetrySamples"@ && key != "chargeTags"@ && key != "chargeCosts"@
                ==> #[trigger] section_named(key) == Section::Unknown,
{
    reveal_strlit("processedFiles");
    reveal_strlit("routes");
    reveal_strlit("driveTags");
    reveal_strlit("telemetrySamples");
    reveal_strlit("chargeTags");
    reveal_strlit("chargeCosts");
    assert("processedFiles"@.len() == 14 && "routes"@.len() == 6 && "driveTags"@.len() == 9
        && "telemetrySamples"@.len() == 16 && "chargeTags"@.len() == 10 && "chargeCosts"@.len() == 11);
}

/// Held numbers are themselves within range, and the nearest end of it beyond.
pub proof fn law_numbers_are_held_in_range(v: int, a: int, b: int)
    ensures
        i64::MIN <= v <= i64::MAX ==> hold64(v) == v,
        i32::MIN <= v <= i32::MAX ==> hold32(v) == v,
        v > i64::MAX ==> hold64(v) == i64::MAX,
        v < i64::MIN ==> hold64(v) == i64::MIN,
        v > i32::MAX ==> hold32(v) == i32::MAX,
        v < i32::MIN ==> hold32(v) == i32::MIN,
        i64::MIN <= a * b <= i64::MAX ==> sat_mul(a, b) == a * b,
        i64::MIN <= a + b <= i64::MAX ==> sat_add(a, b) == a + b,
        i64::MIN <= b - a <= i64::MAX ==> gap(a, b) == b - a,
{
}

} // verus!
