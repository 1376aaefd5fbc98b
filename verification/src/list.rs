//! The drive list, and drives looked up in it.

use crate::clock::{format_stamp, stamp_text};
use crate::float::F64;
use crate::subclips::{
    SubClipSummary, group_summary_clips, sub_drives, sub_fits, subs_fit, summaries_fit,
};
use crate::summary::{
    bridge_total, bridged_by, build_summary_from_aggregates, distance_total, drive_start,
    first_members, first_of_file, flag_runs_fit, gap_arguments, gap_ends, is_row, measure_bridges,
    tags_under, text_view, texts,
};
use crate::text::{chars_of, parse_unsigned, same_text, spelled};
use crate::timeline::views;
use crate::types::{
    AUTOPILOT_AUTOSTEER, AUTOPILOT_FSD, AUTOPILOT_TACC, DriveSummary, RouteSummary, TagEntry,
};
use vstd::prelude::*;

verus! {

// ---------------------------------------------------------------------------
// Rows
// ---------------------------------------------------------------------------

/// `d` is the row of drive `idx`, with gaps measured by `geodesic`.
pub open spec fn row_of<G: Fn(F64, F64, F64, F64) -> F64>(
    s: Seq<RouteSummary>,
    idx: int,
    tags: Seq<TagEntry>,
    geodesic: G,
    d: DriveSummary,
) -> bool {
    exists|b: Seq<F64>|
        #[trigger] bridged_by(s, sub_drives(s)[idx], geodesic, b) && is_row(
            s,
            sub_drives(s)[idx],
            idx,
            tags,
            b,
            d,
        )
}

/// `ds` are the rows of all drives.
pub open spec fn are_rows<G: Fn(F64, F64, F64, F64) -> F64>(
    s: Seq<RouteSummary>,
    tags: Seq<TagEntry>,
    geodesic: G,
    ds: Seq<DriveSummary>,
) -> bool {
    &&& ds.len() == sub_drives(s).len()
    &&& forall|i: int| 0 <= i < ds.len() ==> row_of(s, i, tags, geodesic, #[trigger] ds[i])
}

fn build_row<G: Fn(F64, F64, F64, F64) -> F64>(
    summaries: &[RouteSummary],
    clips: &Vec<SubClipSummary>,
    idx: usize,
    tags: &[TagEntry],
    geodesic: &G,
) -> (d: DriveSummary)
    requires
        idx < sub_drives(summaries@).len(),
        clips@ == sub_drives(summaries@)[idx as int],
        clips@.len() > 0,
        subs_fit(summaries@.len() as int, clips@),
        flag_runs_fit(summaries@),
        forall|w: F64, x: F64, y: F64, z: F64| call_requires(*geodesic, (w, x, y, z)),
    ensures
        row_of(summaries@, idx as int, tags@, *geodesic, d),
{
    let bridges: Vec<F64> = measure_bridges(summaries, clips.as_slice(), geodesic);
    let d: DriveSummary = build_summary_from_aggregates(
        summaries,
        clips.as_slice(),
        idx,
        tags,
        &bridges,
    );
    proof {
        assert(bridged_by(summaries@, clips@, *geodesic, bridges@));
    }
    d
}

/// The rows of all drives.
pub fn group_summaries_fast<G: Fn(F64, F64, F64, F64) -> F64>(
    summaries: &[RouteSummary],
    tags: &[TagEntry],
    geodesic: G,
) -> (r: Vec<DriveSummary>)
    requires
        summaries_fit(summaries@),
        flag_runs_fit(summaries@),
        forall|w: F64, x: F64, y: F64, z: F64| call_requires(geodesic, (w, x, y, z)),
    ensures
        are_rows(summaries@, tags@, geodesic, r@),
{
    let groups: Vec<Vec<SubClipSummary>> = group_summary_clips(summaries);
    let mut out: Vec<DriveSummary> = Vec::new();
    let mut i: usize = 0;
    while i < groups.len()
        invariant
            i <= groups.len(),
            views(groups@) == sub_drives(summaries@),
            flag_runs_fit(summaries@),
            forall|w: F64, x: F64, y: F64, z: F64| call_requires(geodesic, (w, x, y, z)),
            forall|k: int|
                0 <= k < groups@.len() ==> (#[trigger] groups@[k])@.len() > 0 && subs_fit(
                    summaries@.len() as int,
                    groups@[k]@,
                ),
            out@.len() == i,
            forall|k: int|
                0 <= k < i ==> row_of(summaries@, k, tags@, geodesic, #[trigger] out@[k]),
        decreases groups.len() - i,
    {
        proof {
            assert(views(groups@)[i as int] == groups@[i as int]@);
        }
        out.push(build_row(summaries, &groups[i], i, tags, &geodesic));
        i = i + 1;
    }
    proof {
        assert(views(groups@).len() == groups@.len());
    }
    out
}

/// `r` is the row of drive `idx`, or nothing where there is no such drive.
pub open spec fn is_row_at<G: Fn(F64, F64, F64, F64) -> F64>(
    s: Seq<RouteSummary>,
    idx: int,
    tags: Seq<TagEntry>,
    geodesic: G,
    r: Option<DriveSummary>,
) -> bool {
    match r {
        Some(d) => idx < sub_drives(s).len() && row_of(s, idx, tags, geodesic, d),
        None => idx >= sub_drives(s).len(),
    }
}

/// The row of drive `idx`; `None` where there is no such drive.
pub fn build_summary_for_idx<G: Fn(F64, F64, F64, F64) -> F64>(
    summaries: &[RouteSummary],
    idx: usize,
    tags: &[TagEntry],
    geodesic: G,
) -> (r: Option<DriveSummary>)
    requires
        summaries_fit(summaries@),
        flag_runs_fit(summaries@),
        forall|w: F64, x: F64, y: F64, z: F64| call_requires(geodesic, (w, x, y, z)),
    ensures
        is_row_at(summaries@, idx as int, tags@, geodesic, r),
{
    let groups: Vec<Vec<SubClipSummary>> = group_summary_clips(summaries);
    proof {
        assert(views(groups@).len() == groups@.len());
    }
    if idx >= groups.len() {
        return None;
    }
    proof {
        assert(views(groups@)[idx as int] == groups@[idx as int]@);
    }
    Some(build_row(summaries, &groups[idx], idx, tags, &geodesic))
}

// ---------------------------------------------------------------------------
// Lookup
// ---------------------------------------------------------------------------

/// The files of the first `n` members, each once.
pub open spec fn drive_files(s: Seq<RouteSummary>, c: Seq<SubClipSummary>, n: int) -> Seq<Seq<char>>
    decreases n,
{
    if n <= 0 {
        Seq::empty()
    } else if first_of_file(s, c, n - 1) {
        drive_files(s, c, n - 1).push(s[c[n - 1].summary as int].file@)
    } else {
        drive_files(s, c, n - 1)
    }
}

/// The files of drive `idx`.
pub open spec fn files_of(s: Seq<RouteSummary>, idx: int) -> Seq<Seq<char>> {
    drive_files(s, sub_drives(s)[idx], sub_drives(s)[idx].len() as int)
}

/// The key under which drive `idx` is tagged: its start.
pub open spec fn key_of_drive(s: Seq<RouteSummary>, idx: int) -> Seq<char> {
    stamp_text(drive_start(sub_drives(s)[idx]))
}

/// The first drive from `i` on that starts at `id`.
pub open spec fn drive_starting(s: Seq<RouteSummary>, id: Seq<char>, i: int) -> Option<int>
    decreases sub_drives(s).len() - i,
{
    if i < 0 || i >= sub_drives(s).len() {
        None
    } else if key_of_drive(s, i) == id {
        Some(i)
    } else {
        drive_starting(s, id, i + 1)
    }
}

/// The drive that `id` names: by its number, or else by its start.
pub open spec fn drive_named(s: Seq<RouteSummary>, id: Seq<char>) -> Option<int> {
    match spelled(id, false) {
        Some(n) if n < sub_drives(s).len() => Some(n),
        _ => drive_starting(s, id, 0),
    }
}

/// The files of a drive, each once.
pub fn collect_files(summaries: &[RouteSummary], clips: &Vec<SubClipSummary>) -> (r: Vec<String>)
    requires
        subs_fit(summaries@.len() as int, clips@),
    ensures
        texts(r@) == drive_files(summaries@, clips@, clips@.len() as int),
{
    let firsts: Vec<bool> = first_members(summaries, clips.as_slice());
    let mut out: Vec<String> = Vec::new();
    let mut i: usize = 0;
    proof {
        assert(texts(out@) =~= drive_files(summaries@, clips@, 0));
    }
    while i < clips.len()
        invariant
            i <= clips.len(),
            subs_fit(summaries@.len() as int, clips@),
            firsts@.len() == clips@.len(),
            forall|k: int|
                0 <= k < clips@.len() ==> #[trigger] firsts@[k] == first_of_file(
                    summaries@,
                    clips@,
                    k,
                ),
            texts(out@) == drive_files(summaries@, clips@, i as int),
        decreases clips.len() - i,
    {
        proof {
            assert(sub_fits(summaries@.len() as int, clips@[i as int]));
        }
        if firsts[i] {
            let ghost before = texts(out@);
            let f: String = summaries[clips[i].summary].file.clone();
            out.push(f);
            proof {
                assert(texts(out@) =~= before.push(f@));
            }
        }
        i = i + 1;
    }
    out
}

/// The number of the drive that `id` names.
fn find_drive(
    summaries: &[RouteSummary],
    groups: &Vec<Vec<SubClipSummary>>,
    id: &str,
) -> (r: Option<usize>)
    requires
        views(groups@) == sub_drives(summaries@),
        forall|k: int| 0 <= k < groups@.len() ==> (#[trigger] groups@[k])@.len() > 0,
    ensures
        match r {
            Some(i) => drive_named(summaries@, id@) == Some(i as int) && i < groups@.len(),
            None => drive_named(summaries@, id@) is None,
        },
{
    proof {
        assert(views(groups@).len() == groups@.len());
    }
    let cs: Vec<char> = chars_of(id);
    let count: usize = groups.len();
    if let Some(n) = parse_unsigned(cs.as_slice(), u64::MAX) {
        if n < count as u64 {
            return Some(n as usize);
        }
    }
    let mut i: usize = 0;
    while i < groups.len()
        invariant
            i <= groups.len(),
            views(groups@) == sub_drives(summaries@),
            views(groups@).len() == groups@.len(),
            forall|k: int| 0 <= k < groups@.len() ==> (#[trigger] groups@[k])@.len() > 0,
            drive_named(summaries@, id@) == drive_starting(summaries@, id@, i as int),
        decreases groups.len() - i,
    {
        proof {
            assert(views(groups@)[i as int] == groups@[i as int]@);
            assert(groups@[i as int]@.len() > 0);
        }
        let start: String = format_stamp(groups[i][0].ts);
        if same_text(start.as_str(), id) {
            return Some(i);
        }
        i = i + 1;
    }
    None
}

/// The drive that `id` names, a number or a start time, and its files.
pub fn find_drive_files(summaries: &[RouteSummary], id: &str) -> (r: Option<(usize, Vec<String>)>)
    requires
        summaries_fit(summaries@),
    ensures
        match r {
            Some(p) => drive_named(summaries@, id@) == Some(p.0 as int) && texts(p.1@) == files_of(
                summaries@,
                p.0 as int,
            ),
            None => drive_named(summaries@, id@) is None,
        },
{
    let groups: Vec<Vec<SubClipSummary>> = group_summary_clips(summaries);
    match find_drive(summaries, &groups, id) {
        Some(i) => {
            proof {
                assert(views(groups@)[i as int] == groups@[i as int]@);
                assert(subs_fit(summaries@.len() as int, groups@[i as int]@));
            }
            Some((i, collect_files(summaries, &groups[i])))
        },
        None => None,
    }
}

/// The start time of the drive that `id` names: the key of its tags.
pub fn find_drive_start_time(summaries: &[RouteSummary], id: &str) -> (r: Option<String>)
    requires
        summaries_fit(summaries@),
    ensures
        match (r, drive_named(summaries@, id@)) {
            (Some(t), Some(i)) => t@ == key_of_drive(summaries@, i),
            (None, None) => true,
            _ => false,
        },
{
    let groups: Vec<Vec<SubClipSummary>> = group_summary_clips(summaries);
    match find_drive(summaries, &groups, id) {
        Some(i) => {
            proof {
                assert(views(groups@)[i as int] == groups@[i as int]@);
                assert(groups@[i as int]@.len() > 0);
            }
            Some(format_stamp(groups[i][0].ts))
        },
        None => None,
    }
}

/// Every drive's key and files.
pub fn drive_key_file_map(summaries: &[RouteSummary]) -> (r: Vec<(String, Vec<String>)>)
    requires
        summaries_fit(summaries@),
    ensures
        r@.len() == sub_drives(summaries@).len(),
        forall|i: int|
            0 <= i < r@.len() ==> (#[trigger] r@[i]).0@ == key_of_drive(summaries@, i) && texts(
                r@[i].1@,
            ) == files_of(summaries@, i),
{
    let groups: Vec<Vec<SubClipSummary>> = group_summary_clips(summaries);
    let mut out: Vec<(String, Vec<String>)> = Vec::new();
    let mut i: usize = 0;
    while i < groups.len()
        invariant
            i <= groups.len(),
            views(groups@) == sub_drives(summaries@),
            forall|k: int|
                0 <= k < groups@.len() ==> (#[trigger] groups@[k])@.len() > 0 && subs_fit(
                    summaries@.len() as int,
                    groups@[k]@,
                ),
            out@.len() == i,
            forall|k: int|
                0 <= k < i ==> (#[trigger] out@[k]).0@ == key_of_drive(summaries@, k) && texts(
                    out@[k].1@,
                ) == files_of(summaries@, k),
        decreases groups.len() - i,
    {
        proof {
            assert(views(groups@)[i as int] == groups@[i as int]@);
            assert(groups@[i as int]@.len() > 0);
        }
        let key: String = format_stamp(groups[i][0].ts);
        let files: Vec<String> = collect_files(summaries, &groups[i]);
        out.push((key, files));
        i = i + 1;
    }
    proof {
        assert(views(groups@).len() == groups@.len());
    }
    out
}

// ---------------------------------------------------------------------------
// Laws
// ---------------------------------------------------------------------------

proof fn lemma_drive_starting(s: Seq<RouteSummary>, id: Seq<char>, i: int)
    requires
        0 <= i,
    ensures
        drive_starting(s, id, i) matches Some(k) ==> i <= k < sub_drives(s).len() && key_of_drive(
            s,
            k,
        ) == id,
        drive_starting(s, id, i) is None ==> forall|k: int|
            i <= k < sub_drives(s).len() ==> #[trigger] key_of_drive(s, k) != id,
    decreases sub_drives(s).len() - i,
{
    if i < sub_drives(s).len() && key_of_drive(s, i) != id {
        lemma_drive_starting(s, id, i + 1);
    }
}

/// A drive's number names it, and so does its start where no number does: the key
/// that a lookup by start gives back is the one it was asked for.
pub proof fn law_names_resolve(s: Seq<RouteSummary>, id: Seq<char>)
    ensures
        drive_named(s, id) matches Some(k) ==> 0 <= k < sub_drives(s).len(),
        spelled(id, false) is None ==> (drive_named(s, id) matches Some(k) ==> key_of_drive(s, k)
            == id),
        spelled(id, false) is None && drive_named(s, id) is None ==> forall|k: int|
            0 <= k < sub_drives(s).len() ==> #[trigger] key_of_drive(s, k) != id,
{
    lemma_drive_starting(s, id, 0);
}

/// The list row of a drive starts at the drive's key, so tags written under the
/// key show on the row.
pub proof fn law_rows_are_tagged_by_key<G: Fn(F64, F64, F64, F64) -> F64>(
    s: Seq<RouteSummary>,
    idx: int,
    tags: Seq<TagEntry>,
    geodesic: G,
    d: DriveSummary,
)
    requires
        row_of(s, idx, tags, geodesic, d),
    ensures
        d.start_time@ == key_of_drive(s, idx),
        texts(d.tags@) == tags_under(tags, key_of_drive(s, idx), 0),
{
}

/// Asked for the same positions, `geodesic` gives one answer.
pub open spec fn answers_once<G: Fn(F64, F64, F64, F64) -> F64>(geodesic: G) -> bool {
    forall|p: (F64, F64, F64, F64), x: F64, y: F64| #[trigger]
        call_ensures(geodesic, p, x) && #[trigger] call_ensures(geodesic, p, y) ==> x == y
}

/// The two rows agree in every field, texts by their characters.
pub open spec fn same_row(a: DriveSummary, b: DriveSummary) -> bool {
    &&& a.id == b.id
    &&& a.date@ == b.date@
    &&& a.start_time@ == b.start_time@
    &&& a.end_time@ == b.end_time@
    &&& a.duration_ms == b.duration_ms
    &&& a.distance_mi == b.distance_mi
    &&& a.distance_km == b.distance_km
    &&& a.avg_speed_mph == b.avg_speed_mph
    &&& a.max_speed_mph == b.max_speed_mph
    &&& a.avg_speed_kmh == b.avg_speed_kmh
    &&& a.max_speed_kmh == b.max_speed_kmh
    &&& a.clip_count == b.clip_count
    &&& a.point_count == b.point_count
    &&& a.start_point == b.start_point
    &&& a.end_point == b.end_point
    &&& texts(a.tags@) == texts(b.tags@)
    &&& a.fsd_engaged_ms == b.fsd_engaged_ms
    &&& a.fsd_disengagements == b.fsd_disengagements
    &&& a.fsd_accel_pushes == b.fsd_accel_pushes
    &&& a.fsd_percent == b.fsd_percent
    &&& a.fsd_distance_km == b.fsd_distance_km
    &&& a.fsd_distance_mi == b.fsd_distance_mi
    &&& a.autosteer_engaged_ms == b.autosteer_engaged_ms
    &&& a.autosteer_percent == b.autosteer_percent
    &&& a.autosteer_distance_km == b.autosteer_distance_km
    &&& a.autosteer_distance_mi == b.autosteer_distance_mi
    &&& a.tacc_engaged_ms == b.tacc_engaged_ms
    &&& a.tacc_percent == b.tacc_percent
    &&& a.tacc_distance_km == b.tacc_distance_km
    &&& a.tacc_distance_mi == b.tacc_distance_mi
    &&& a.assisted_percent == b.assisted_percent
    &&& a.summon == b.summon
    &&& a.battery_pct_start == b.battery_pct_start
    &&& a.battery_pct_end == b.battery_pct_end
    &&& a.battery_pct_used == b.battery_pct_used
    &&& a.interior_temp_min_c == b.interior_temp_min_c
    &&& a.interior_temp_max_c == b.interior_temp_max_c
    &&& a.exterior_temp_avg_c == b.exterior_temp_avg_c
    &&& a.hvac_runtime_s == b.hvac_runtime_s
    &&& a.tire_fl_psi == b.tire_fl_psi
    &&& a.tire_fr_psi == b.tire_fr_psi
    &&& a.tire_rl_psi == b.tire_rl_psi
    &&& a.tire_rr_psi == b.tire_rr_psi
    &&& a.odometer_mi_start == b.odometer_mi_start
    &&& a.odometer_mi_end == b.odometer_mi_end
    &&& a.odometer_mi_driven == b.odometer_mi_driven
    &&& text_view(a.start_location) == text_view(b.start_location)
    &&& text_view(a.end_location) == text_view(b.end_location)
    &&& text_view(a.source) == text_view(b.source)
    &&& text_view(a.external_signature) == text_view(b.external_signature)
    &&& a.tessie_autopilot_percent == b.tessie_autopilot_percent
}

/// Lengths are read only where there is a gap.
proof fn lemma_same_gaps(
    s: Seq<RouteSummary>,
    c: Seq<SubClipSummary>,
    x: Seq<F64>,
    y: Seq<F64>,
    mode: u8,
    n: int,
)
    requires
        0 <= n <= c.len(),
        forall|i: int| 0 <= i < c.len() && gap_ends(s, c, i) is Some ==> #[trigger] x[i] == y[i],
    ensures
        distance_total(s, c, x, n) == distance_total(s, c, y, n),
        bridge_total(s, c, x, mode, n) == bridge_total(s, c, y, mode, n),
    decreases n,
{
    if n > 0 {
        lemma_same_gaps(s, c, x, y, mode, n - 1);
        if gap_ends(s, c, n - 1) is Some {
            assert(x[n - 1] == y[n - 1]);
        }
    }
}

/// The row of a drive is settled: where `geodesic` gives one answer for the same
/// positions, two rows of one drive agree in every field.
pub proof fn law_rows_are_settled<G: Fn(F64, F64, F64, F64) -> F64>(
    s: Seq<RouteSummary>,
    idx: int,
    tags: Seq<TagEntry>,
    geodesic: G,
    a: DriveSummary,
    b: DriveSummary,
)
    requires
        answers_once(geodesic),
        row_of(s, idx, tags, geodesic, a),
        row_of(s, idx, tags, geodesic, b),
    ensures
        same_row(a, b),
{
    let c = sub_drives(s)[idx];
    let n = c.len() as int;
    let x = choose|x: Seq<F64>| #[trigger]
        bridged_by(s, c, geodesic, x) && is_row(s, c, idx, tags, x, a);
    let y = choose|y: Seq<F64>| #[trigger]
        bridged_by(s, c, geodesic, y) && is_row(s, c, idx, tags, y, b);
    assert forall|i: int| 0 <= i < c.len() && gap_ends(s, c, i) is Some implies #[trigger] x[i]
        == y[i] by {
        assert(call_ensures(geodesic, gap_arguments(s, c, i), x[i]));
        assert(call_ensures(geodesic, gap_arguments(s, c, i), y[i]));
    }
    lemma_same_gaps(s, c, x, y, AUTOPILOT_FSD, n);
    lemma_same_gaps(s, c, x, y, AUTOPILOT_AUTOSTEER, n);
    lemma_same_gaps(s, c, x, y, AUTOPILOT_TACC, n);
}

/// The row of one drive is the one that the list holds, and there is none exactly
/// where the list has no such row. It carries its number.
pub proof fn law_single_rows_are_listed<G: Fn(F64, F64, F64, F64) -> F64>(
    s: Seq<RouteSummary>,
    idx: int,
    tags: Seq<TagEntry>,
    geodesic: G,
    ds: Seq<DriveSummary>,
    r: Option<DriveSummary>,
)
    requires
        answers_once(geodesic),
        are_rows(s, tags, geodesic, ds),
        0 <= idx,
        is_row_at(s, idx, tags, geodesic, r),
    ensures
        r is Some <==> idx < ds.len(),
        r matches Some(d) ==> same_row(d, ds[idx]),
        r matches Some(d) ==> (idx <= i32::MAX ==> d.id == idx),
{
    if let Some(d) = r {
        assert(row_of(s, idx, tags, geodesic, ds[idx]));
        law_rows_are_settled(s, idx, tags, geodesic, d, ds[idx]);
    }
}

/// No file is listed twice.
pub proof fn law_files_are_distinct(s: Seq<RouteSummary>, c: Seq<SubClipSummary>, n: int, i: int, j: int)
    requires
        0 <= n <= c.len(),
        0 <= i < j < drive_files(s, c, n).len(),
    ensures
        drive_files(s, c, n)[i] != drive_files(s, c, n)[j],
    decreases n,
{
    if n > 0 {
        if first_of_file(s, c, n - 1) && j == drive_files(s, c, n - 1).len() {
            lemma_files_listed(s, c, n - 1, i);
        } else {
            law_files_are_distinct(s, c, n - 1, i, j);
        }
    }
}

proof fn lemma_files_listed(s: Seq<RouteSummary>, c: Seq<SubClipSummary>, n: int, i: int)
    requires
        0 <= n < c.len(),
        0 <= i < drive_files(s, c, n).len(),
        first_of_file(s, c, n),
    ensures
        drive_files(s, c, n)[i] != s[c[n].summary as int].file@,
{
    let k = lemma_file_source(s, c, n, i);
    assert(s[c[k].summary as int].file@ != s[c[n].summary as int].file@);
}

proof fn lemma_file_source(s: Seq<RouteSummary>, c: Seq<SubClipSummary>, n: int, i: int) -> (k: int)
    requires
        0 <= n <= c.len(),
        0 <= i < drive_files(s, c, n).len(),
    ensures
        0 <= k < n,
        drive_files(s, c, n)[i] == s[c[k].summary as int].file@,
    decreases n,
{
    if n > 0 && first_of_file(s, c, n - 1) && i == drive_files(s, c, n - 1).len() {
        n - 1
    } else {
        lemma_file_source(s, c, n - 1, i)
    }
}

} // verus!
