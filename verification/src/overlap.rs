//! Imported Tessie drives that repeat a recorded one.

use crate::analytics::is_imported;
use crate::clock::{iso_seconds, parse_iso_seconds};
use crate::summary::{imported, text_view};
use crate::text::same_text;
use crate::types::DriveSummary;
use vstd::prelude::*;

verus! {

/// The drive was imported from Tessie.
pub open spec fn from_tessie(d: DriveSummary) -> bool {
    text_view(d.source) == Some("tessie"@)
}

/// Start and end of a drive in seconds, where both are times.
pub open spec fn window(d: DriveSummary) -> Option<(int, int)> {
    match (iso_seconds(d.start_time@), iso_seconds(d.end_time@)) {
        (Some(s), Some(e)) => Some((s, e)),
        _ => None,
    }
}

/// `other` is the car's own recording and its window overlaps that of `d`.
pub open spec fn covers(other: DriveSummary, d: DriveSummary) -> bool {
    !imported(text_view(other.source)) && match (window(other), window(d)) {
        (Some(o), Some(w)) => o.1 > w.0 && o.0 < w.1,
        _ => false,
    }
}

/// `d` is a Tessie drive that some recorded drive of `ds` overlaps.
pub open spec fn is_repeated(ds: Seq<DriveSummary>, d: DriveSummary) -> bool {
    from_tessie(d) && exists|j: int| 0 <= j < ds.len() && covers(#[trigger] ds[j], d)
}

/// The drives from `i` on that are not repeated, in order.
pub open spec fn kept_from(ds: Seq<DriveSummary>, i: int) -> Seq<DriveSummary>
    decreases ds.len() - i,
{
    if i < 0 || i >= ds.len() {
        Seq::empty()
    } else if is_repeated(ds, ds[i]) {
        kept_from(ds, i + 1)
    } else {
        seq![ds[i]] + kept_from(ds, i + 1)
    }
}

fn is_tessie(source: &Option<String>) -> (r: bool)
    ensures
        r == (text_view(*source) == Some("tessie"@)),
{
    match source {
        Some(t) => same_text(t.as_str(), "tessie"),
        None => false,
    }
}

fn window_of(d: &DriveSummary) -> (r: Option<(i64, i64)>)
    ensures
        match (r, window(*d)) {
            (Some(a), Some(b)) => a.0 == b.0 && a.1 == b.1,
            (None, None) => true,
            _ => false,
        },
{
    match (parse_iso_seconds(d.start_time.as_str()), parse_iso_seconds(d.end_time.as_str())) {
        (Some(s), Some(e)) => Some((s, e)),
        _ => None,
    }
}

fn find_repeated(ds: &Vec<DriveSummary>, i: usize) -> (r: bool)
    requires
        i < ds@.len(),
    ensures
        r == is_repeated(ds@, ds@[i as int]),
{
    if !is_tessie(&ds[i].source) {
        return false;
    }
    let w: (i64, i64) = match window_of(&ds[i]) {
        Some(w) => w,
        None => {
            return false;
        },
    };
    let mut j: usize = 0;
    while j < ds.len()
        invariant
            j <= ds@.len(),
            i < ds@.len(),
            window(ds@[i as int]) == Some((w.0 as int, w.1 as int)),
            from_tessie(ds@[i as int]),
            forall|k: int| 0 <= k < j ==> !covers(#[trigger] ds@[k], ds@[i as int]),
        decreases ds.len() - j,
    {
        if !is_imported(&ds[j].source) {
            if let Some(o) = window_of(&ds[j]) {
                if o.1 > w.0 && o.0 < w.1 {
                    proof {
                        assert(covers(ds@[j as int], ds@[i as int]));
                    }
                    return true;
                }
            }
        }
        j = j + 1;
    }
    false
}

/// Leaves out the Tessie drives that a recorded drive overlaps. The ids of the
/// others stay as they are.
pub fn hide_tessie_overlapping_sei(summaries: Vec<DriveSummary>) -> (r: Vec<DriveSummary>)
    ensures
        r@ == kept_from(summaries@, 0),
{
    let ghost ds = summaries@;
    let n: usize = summaries.len();
    let mut repeated: Vec<bool> = Vec::new();
    let mut i: usize = 0;
    while i < n
        invariant
            i <= n,
            n == summaries@.len(),
            ds == summaries@,
            repeated@.len() == i,
            forall|k: int| 0 <= k < i ==> #[trigger] repeated@[k] == is_repeated(ds, ds[k]),
        decreases n - i,
    {
        repeated.push(find_repeated(&summaries, i));
        i = i + 1;
    }
    let mut out: Vec<DriveSummary> = summaries;
    proof {
        assert(ds.take(n as int) + kept_from(ds, n as int) =~= ds);
    }
    while i > 0
        invariant
            i <= n,
            n == ds.len(),
            repeated@.len() == n,
            forall|k: int| 0 <= k < n ==> #[trigger] repeated@[k] == is_repeated(ds, ds[k]),
            out@ == ds.take(i as int) + kept_from(ds, i as int),
        decreases i,
    {
        i = i - 1;
        if repeated[i] {
            out.remove(i);
        }
        proof {
            assert(out@ =~= ds.take(i as int) + kept_from(ds, i as int));
        }
    }
    proof {
        assert(ds.take(0) + kept_from(ds, 0) =~= kept_from(ds, 0));
    }
    out
}

// ---------------------------------------------------------------------------
// Laws
// ---------------------------------------------------------------------------

proof fn lemma_kept_members(ds: Seq<DriveSummary>, i: int)
    requires
        0 <= i <= ds.len(),
    ensures
        forall|k: int|
            0 <= k < kept_from(ds, i).len() ==> ds.contains(#[trigger] kept_from(ds, i)[k])
                && !is_repeated(ds, kept_from(ds, i)[k]),
        forall|k: int|
            i <= k < ds.len() && !is_repeated(ds, #[trigger] ds[k]) ==> kept_from(ds, i).contains(
                ds[k],
            ),
    decreases ds.len() - i,
{
    if i < ds.len() {
        lemma_kept_members(ds, i + 1);
        let rest = kept_from(ds, i + 1);
        let all = kept_from(ds, i);
        assert forall|k: int| 0 <= k < all.len() implies ds.contains(#[trigger] all[k])
            && !is_repeated(ds, all[k]) by {
            if is_repeated(ds, ds[i]) {
                assert(all[k] == rest[k]);
            } else if k > 0 {
                assert(all[k] == rest[k - 1]);
            } else {
                assert(all[k] == ds[i]);
            }
        }
        assert forall|k: int| i <= k < ds.len() && !is_repeated(ds, #[trigger] ds[k]) implies all.contains(
            ds[k],
        ) by {
            if k == i {
                assert(all[0] == ds[i]);
            } else {
                assert(rest.contains(ds[k]));
                let m = choose|m: int| 0 <= m < rest.len() && rest[m] == ds[k];
                if is_repeated(ds, ds[i]) {
                    assert(all[m] == ds[k]);
                } else {
                    assert(all[m + 1] == ds[k]);
                }
            }
        }
    }
}

/// Only drives of the list stay, every drive that is not repeated stays, and so
/// does every drive that is not from Tessie.
pub proof fn law_only_repeated_drives_go(ds: Seq<DriveSummary>, d: DriveSummary)
    requires
        ds.contains(d),
    ensures
        kept_from(ds, 0).contains(d) <==> !is_repeated(ds, d),
        !from_tessie(d) ==> kept_from(ds, 0).contains(d),
{
    lemma_kept_members(ds, 0);
    let k = choose|k: int| 0 <= k < ds.len() && ds[k] == d;
    assert(ds[k] == d);
}

proof fn lemma_nothing_repeated(ds: Seq<DriveSummary>, i: int)
    requires
        0 <= i <= ds.len(),
        forall|k: int| 0 <= k < ds.len() ==> !is_repeated(ds, #[trigger] ds[k]),
    ensures
        kept_from(ds, i) == ds.skip(i),
    decreases ds.len() - i,
{
    if i < ds.len() {
        lemma_nothing_repeated(ds, i + 1);
        assert(seq![ds[i]] + ds.skip(i + 1) =~= ds.skip(i));
    } else {
        assert(ds.skip(i) =~= Seq::<DriveSummary>::empty());
    }
}

/// What is left holds no repeated drive: hiding again changes nothing.
pub proof fn law_hiding_is_final(ds: Seq<DriveSummary>)
    ensures
        kept_from(kept_from(ds, 0), 0) == kept_from(ds, 0),
{
    let out = kept_from(ds, 0);
    lemma_kept_members(ds, 0);
    assert forall|k: int| 0 <= k < out.len() implies !is_repeated(out, #[trigger] out[k]) by {
        if is_repeated(out, out[k]) {
            let j = choose|j: int| 0 <= j < out.len() && covers(#[trigger] out[j], out[k]);
            assert(ds.contains(out[j]));
            let m = choose|m: int| 0 <= m < ds.len() && ds[m] == out[j];
            assert(covers(ds[m], out[k]));
            assert(is_repeated(ds, out[k]));
        }
    }
    lemma_nothing_repeated(out, 0);
    assert(out.skip(0) =~= out);
}

} // verus!
