//! The line a drive leaves on the map: outliers out, thinned for display.

use crate::calc::{MAX_FROM_MEDIAN_M, MAX_JUMP_M, is_null_island, lit, null_island};
use crate::float::{F64, HALF64, fadd, fdiv, fle, flt, fmul, from_int, to_int, zero};
use crate::rounding::lemma_cut_spot;
use crate::text::copy_range;
use crate::types::GpsPoint;
use vstd::prelude::*;

verus! {

/// Something that stands at a position.
pub trait Located: Sized + Copy {
    spec fn spot(&self) -> GpsPoint;

    fn position(&self) -> (p: GpsPoint)
        ensures
            p == self.spot(),
    ;
}

impl Located for GpsPoint {
    open spec fn spot(&self) -> GpsPoint {
        *self
    }

    fn position(&self) -> (p: GpsPoint) {
        *self
    }
}

// ---------------------------------------------------------------------------
// Selection
// ---------------------------------------------------------------------------

/// The first `n` members that `keep`, in order.
pub open spec fn kept<T>(s: Seq<T>, keep: spec_fn(int) -> bool, n: int) -> Seq<T>
    decreases n,
{
    if n <= 0 {
        Seq::empty()
    } else if keep(n - 1) {
        kept(s, keep, n - 1).push(s[n - 1])
    } else {
        kept(s, keep, n - 1)
    }
}

/// The members with a real position.
pub open spec fn real_spots<T: Located>(s: Seq<T>) -> Seq<T> {
    kept(s, |i: int| !null_island(s[i].spot().lat, s[i].spot().lng), s.len() as int)
}

/// Leaves out members without a real position.
pub fn drop_null_island<T: Located>(s: &Vec<T>) -> (r: Vec<T>)
    ensures
        r@ == real_spots(s@),
{
    let ghost keep = |i: int| !null_island(s@[i].spot().lat, s@[i].spot().lng);
    let mut out: Vec<T> = Vec::new();
    let mut i: usize = 0;
    while i < s.len()
        invariant
            i <= s@.len(),
            keep == (|i: int| !null_island(s@[i].spot().lat, s@[i].spot().lng)),
            out@ == kept(s@, keep, i as int),
        decreases s.len() - i,
    {
        let p: GpsPoint = s[i].position();
        if !is_null_island(p.lat, p.lng) {
            out.push(s[i]);
        }
        i = i + 1;
    }
    out
}

// ---------------------------------------------------------------------------
// Far from the middle
// ---------------------------------------------------------------------------

/// Sums of the positions `a..b`.
pub open spec fn spot_sum<T: Located>(s: Seq<T>, a: int, b: int) -> GpsPoint
    decreases b - a,
{
    if b <= a {
        GpsPoint { lat: zero(), lng: zero() }
    } else {
        let before = spot_sum(s, a, b - 1);
        GpsPoint {
            lat: fadd(before.lat, s[b - 1].spot().lat),
            lng: fadd(before.lng, s[b - 1].spot().lng),
        }
    }
}

/// The mean position of the middle half.
pub open spec fn middle<T: Located>(s: Seq<T>) -> GpsPoint {
    let n = s.len() as int;
    let a = n / 4;
    let b = n * 3 / 4;
    let sum = spot_sum(s, a, b + 1);
    GpsPoint {
        lat: fdiv(sum.lat, from_int(b - a + 1)),
        lng: fdiv(sum.lng, from_int(b - a + 1)),
    }
}

/// `reach[i]` is the distance of member `i` from `centre`.
pub open spec fn reaches<T: Located, G: Fn(F64, F64, F64, F64) -> F64>(
    s: Seq<T>,
    centre: GpsPoint,
    geodesic: G,
    reach: Seq<F64>,
) -> bool {
    &&& reach.len() == s.len()
    &&& forall|i: int|
        0 <= i < s.len() ==> call_ensures(
            geodesic,
            (s[i].spot().lat, s[i].spot().lng, centre.lat, centre.lng),
            #[trigger] reach[i],
        )
}

/// Members within reach of the middle; of two or fewer all stay.
pub open spec fn within_reach<T>(s: Seq<T>, reach: Seq<F64>) -> Seq<T> {
    if s.len() > 2 {
        kept(s, |i: int| fle(reach[i], lit(MAX_FROM_MEDIAN_M)), s.len() as int)
    } else {
        s
    }
}

fn find_middle<T: Located>(s: &Vec<T>) -> (c: GpsPoint)
    requires
        s@.len() > 2,
    ensures
        c == middle(s@),
{
    let n: usize = s.len();
    let a: usize = n / 4;
    let b: usize = ((n as u128 * 3) / 4) as usize;
    let mut lat: F64 = F64::from_bits(0);
    let mut lng: F64 = F64::from_bits(0);
    let mut i: usize = a;
    while i <= b
        invariant
            a <= i <= b + 1,
            b < n,
            n == s@.len(),
            spot_sum(s@, a as int, i as int) == (GpsPoint { lat, lng }),
        decreases b + 1 - i,
    {
        let p: GpsPoint = s[i].position();
        lat = lat.plus(p.lat);
        lng = lng.plus(p.lng);
        i = i + 1;
    }
    let count: F64 = F64::of_usize(b - a + 1);
    GpsPoint { lat: lat.over(count), lng: lng.over(count) }
}

/// Leaves out members out of reach.
pub fn drop_far<T: Copy>(s: &Vec<T>, reach: &Vec<F64>) -> (r: Vec<T>)
    requires
        s@.len() > 2 ==> reach@.len() == s@.len(),
    ensures
        r@ == within_reach(s@, reach@),
{
    if s.len() <= 2 {
        let r: Vec<T> = copy_range(s.as_slice(), 0, s.len());
        proof {
            assert(r@ =~= s@);
        }
        return r;
    }
    let ghost keep = |i: int| fle(reach@[i], lit(MAX_FROM_MEDIAN_M));
    let mut out: Vec<T> = Vec::new();
    let mut i: usize = 0;
    while i < s.len()
        invariant
            i <= s@.len(),
            reach@.len() == s@.len(),
            keep == (|i: int| fle(reach@[i], lit(MAX_FROM_MEDIAN_M))),
            out@ == kept(s@, keep, i as int),
        decreases s.len() - i,
    {
        if reach[i].le(F64::from_bits(MAX_FROM_MEDIAN_M)) {
            out.push(s[i]);
        }
        i = i + 1;
    }
    out
}

// ---------------------------------------------------------------------------
// Far from both neighbours
// ---------------------------------------------------------------------------

/// `hops[i]` is the distance of member `i` from the one before it.
pub open spec fn hops_along<T: Located, G: Fn(F64, F64, F64, F64) -> F64>(
    s: Seq<T>,
    geodesic: G,
    hops: Seq<F64>,
) -> bool {
    &&& hops.len() == s.len()
    &&& forall|i: int|
        1 <= i < s.len() ==> call_ensures(
            geodesic,
            (s[i - 1].spot().lat, s[i - 1].spot().lng, s[i].spot().lat, s[i].spot().lng),
            #[trigger] hops[i],
        )
}

/// A step too long to be driven.
pub open spec fn is_jump(hop: F64) -> bool {
    flt(lit(MAX_JUMP_M), hop)
}

/// Member `i` of `n` is a jump away from every neighbour it has.
pub open spec fn is_stray(hops: Seq<F64>, n: int, i: int) -> bool {
    (i > 0 ==> is_jump(hops[i])) && (i < n - 1 ==> is_jump(hops[i + 1]))
}

/// Members that are no strays; of two or fewer all stay.
pub open spec fn without_strays<T>(s: Seq<T>, hops: Seq<F64>) -> Seq<T> {
    if s.len() > 2 {
        kept(s, |i: int| !is_stray(hops, s.len() as int, i), s.len() as int)
    } else {
        s
    }
}

/// Leaves out strays.
pub fn drop_strays<T: Copy>(s: &Vec<T>, hops: &Vec<F64>) -> (r: Vec<T>)
    requires
        s@.len() > 2 ==> hops@.len() == s@.len(),
    ensures
        r@ == without_strays(s@, hops@),
{
    let n: usize = s.len();
    if n <= 2 {
        let r: Vec<T> = copy_range(s.as_slice(), 0, n);
        proof {
            assert(r@ =~= s@);
        }
        return r;
    }
    let ghost keep = |i: int| !is_stray(hops@, s@.len() as int, i);
    let limit: F64 = F64::from_bits(MAX_JUMP_M);
    let mut out: Vec<T> = Vec::new();
    let mut i: usize = 0;
    while i < n
        invariant
            i <= n,
            n == s@.len(),
            hops@.len() == n,
            limit == lit(MAX_JUMP_M),
            keep == (|i: int| !is_stray(hops@, s@.len() as int, i)),
            out@ == kept(s@, keep, i as int),
        decreases n - i,
    {
        let before: bool = i == 0 || limit.lt(hops[i]);
        let after: bool = i == n - 1 || limit.lt(hops[i + 1]);
        if !(before && after) {
            out.push(s[i]);
        }
        i = i + 1;
    }
    out
}

/// Distances between neighbours.
pub fn measure_hops<T: Located, G: Fn(F64, F64, F64, F64) -> F64>(
    s: &Vec<T>,
    geodesic: &G,
) -> (hops: Vec<F64>)
    requires
        forall|w: F64, x: F64, y: F64, z: F64| call_requires(*geodesic, (w, x, y, z)),
    ensures
        hops_along(s@, *geodesic, hops@),
{
    let mut out: Vec<F64> = Vec::new();
    let mut i: usize = 0;
    while i < s.len()
        invariant
            i <= s@.len(),
            forall|w: F64, x: F64, y: F64, z: F64| call_requires(*geodesic, (w, x, y, z)),
            out@.len() == i,
            forall|k: int|
                1 <= k < i ==> call_ensures(
                    *geodesic,
                    (
                        s@[k - 1].spot().lat,
                        s@[k - 1].spot().lng,
                        s@[k].spot().lat,
                        s@[k].spot().lng,
                    ),
                    #[trigger] out@[k],
                ),
        decreases s.len() - i,
    {
        if i == 0 {
            out.push(F64::from_bits(0));
        } else {
            let p: GpsPoint = s[i - 1].position();
            let q: GpsPoint = s[i].position();
            let d: F64 = geodesic(p.lat, p.lng, q.lat, q.lng);
            out.push(d);
        }
        i = i + 1;
    }
    out
}

fn measure_reach<T: Located, G: Fn(F64, F64, F64, F64) -> F64>(
    s: &Vec<T>,
    centre: GpsPoint,
    geodesic: &G,
) -> (reach: Vec<F64>)
    requires
        forall|w: F64, x: F64, y: F64, z: F64| call_requires(*geodesic, (w, x, y, z)),
    ensures
        reaches(s@, centre, *geodesic, reach@),
{
    let mut out: Vec<F64> = Vec::new();
    let mut i: usize = 0;
    while i < s.len()
        invariant
            i <= s@.len(),
            forall|w: F64, x: F64, y: F64, z: F64| call_requires(*geodesic, (w, x, y, z)),
            out@.len() == i,
            forall|k: int|
                0 <= k < i ==> call_ensures(
                    *geodesic,
                    (s@[k].spot().lat, s@[k].spot().lng, centre.lat, centre.lng),
                    #[trigger] out@[k],
                ),
        decreases s.len() - i,
    {
        let p: GpsPoint = s[i].position();
        let d: F64 = geodesic(p.lat, p.lng, centre.lat, centre.lng);
        out.push(d);
        i = i + 1;
    }
    out
}

/// `out` is `s` without members out of reach of its middle, and then without
/// strays, by the distances `reach` and `hops` that `geodesic` gave.
pub open spec fn cleaned_by<T: Located, G: Fn(F64, F64, F64, F64) -> F64>(
    s: Seq<T>,
    geodesic: G,
    reach: Seq<F64>,
    hops: Seq<F64>,
    out: Seq<T>,
) -> bool {
    let near = within_reach(s, reach);
    &&& s.len() > 2 ==> reaches(s, middle(s), geodesic, reach)
    &&& near.len() > 2 ==> hops_along(near, geodesic, hops)
    &&& out == without_strays(near, hops)
}

/// `out` is `s` without outliers.
pub open spec fn is_cleaned<T: Located, G: Fn(F64, F64, F64, F64) -> F64>(
    s: Seq<T>,
    geodesic: G,
    out: Seq<T>,
) -> bool {
    exists|reach: Seq<F64>, hops: Seq<F64>| #[trigger] cleaned_by(s, geodesic, reach, hops, out)
}

/// Leaves out outliers.
pub fn clean_track<T: Located, G: Fn(F64, F64, F64, F64) -> F64>(
    s: &Vec<T>,
    geodesic: &G,
) -> (r: Vec<T>)
    requires
        forall|w: F64, x: F64, y: F64, z: F64| call_requires(*geodesic, (w, x, y, z)),
    ensures
        is_cleaned(s@, *geodesic, r@),
{
    let reach: Vec<F64> = if s.len() > 2 {
        let centre: GpsPoint = find_middle(s);
        measure_reach(s, centre, geodesic)
    } else {
        Vec::new()
    };
    let near: Vec<T> = drop_far(s, &reach);
    let hops: Vec<F64> = measure_hops(&near, geodesic);
    let out: Vec<T> = drop_strays(&near, &hops);
    proof {
        assert(cleaned_by(s@, *geodesic, reach@, hops@, out@));
    }
    out
}

// ---------------------------------------------------------------------------
// Thinning
// ---------------------------------------------------------------------------

/// Position of the `i`-th of `max` evenly spaced points out of `n`.
pub open spec fn spaced(n: int, max: int, i: int) -> int {
    let at = to_int(
        fmul(from_int(i), fdiv(from_int(n), from_int(max))),
        0,
        usize::MAX as int,
    );
    if at >= n {
        n - 1
    } else {
        at
    }
}

/// `max` evenly spaced points and the last one; all where there are no more.
pub open spec fn thinned_out(points: Seq<GpsPoint>, max: int) -> Seq<GpsPoint> {
    let n = points.len() as int;
    if n <= max {
        points
    } else {
        Seq::new(max as nat, |i: int| points[spaced(n, max, i)]).push(points.last())
    }
}

/// Evenly spaced thinning: `max_points` points and the last one; all where there
/// are no more.
pub fn downsample(points: &[GpsPoint], max_points: usize) -> (r: Vec<GpsPoint>)
    ensures
        r@ == thinned_out(points@, max_points as int),
{
    let n: usize = points.len();
    if n <= max_points {
        let r: Vec<GpsPoint> = copy_range(points, 0, n);
        proof {
            assert(r@ =~= points@);
        }
        return r;
    }
    let step: F64 = F64::of_usize(n).over(F64::of_usize(max_points));
    let mut out: Vec<GpsPoint> = Vec::new();
    let mut i: usize = 0;
    while i < max_points
        invariant
            i <= max_points < n,
            n == points@.len(),
            step == fdiv(from_int(n as int), from_int(max_points as int)),
            out@.len() == i,
            forall|k: int|
                0 <= k < i ==> #[trigger] out@[k] == points@[spaced(
                    n as int,
                    max_points as int,
                    k,
                )],
        decreases max_points - i,
    {
        let mut at: usize = F64::of_usize(i).times(step).to_usize();
        if at >= n {
            at = n - 1;
        }
        out.push(points[at]);
        i = i + 1;
    }
    out.push(points[n - 1]);
    proof {
        assert(out@ =~= thinned_out(points@, max_points as int));
    }
    out
}

/// Thinning keeps the last point, adds none, and leaves at most one point more
/// than asked for.
pub proof fn law_thinning_keeps_the_end(points: Seq<GpsPoint>, max: int)
    requires
        0 <= max,
        points.len() > 0,
    ensures
        thinned_out(points, max).len() <= max + 1,
        thinned_out(points, max).last() == points.last(),
        forall|i: int|
            0 <= i < thinned_out(points, max).len() ==> points.contains(
                #[trigger] thinned_out(points, max)[i],
            ),
{
    let n = points.len() as int;
    assert forall|i: int| 0 <= i < thinned_out(points, max).len() implies points.contains(
        #[trigger] thinned_out(points, max)[i],
    ) by {
        if n <= max {
            assert(points[i] == thinned_out(points, max)[i]);
        } else if i < max {
            assert(points[spaced(n, max, i)] == thinned_out(points, max)[i]);
        } else {
            assert(points[n - 1] == thinned_out(points, max)[i]);
        }
    }
}

/// Evenly spaced positions lie before the end by themselves: none is moved there.
pub proof fn law_spacing_stays_inside(n: int, max: int, i: int)
    requires
        0 <= i < max < n <= HALF64,
        n <= usize::MAX,
    ensures
        spaced(n, max, i) == to_int(
            fmul(from_int(i), fdiv(from_int(n), from_int(max))),
            0,
            usize::MAX as int,
        ),
{
    lemma_cut_spot(n as nat, max as nat, i as nat);
}

} // verus!
