//! Map polylines of all drives.

use crate::clock::{format_stamp, stamp_text};
use crate::float::F64;
use crate::grouper::{Piece, drives, group_clips, piece_fits, pieces_fit, routes_fit};
use crate::summary::{copy_text, text_view};
use crate::timeline::views;
use crate::track::{clean_track, downsample, drop_null_island, is_cleaned, real_spots, thinned_out};
use crate::types::{GpsPoint, Route, RouteOverview};
use vstd::prelude::*;

verus! {

/// Positions of the first `n` pieces.
pub open spec fn spots_of(routes: Seq<Route>, ps: Seq<Piece>, n: int) -> Seq<GpsPoint>
    decreases n,
{
    if n <= 0 {
        Seq::empty()
    } else {
        let p = ps[n - 1];
        spots_of(routes, ps, n - 1) + routes[p.route as int].points@.subrange(
            p.start as int,
            p.end as int,
        )
    }
}

/// `o` is the polyline of drive `idx`.
pub open spec fn is_overview<G: Fn(F64, F64, F64, F64) -> F64>(
    routes: Seq<Route>,
    ps: Seq<Piece>,
    idx: int,
    max: int,
    geodesic: G,
    o: RouteOverview,
) -> bool {
    let all = real_spots(spots_of(routes, ps, ps.len() as int));
    &&& o.id == (idx as usize) as i32
    &&& exists|line: Seq<GpsPoint>|
        #[trigger] is_cleaned(all, geodesic, line) && o.points@ == thinned_out(line, max)
    &&& text_view(o.source) == text_view(routes[ps[0].route as int].source)
    &&& o.start_time@ == stamp_text(ps[0].ts as int)
}

fn merge_spots(routes: &[Route], ps: &Vec<Piece>) -> (r: Vec<GpsPoint>)
    requires
        pieces_fit(routes@, ps@),
    ensures
        r@ == spots_of(routes@, ps@, ps@.len() as int),
{
    let mut out: Vec<GpsPoint> = Vec::new();
    let mut m: usize = 0;
    while m < ps.len()
        invariant
            m <= ps@.len(),
            pieces_fit(routes@, ps@),
            out@ == spots_of(routes@, ps@, m as int),
        decreases ps.len() - m,
    {
        let p: Piece = ps[m];
        proof {
            assert(piece_fits(routes@, ps@[m as int]));
        }
        let ghost before = out@;
        let ghost part = routes@[p.route as int].points@.subrange(p.start as int, p.end as int);
        let mut i: usize = p.start;
        proof {
            assert(out@ =~= before + part.take(0));
        }
        while i < p.end
            invariant
                p.start <= i <= p.end,
                piece_fits(routes@, p),
                part == routes@[p.route as int].points@.subrange(p.start as int, p.end as int),
                out@ == before + part.take(i - p.start),
            decreases p.end - i,
        {
            out.push(routes[p.route].points[i]);
            i = i + 1;
            proof {
                assert(out@ =~= before + part.take(i - p.start));
            }
        }
        proof {
            assert(part.take(i - p.start) =~= part);
        }
        m = m + 1;
    }
    out
}

/// Polylines of all drives, without outliers and thinned for display.
pub fn group_routes_overview<G: Fn(F64, F64, F64, F64) -> F64>(
    routes: &[Route],
    max_points_per_drive: usize,
    geodesic: &G,
) -> (r: Vec<RouteOverview>)
    requires
        routes_fit(routes@),
        forall|w: F64, x: F64, y: F64, z: F64| call_requires(*geodesic, (w, x, y, z)),
    ensures
        r@.len() == drives(routes@).len(),
        forall|i: int|
            0 <= i < r@.len() ==> is_overview(
                routes@,
                drives(routes@)[i],
                i,
                max_points_per_drive as int,
                *geodesic,
                #[trigger] r@[i],
            ),
{
    let groups: Vec<Vec<Piece>> = group_clips(routes);
    let ghost gv = views(groups@);
    let mut out: Vec<RouteOverview> = Vec::new();
    let mut g: usize = 0;
    while g < groups.len()
        invariant
            g <= groups@.len(),
            gv == views(groups@),
            forall|i: int|
                0 <= i < groups@.len() ==> (#[trigger] groups@[i])@.len() > 0 && pieces_fit(
                    routes@,
                    groups@[i]@,
                ),
            forall|w: F64, x: F64, y: F64, z: F64| call_requires(*geodesic, (w, x, y, z)),
            out@.len() == g,
            forall|i: int|
                0 <= i < g ==> is_overview(
                    routes@,
                    gv[i],
                    i,
                    max_points_per_drive as int,
                    *geodesic,
                    #[trigger] out@[i],
                ),
        decreases groups.len() - g,
    {
        proof {
            assert(groups@[g as int]@.len() > 0);
            assert(gv[g as int] == groups@[g as int]@);
            assert(piece_fits(routes@, groups@[g as int]@[0]));
        }
        let first: Piece = groups[g][0];
        let merged: Vec<GpsPoint> = merge_spots(routes, &groups[g]);
        let all: Vec<GpsPoint> = drop_null_island(&merged);
        let line: Vec<GpsPoint> = clean_track(&all, geodesic);
        let o: RouteOverview = RouteOverview {
            id: g as i32,
            points: downsample(line.as_slice(), max_points_per_drive),
            source: copy_text(&routes[first.route].source),
            start_time: format_stamp(first.ts),
        };
        proof {
            assert(is_cleaned(
                real_spots(spots_of(routes@, gv[g as int], gv[g as int].len() as int)),
                *geodesic,
                line@,
            ));
        }
        out.push(o);
        g = g + 1;
    }
    proof {
        assert(gv.len() == groups@.len());
    }
    out
}

/// Polylines of all drives for the map.
pub fn route_overviews<G: Fn(F64, F64, F64, F64) -> F64>(
    routes: Vec<Route>,
    max_points_per_drive: usize,
    geodesic: G,
) -> (r: Vec<RouteOverview>)
    requires
        routes_fit(routes@),
        forall|w: F64, x: F64, y: F64, z: F64| call_requires(geodesic, (w, x, y, z)),
    ensures
        r@.len() == drives(routes@).len(),
        forall|i: int|
            0 <= i < r@.len() ==> is_overview(
                routes@,
                drives(routes@)[i],
                i,
                max_points_per_drive as int,
                geodesic,
                #[trigger] r@[i],
            ),
{
    group_routes_overview(routes.as_slice(), max_points_per_drive, &geodesic)
}

} // verus!
