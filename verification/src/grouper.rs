//! Stored clips with point data, grouped into drives.

use crate::aggregate::{mul_held, sat_mul};
use crate::calc::{PARK_MAJORITY_FRACTION, lit};
use crate::clock::{move_by, shifted};
use crate::extract::park_count;
use crate::float::{F64, fdiv, flt, from_int};
use crate::gapfill::{run_in_gear, shows_driving, telemetry_gear_driving, telemetry_has_driving};
use crate::split::{
    PlannedSeg, Sourced, Token, any_signed, bucket_of, buckets, by_signature, clip_plan,
    frames_fit, gear_runs_fit, plan_clip_at_park_gaps, plan_within, runs_between, runs_of,
    sig_views, signature, sources_below, split_by_external_signature, unsigned,
};
use crate::timeline::{
    ClipKey, Key, Timed, build_time_line, indices_below, key_views, split_at_pauses, stretches,
    time_line, views,
};
use crate::types::{GEAR_PARK, Route};
use vstd::prelude::*;

verus! {

/// A clip of a drive, or the fragment of one between two Park gaps.
#[derive(Clone, Copy, Debug, PartialEq, Eq, Structural)]
pub struct Piece {
    /// Position of the stored clip.
    pub route: usize,
    /// Its points are `start..end` of the clip's.
    pub start: usize,
    pub end: usize,
    /// The clip was not cut.
    pub whole: bool,
    pub ts: i64,
}

impl Sourced for Piece {
    open spec fn spec_source(&self) -> usize {
        self.route
    }

    fn source(&self) -> (r: usize) {
        self.route
    }
}

/// Frame counts of every clip are in range.
pub open spec fn routes_fit(routes: Seq<Route>) -> bool {
    forall|i: int| 0 <= i < routes.len() ==> frames_fit((#[trigger] routes[i]).gear_runs@)
}

/// Whether the frames of every clip can be counted.
pub fn clips_fit(routes: &[Route]) -> (b: bool)
    ensures
        b == routes_fit(routes@),
{
    let mut i: usize = 0;
    while i < routes.len()
        invariant
            i <= routes@.len(),
            forall|k: int| 0 <= k < i ==> frames_fit((#[trigger] routes@[k]).gear_runs@),
        decreases routes.len() - i,
    {
        if !gear_runs_fit(routes[i].gear_runs.as_slice()) {
            return false;
        }
        i = i + 1;
    }
    true
}

pub open spec fn route_drives(r: Route) -> bool {
    shows_driving(
        r.gear_runs@,
        r.gear_states@,
        r.speeds@,
        r.raw_park_count,
        r.raw_frame_count,
    )
}

/// The telemetry of a clip with point data shows driving.
pub fn route_has_driving(r: &Route) -> (b: bool)
    ensures
        b == route_drives(*r),
{
    telemetry_has_driving(
        r.gear_runs.as_slice(),
        r.gear_states.as_slice(),
        r.speeds.as_slice(),
        r.raw_park_count,
        r.raw_frame_count,
    )
}

/// What the time line reads of the clips. Only gear runs speak for the gear: rows
/// without point data have nothing else.
pub open spec fn keys_of_routes(routes: Seq<Route>) -> Seq<Key> {
    Seq::new(
        routes.len(),
        |i: int|
            Key {
                file: routes[i].file@,
                driving: route_drives(routes[i]),
                gear_driving: run_in_gear(routes[i].gear_runs@),
            },
    )
}

fn route_keys<'a>(routes: &'a [Route]) -> (keys: Vec<ClipKey<'a>>)
    ensures
        key_views(keys@) == keys_of_routes(routes@),
{
    let mut out: Vec<ClipKey<'a>> = Vec::new();
    let none: Vec<u8> = Vec::new();
    let mut i: usize = 0;
    while i < routes.len()
        invariant
            i <= routes.len(),
            none@.len() == 0,
            key_views(out@) =~= keys_of_routes(routes@).take(i as int),
        decreases routes.len() - i,
    {
        let r: &'a Route = &routes[i];
        let ghost before = key_views(out@);
        out.push(
            ClipKey {
                file: r.file.as_str(),
                driving: route_has_driving(r),
                gear_driving: telemetry_gear_driving(r.gear_runs.as_slice(), &none),
            },
        );
        proof {
            assert(key_views(out@) =~= before.push(keys_of_routes(routes@)[i as int]));
        }
        i = i + 1;
    }
    proof {
        assert(keys_of_routes(routes@).take(routes@.len() as int) =~= keys_of_routes(routes@));
    }
    out
}

// ---------------------------------------------------------------------------
// Park
// ---------------------------------------------------------------------------

/// All of a clip.
pub open spec fn whole_piece(routes: Seq<Route>, t: Timed) -> Piece {
    Piece {
        route: t.index,
        start: 0,
        end: routes[t.index as int].points@.len() as usize,
        whole: true,
        ts: t.ts,
    }
}

/// A planned fragment of a clip.
pub open spec fn planned_token(t: Timed, p: PlannedSeg) -> Token<Piece> {
    if p.parked {
        Token::Boundary
    } else {
        Token::Clip(
            Piece {
                route: t.index,
                start: p.start,
                end: p.end,
                whole: false,
                ts: shifted(t.ts as int, sat_mul(p.offset_secs as int, 1000)) as i64,
            },
        )
    }
}

/// A clip with gear runs as fragments and Park boundaries. One that stays whole
/// takes part only if it has a point.
pub open spec fn clip_tokens(routes: Seq<Route>, t: Timed) -> Seq<Token<Piece>> {
    let r = routes[t.index as int];
    match clip_plan(r.gear_runs@, r.points@.len() as int) {
        Some(plan) => Seq::new(plan.len(), |i: int| planned_token(t, plan[i])),
        None => if r.points@.len() > 0 {
            seq![Token::Clip(whole_piece(routes, t))]
        } else {
            Seq::empty()
        },
    }
}

/// The first `n` clips of a group as fragments and Park boundaries. A clip
/// without gear runs stays whole.
pub open spec fn gear_tokens(routes: Seq<Route>, group: Seq<Timed>, n: int) -> Seq<Token<Piece>>
    decreases n,
{
    if n <= 0 {
        Seq::empty()
    } else if routes[group[n - 1].index as int].gear_runs@.len() == 0 {
        gear_tokens(routes, group, n - 1).push(Token::Clip(whole_piece(routes, group[n - 1])))
    } else {
        gear_tokens(routes, group, n - 1) + clip_tokens(routes, group[n - 1])
    }
}

/// A clip judged by its raw counts, or else by the gear of its points: more than
/// half of it is Park.
pub open spec fn mostly_parked(r: Route) -> bool {
    if r.raw_frame_count > 0 {
        flt(
            lit(PARK_MAJORITY_FRACTION),
            fdiv(from_int(r.raw_park_count as int), from_int(r.raw_frame_count as int)),
        )
    } else {
        r.gear_states@.len() > 0 && park_count(r.gear_states@, r.gear_states@.len() as int)
            > r.gear_states@.len() / 2
    }
}

/// Clips without gear runs: those mostly in Park are boundaries.
pub open spec fn legacy_tokens(routes: Seq<Route>, group: Seq<Timed>) -> Seq<Token<Piece>> {
    Seq::new(
        group.len(),
        |i: int|
            if mostly_parked(routes[group[i].index as int]) {
                Token::Boundary
            } else {
                Token::Clip(whole_piece(routes, group[i]))
            },
    )
}

pub open spec fn wholes(routes: Seq<Route>, group: Seq<Timed>) -> Seq<Piece> {
    Seq::new(group.len(), |i: int| whole_piece(routes, group[i]))
}

pub open spec fn any_gear_runs(routes: Seq<Route>, group: Seq<Timed>) -> bool {
    exists|i: int|
        0 <= i < group.len() && routes[(#[trigger] group[i]).index as int].gear_runs@.len() > 0
}

pub open spec fn any_gear_states(routes: Seq<Route>, group: Seq<Timed>) -> bool {
    exists|i: int|
        0 <= i < group.len() && routes[(#[trigger] group[i]).index as int].gear_states@.len() > 0
}

/// A group of clips without gear runs, cut at clips mostly in Park.
pub open spec fn legacy_split(routes: Seq<Route>, group: Seq<Timed>) -> Seq<Seq<Piece>> {
    if group.len() <= 1 || !any_gear_states(routes, group) {
        seq![wholes(routes, group)]
    } else {
        runs_of(legacy_tokens(routes, group))
    }
}

/// A group of clips cut at Park. Where gear runs show nothing but Park, the group
/// stays; where clips without gear runs are parked throughout, no group is left.
pub open spec fn gear_split(routes: Seq<Route>, group: Seq<Timed>) -> Seq<Seq<Piece>> {
    if group.len() == 0 {
        Seq::empty()
    } else if !any_gear_runs(routes, group) {
        legacy_split(routes, group)
    } else if runs_of(gear_tokens(routes, group, group.len() as int)).len() == 0 {
        seq![wholes(routes, group)]
    } else {
        runs_of(gear_tokens(routes, group, group.len() as int))
    }
}

/// The piece lies within its clip, and is all of it where the clip was not cut.
pub open spec fn piece_fits(routes: Seq<Route>, p: Piece) -> bool {
    &&& p.route < routes.len()
    &&& p.start <= p.end <= routes[p.route as int].points@.len()
    &&& p.whole ==> p.start == 0 && p.end == routes[p.route as int].points@.len()
}

pub open spec fn pieces_fit(routes: Seq<Route>, ps: Seq<Piece>) -> bool {
    forall|i: int| 0 <= i < ps.len() ==> piece_fits(routes, #[trigger] ps[i])
}

pub open spec fn tokens_fit(routes: Seq<Route>, ts: Seq<Token<Piece>>) -> bool {
    forall|i: int|
        0 <= i < ts.len() ==> ((#[trigger] ts[i]) matches Token::Clip(p) ==> piece_fits(routes, p))
}

fn whole_of(routes: &[Route], t: Timed) -> (p: Piece)
    requires
        t.index < routes@.len(),
    ensures
        p == whole_piece(routes@, t),
        piece_fits(routes@, p),
{
    Piece { route: t.index, start: 0, end: routes[t.index].points.len(), whole: true, ts: t.ts }
}

/// Cuts one clip at its Park gaps.
fn split_clip_at_park_gaps(routes: &[Route], t: Timed) -> (r: Vec<Token<Piece>>)
    requires
        t.index < routes@.len(),
        routes_fit(routes@),
    ensures
        r@ == clip_tokens(routes@, t),
        tokens_fit(routes@, r@),
{
    let clip: &Route = &routes[t.index];
    let mut out: Vec<Token<Piece>> = Vec::new();
    match plan_clip_at_park_gaps(clip.gear_runs.as_slice(), clip.points.len()) {
        Some(plan) => {
            let mut i: usize = 0;
            while i < plan.len()
                invariant
                    i <= plan.len(),
                    t.index < routes@.len(),
                    plan_within(plan@, routes@[t.index as int].points@.len() as int),
                    out@.len() == i,
                    forall|k: int| 0 <= k < i ==> #[trigger] out@[k] == planned_token(t, plan@[k]),
                    tokens_fit(routes@, out@),
                decreases plan.len() - i,
            {
                let p: PlannedSeg = plan[i];
                if p.parked {
                    out.push(Token::Boundary);
                } else {
                    out.push(
                        Token::Clip(
                            Piece {
                                route: t.index,
                                start: p.start,
                                end: p.end,
                                whole: false,
                                ts: move_by(t.ts, mul_held(p.offset_secs, 1000)),
                            },
                        ),
                    );
                }
                i = i + 1;
            }
            proof {
                assert(out@ =~= clip_tokens(routes@, t));
            }
        },
        None => {
            if clip.points.len() > 0 {
                out.push(Token::Clip(whole_of(routes, t)));
            }
            proof {
                assert(out@ =~= clip_tokens(routes@, t));
            }
        },
    }
    out
}

fn clip_is_mostly_parked_legacy(r: &Route) -> (b: bool)
    ensures
        b == mostly_parked(*r),
{
    if r.raw_frame_count > 0 {
        return F64::from_bits(PARK_MAJORITY_FRACTION).lt(
            F64::of_u32(r.raw_park_count).over(F64::of_u32(r.raw_frame_count)),
        );
    }
    let n: usize = r.gear_states.len();
    let mut parked: usize = 0;
    let mut i: usize = 0;
    while i < n
        invariant
            i <= n,
            n == r.gear_states@.len(),
            parked == park_count(r.gear_states@, i as int),
            parked <= i,
        decreases n - i,
    {
        if r.gear_states[i] == GEAR_PARK {
            parked = parked + 1;
        }
        i = i + 1;
    }
    n > 0 && parked > n / 2
}

fn all_wholes(routes: &[Route], group: &[Timed]) -> (r: Vec<Vec<Piece>>)
    requires
        indices_below(group@, routes@.len() as int),
    ensures
        views(r@) == seq![wholes(routes@, group@)],
        r@.len() == 1,
        r@[0]@.len() == group@.len(),
        forall|i: int| 0 <= i < r@.len() ==> pieces_fit(routes@, (#[trigger] r@[i])@),
{
    let mut ps: Vec<Piece> = Vec::new();
    let mut i: usize = 0;
    while i < group.len()
        invariant
            i <= group.len(),
            indices_below(group@, routes@.len() as int),
            ps@.len() == i,
            forall|k: int| 0 <= k < i ==> #[trigger] ps@[k] == whole_piece(routes@, group@[k]),
            pieces_fit(routes@, ps@),
        decreases group.len() - i,
    {
        ps.push(whole_of(routes, group[i]));
        i = i + 1;
    }
    proof {
        assert(ps@ =~= wholes(routes@, group@));
    }
    let mut out: Vec<Vec<Piece>> = Vec::new();
    out.push(ps);
    proof {
        assert(views(out@) =~= seq![wholes(routes@, group@)]);
    }
    out
}

fn cut(routes: &[Route], tokens: &[Token<Piece>]) -> (r: Vec<Vec<Piece>>)
    requires
        tokens_fit(routes@, tokens@),
    ensures
        views(r@) == runs_of(tokens@),
        forall|i: int|
            0 <= i < r@.len() ==> (#[trigger] r@[i])@.len() > 0 && pieces_fit(routes@, r@[i]@),
{
    let r: Vec<Vec<Piece>> = runs_between(tokens);
    proof {
        assert forall|i: int| 0 <= i < r@.len() implies (#[trigger] r@[i])@.len() > 0 && pieces_fit(
            routes@,
            r@[i]@,
        ) by {
            assert forall|j: int| 0 <= j < r@[i]@.len() implies piece_fits(
                routes@,
                #[trigger] r@[i]@[j],
            ) by {
                let k = choose|k: int|
                    0 <= k < tokens@.len() && tokens@[k] == Token::Clip(r@[i]@[j]);
                assert(tokens@[k] == Token::Clip(r@[i]@[j]));
            }
        }
    }
    r
}

fn split_by_gear_state_legacy(routes: &[Route], group: &[Timed]) -> (r: Vec<Vec<Piece>>)
    requires
        indices_below(group@, routes@.len() as int),
        group@.len() > 0,
    ensures
        views(r@) == legacy_split(routes@, group@),
        forall|i: int|
            0 <= i < r@.len() ==> (#[trigger] r@[i])@.len() > 0 && pieces_fit(routes@, r@[i]@),
{
    let mut gear: bool = false;
    let mut h: usize = 0;
    while h < group.len() && !gear
        invariant
            h <= group.len(),
            indices_below(group@, routes@.len() as int),
            gear ==> any_gear_states(routes@, group@),
            !gear ==> forall|i: int|
                0 <= i < h ==> routes@[(#[trigger] group@[i]).index as int].gear_states@.len() == 0,
        decreases group.len() - h,
    {
        if routes[group[h].index].gear_states.len() > 0 {
            proof {
                assert(routes@[group@[h as int].index as int].gear_states@.len() > 0);
            }
            gear = true;
        }
        h = h + 1;
    }
    if group.len() <= 1 || !gear {
        return all_wholes(routes, group);
    }
    let mut tokens: Vec<Token<Piece>> = Vec::new();
    let mut i: usize = 0;
    while i < group.len()
        invariant
            i <= group.len(),
            indices_below(group@, routes@.len() as int),
            tokens@ =~= legacy_tokens(routes@, group@).take(i as int),
            tokens_fit(routes@, tokens@),
        decreases group.len() - i,
    {
        let t: Timed = group[i];
        if clip_is_mostly_parked_legacy(&routes[t.index]) {
            tokens.push(Token::Boundary);
        } else {
            tokens.push(Token::Clip(whole_of(routes, t)));
        }
        i = i + 1;
    }
    proof {
        assert(legacy_tokens(routes@, group@).take(group@.len() as int) =~= legacy_tokens(
            routes@,
            group@,
        ));
    }
    cut(routes, &tokens)
}

/// Cuts a group of clips wherever the car stands in Park for two seconds or more.
pub fn split_by_gear_state(routes: &[Route], group: &[Timed]) -> (r: Vec<Vec<Piece>>)
    requires
        indices_below(group@, routes@.len() as int),
        routes_fit(routes@),
    ensures
        views(r@) == gear_split(routes@, group@),
        forall|i: int|
            0 <= i < r@.len() ==> (#[trigger] r@[i])@.len() > 0 && pieces_fit(routes@, r@[i]@),
{
    if group.len() == 0 {
        let r: Vec<Vec<Piece>> = Vec::new();
        proof {
            assert(views(r@) =~= gear_split(routes@, group@));
        }
        return r;
    }
    let mut runs: bool = false;
    let mut h: usize = 0;
    while h < group.len() && !runs
        invariant
            h <= group.len(),
            indices_below(group@, routes@.len() as int),
            runs ==> any_gear_runs(routes@, group@),
            !runs ==> forall|i: int|
                0 <= i < h ==> routes@[(#[trigger] group@[i]).index as int].gear_runs@.len() == 0,
        decreases group.len() - h,
    {
        if routes[group[h].index].gear_runs.len() > 0 {
            proof {
                assert(routes@[group@[h as int].index as int].gear_runs@.len() > 0);
            }
            runs = true;
        }
        h = h + 1;
    }
    if !runs {
        return split_by_gear_state_legacy(routes, group);
    }
    let mut tokens: Vec<Token<Piece>> = Vec::new();
    let mut i: usize = 0;
    proof {
        assert(tokens@ =~= gear_tokens(routes@, group@, 0));
    }
    while i < group.len()
        invariant
            i <= group.len(),
            routes_fit(routes@),
            indices_below(group@, routes@.len() as int),
            tokens@ == gear_tokens(routes@, group@, i as int),
            tokens_fit(routes@, tokens@),
        decreases group.len() - i,
    {
        let t: Timed = group[i];
        if routes[t.index].gear_runs.len() == 0 {
            tokens.push(Token::Clip(whole_of(routes, t)));
        } else {
            let mut parts: Vec<Token<Piece>> = split_clip_at_park_gaps(routes, t);
            tokens.append(&mut parts);
        }
        i = i + 1;
    }
    let r: Vec<Vec<Piece>> = cut(routes, &tokens);
    if r.len() == 0 {
        proof {
            assert(views(r@).len() == 0);
        }
        return all_wholes(routes, group);
    }
    proof {
        assert(views(r@).len() > 0);
    }
    r
}

// ---------------------------------------------------------------------------
// Drives
// ---------------------------------------------------------------------------

/// The first `n` groups, each cut by signature.
pub open spec fn all_by_signature<T: Sourced>(
    sigs: Seq<Option<Seq<char>>>,
    groups: Seq<Seq<T>>,
    n: int,
) -> Seq<Seq<T>>
    decreases n,
{
    if n <= 0 {
        Seq::empty()
    } else {
        all_by_signature(sigs, groups, n - 1) + by_signature(sigs, groups[n - 1])
    }
}

/// The drives of the first `n` stretches.
pub open spec fn drives_of(
    routes: Seq<Route>,
    sigs: Seq<Option<Seq<char>>>,
    line: Seq<Seq<Timed>>,
    n: int,
) -> Seq<Seq<Piece>>
    decreases n,
{
    if n <= 0 {
        Seq::empty()
    } else {
        let g = gear_split(routes, line[n - 1]);
        drives_of(routes, sigs, line, n - 1) + all_by_signature(sigs, g, g.len() as int)
    }
}

pub open spec fn route_signatures(routes: Seq<Route>) -> Seq<Option<Seq<char>>> {
    Seq::new(
        routes.len(),
        |i: int|
            match routes[i].external_signature {
                Some(s) => Some(s@),
                None => None,
            },
    )
}

/// The drives: clips in time, cut at pauses, then at Park, then by signature.
pub open spec fn drives(routes: Seq<Route>) -> Seq<Seq<Piece>> {
    let line = time_line(keys_of_routes(routes));
    let s = stretches(line, line.len() as int);
    drives_of(routes, route_signatures(routes), s, s.len() as int)
}

/// Appends the signature groups of `groups` to `out`.
pub fn append_by_signature<T: Sourced>(
    sigs: &[Option<&str>],
    groups: &Vec<Vec<T>>,
    out: &mut Vec<Vec<T>>,
)
    requires
        forall|i: int|
            0 <= i < groups@.len() ==> (#[trigger] groups@[i])@.len() > 0 && sources_below(
                groups@[i]@,
                sigs@.len() as int,
            ),
        forall|i: int|
            0 <= i < old(out)@.len() ==> (#[trigger] old(out)@[i])@.len() > 0 && sources_below(
                old(out)@[i]@,
                sigs@.len() as int,
            ),
    ensures
        views(final(out)@) == views(old(out)@) + all_by_signature(
            sig_views(sigs@),
            views(groups@),
            groups@.len() as int,
        ),
        forall|i: int|
            0 <= i < final(out)@.len() ==> (#[trigger] final(out)@[i])@.len() > 0 && sources_below(
                final(out)@[i]@,
                sigs@.len() as int,
            ),
{
    let ghost base = views(out@);
    let ghost sv = sig_views(sigs@);
    let mut i: usize = 0;
    proof {
        assert(views(out@) =~= base + all_by_signature(sv, views(groups@), 0));
    }
    while i < groups.len()
        invariant
            i <= groups.len(),
            sv == sig_views(sigs@),
            views(out@) == base + all_by_signature(sv, views(groups@), i as int),
            forall|i: int|
                0 <= i < groups@.len() ==> (#[trigger] groups@[i])@.len() > 0 && sources_below(
                    groups@[i]@,
                    sigs@.len() as int,
                ),
            forall|i: int|
                0 <= i < out@.len() ==> (#[trigger] out@[i])@.len() > 0 && sources_below(
                    out@[i]@,
                    sigs@.len() as int,
                ),
        decreases groups.len() - i,
    {
        proof {
            assert(groups@[i as int]@.len() > 0);
        }
        let mut parts: Vec<Vec<T>> = split_by_external_signature(sigs, &groups[i]);
        let ghost before = views(out@);
        let ghost add = views(parts@);
        out.append(&mut parts);
        proof {
            assert(views(out@) =~= before + add);
            assert(views(groups@)[i as int] == groups@[i as int]@);
            assert(before + add =~= base + (all_by_signature(sv, views(groups@), i as int) + add));
        }
        i = i + 1;
    }
}

fn signatures_of<'a>(routes: &'a [Route]) -> (r: Vec<Option<&'a str>>)
    ensures
        sig_views(r@) == route_signatures(routes@),
{
    let mut out: Vec<Option<&'a str>> = Vec::new();
    let mut i: usize = 0;
    while i < routes.len()
        invariant
            i <= routes.len(),
            sig_views(out@) =~= route_signatures(routes@).take(i as int),
        decreases routes.len() - i,
    {
        let s: Option<&'a str> = match &routes[i].external_signature {
            Some(t) => Some(t.as_str()),
            None => None,
        };
        let ghost before = sig_views(out@);
        out.push(s);
        proof {
            assert(sig_views(out@) =~= before.push(route_signatures(routes@)[i as int]));
        }
        i = i + 1;
    }
    proof {
        assert(route_signatures(routes@).take(routes@.len() as int) =~= route_signatures(routes@));
    }
    out
}

/// Groups stored clips into drives. Members of a drive are named by the position
/// of their clip in `routes`.
pub fn group_clips(routes: &[Route]) -> (r: Vec<Vec<Piece>>)
    requires
        routes_fit(routes@),
    ensures
        views(r@) == drives(routes@),
        forall|i: int|
            0 <= i < r@.len() ==> (#[trigger] r@[i])@.len() > 0 && pieces_fit(routes@, r@[i]@),
{
    let keys: Vec<ClipKey> = route_keys(routes);
    let line: Vec<Timed> = build_time_line(&keys);
    let parts: Vec<Vec<Timed>> = split_at_pauses(&line);
    let sigs: Vec<Option<&str>> = signatures_of(routes);
    let ghost sv = route_signatures(routes@);
    let ghost pv = views(parts@);
    proof {
        assert(sig_views(sigs@).len() == sigs@.len());
    }
    let mut out: Vec<Vec<Piece>> = Vec::new();
    let mut i: usize = 0;
    proof {
        assert(views(out@) =~= drives_of(routes@, sv, pv, 0));
    }
    while i < parts.len()
        invariant
            i <= parts.len(),
            routes_fit(routes@),
            sv == route_signatures(routes@),
            sig_views(sigs@) == sv,
            sigs@.len() == routes@.len(),
            pv == views(parts@),
            indices_below(line@, routes@.len() as int),
            forall|i: int, n: int|
                0 <= i < parts@.len() && #[trigger] indices_below(line@, n) ==> indices_below(
                    (#[trigger] parts@[i])@,
                    n,
                ),
            views(out@) == drives_of(routes@, sv, pv, i as int),
            forall|i: int|
                0 <= i < out@.len() ==> (#[trigger] out@[i])@.len() > 0 && sources_below(
                    out@[i]@,
                    sigs@.len() as int,
                ) && pieces_fit(routes@, out@[i]@),
        decreases parts.len() - i,
    {
        proof {
            assert(indices_below(parts@[i as int]@, routes@.len() as int));
        }
        let g: Vec<Vec<Piece>> = split_by_gear_state(routes, parts[i].as_slice());
        proof {
            assert forall|k: int| 0 <= k < g@.len() implies (#[trigger] g@[k])@.len() > 0
                && sources_below(g@[k]@, sigs@.len() as int) by {
                assert forall|j: int| 0 <= j < g@[k]@.len() implies (
                #[trigger] g@[k]@[j]).spec_source() < sigs@.len() by {
                    assert(piece_fits(routes@, g@[k]@[j]));
                }
            }
        }
        let ghost before = views(out@);
        let ghost old_out = out@;
        append_by_signature(&sigs, &g, &mut out);
        proof {
            assert(pv[i as int] == parts@[i as int]@);
            lemma_signature_members(sv, views(g@), g@.len() as int);
            let add = all_by_signature(sv, views(g@), g@.len() as int);
            assert(views(out@) == before + add);
            assert(views(out@).len() == out@.len());
            assert(before.len() == old_out.len());
            assert forall|k: int| 0 <= k < out@.len() implies pieces_fit(
                routes@,
                (#[trigger] out@[k])@,
            ) by {
                assert(views(out@)[k] == out@[k]@);
                if k < before.len() {
                    assert(before[k] == old_out[k]@);
                    assert(out@[k]@ == old_out[k]@);
                } else {
                    let q = k - before.len();
                    assert(add[q] == out@[k]@);
                    assert forall|j: int| 0 <= j < out@[k]@.len() implies piece_fits(
                        routes@,
                        #[trigger] out@[k]@[j],
                    ) by {
                        assert(member_of_some(views(g@), add[q][j]));
                        let (a, b) = choose|a: int, b: int|
                            0 <= a < views(g@).len() && 0 <= b < views(g@)[a].len()
                                && #[trigger] views(g@)[a][b] == add[q][j];
                        assert(g@[a]@[b] == add[q][j]);
                        assert(piece_fits(routes@, g@[a]@[b]));
                    }
                }
            }
        }
        i = i + 1;
    }
    out
}

/// `x` is a member of one of `groups`.
pub open spec fn member_of_some<T>(groups: Seq<Seq<T>>, x: T) -> bool {
    exists|a: int, b: int|
        0 <= a < groups.len() && 0 <= b < groups[a].len() && #[trigger] groups[a][b] == x
}

proof fn lemma_unsigned_members<T: Sourced>(sigs: Seq<Option<Seq<char>>>, group: Seq<T>, n: int)
    requires
        0 <= n <= group.len(),
    ensures
        forall|j: int|
            0 <= j < unsigned(sigs, group, n).len() ==> group.contains(
                #[trigger] unsigned(sigs, group, n)[j],
            ),
    decreases n,
{
    if n > 0 {
        lemma_unsigned_members(sigs, group, n - 1);
        assert(group.contains(group[n - 1]));
        let u = unsigned(sigs, group, n - 1);
        assert forall|j: int| 0 <= j < unsigned(sigs, group, n).len() implies group.contains(
            #[trigger] unsigned(sigs, group, n)[j],
        ) by {
            if j < u.len() {
                assert(group.contains(u[j]));
            }
        }
    }
}

proof fn lemma_bucket_of<T: Sourced>(
    sigs: Seq<Option<Seq<char>>>,
    buckets: Seq<Seq<T>>,
    sig: Option<Seq<char>>,
    k: int,
)
    requires
        0 <= k <= buckets.len(),
    ensures
        k <= bucket_of(sigs, buckets, sig, k) <= buckets.len(),
    decreases buckets.len() - k,
{
    if k < buckets.len() && signature(sigs, buckets[k][0]) != sig {
        lemma_bucket_of(sigs, buckets, sig, k + 1);
    }
}

proof fn lemma_bucket_members<T: Sourced>(sigs: Seq<Option<Seq<char>>>, group: Seq<T>, n: int)
    requires
        0 <= n <= group.len(),
    ensures
        forall|k: int, j: int|
            0 <= k < buckets(sigs, group, n).len() && 0 <= j < buckets(sigs, group, n)[k].len()
                ==> group.contains(#[trigger] buckets(sigs, group, n)[k][j]),
    decreases n,
{
    if n > 0 {
        lemma_bucket_members(sigs, group, n - 1);
        assert(group.contains(group[n - 1]));
        let b = buckets(sigs, group, n - 1);
        let c = buckets(sigs, group, n);
        let at = bucket_of(sigs, b, signature(sigs, group[n - 1]), 0);
        lemma_bucket_of(sigs, b, signature(sigs, group[n - 1]), 0);
        assert forall|k: int, j: int| 0 <= k < c.len() && 0 <= j < c[k].len() implies group.contains(
            #[trigger] c[k][j],
        ) by {
            if signature(sigs, group[n - 1]) is None {
                assert(group.contains(b[k][j]));
            } else if k < b.len() && j < b[k].len() {
                assert(c[k][j] == b[k][j]);
                assert(group.contains(b[k][j]));
            } else {
                assert(c[k][j] == group[n - 1]);
            }
        }
    }
}

pub proof fn lemma_signature_members<T: Sourced>(
    sigs: Seq<Option<Seq<char>>>,
    groups: Seq<Seq<T>>,
    n: int,
)
    requires
        0 <= n <= groups.len(),
    ensures
        forall|k: int, j: int|
            0 <= k < all_by_signature(sigs, groups, n).len() && 0 <= j < all_by_signature(
                sigs,
                groups,
                n,
            )[k].len() ==> member_of_some(
                groups,
                #[trigger] all_by_signature(sigs, groups, n)[k][j],
            ),
    decreases n,
{
    if n > 0 {
        lemma_signature_members(sigs, groups, n - 1);
        let g = groups[n - 1];
        lemma_unsigned_members(sigs, g, g.len() as int);
        lemma_bucket_members(sigs, g, g.len() as int);
        let head = all_by_signature(sigs, groups, n - 1);
        let tail = by_signature(sigs, g);
        let r = all_by_signature(sigs, groups, n);
        assert forall|k: int, j: int| 0 <= k < r.len() && 0 <= j < r[k].len() implies member_of_some(
            groups,
            #[trigger] r[k][j],
        ) by {
            if k < head.len() {
                assert(r[k] == head[k]);
                assert(member_of_some(groups, head[k][j]));
            } else {
                let q = k - head.len();
                assert(r[k] == tail[q]);
                assert(g.contains(tail[q][j])) by {
                    if g.len() <= 1 || !any_signed(sigs, g) {
                        assert(tail[q] == g);
                    } else if unsigned(sigs, g, g.len() as int).len() > 0 {
                        if q == 0 {
                            assert(tail[q] == unsigned(sigs, g, g.len() as int));
                        } else {
                            assert(tail[q] == buckets(sigs, g, g.len() as int)[q - 1]);
                        }
                    }
                }
                let b = choose|b: int| 0 <= b < g.len() && g[b] == tail[q][j];
                assert(groups[n - 1][b] == r[k][j]);
            }
        }
    }
}

} // verus!
