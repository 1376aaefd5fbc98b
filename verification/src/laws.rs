//! What holds of every list of drives.

use crate::gapfill::{gap_fill, law_parked_clips_stay_out};
use crate::grouper::{
    all_by_signature, clip_tokens, drives, drives_of, gear_split, gear_tokens, keys_of_routes,
    legacy_tokens, lemma_signature_members, member_of_some, route_drives, route_signatures, wholes,
};
use crate::split::{
    Sourced, Token, any_signed, bucket_of, buckets, by_signature, closed_runs, open_run, runs_of,
    signature, unsigned,
};
use crate::subclips::{
    all_sub_tokens, keys_of_summaries, legacy_sub_tokens, sub_drives, sub_drives_of, sub_split,
    sub_tokens, summary_drives, summary_signatures, whole_subs,
};
use crate::timeline::{
    Key, Timed, candidates, events, in_time, is_event, is_recent, law_stretches_keep_every_clip,
    pause_before, recents, stretches, time_line, timed, times, with_chosen,
};
use crate::types::{Route, RouteSummary};
use vstd::prelude::*;

verus! {

// ---------------------------------------------------------------------------
// Signatures
// ---------------------------------------------------------------------------

/// All members carry one signature, or none carries any.
pub open spec fn shares_signature<T: Sourced>(sigs: Seq<Option<Seq<char>>>, g: Seq<T>) -> bool {
    forall|i: int, j: int|
        0 <= i < g.len() && 0 <= j < g.len() ==> signature(sigs, #[trigger] g[i]) == signature(
            sigs,
            #[trigger] g[j],
        )
}

proof fn lemma_unsigned_share<T: Sourced>(sigs: Seq<Option<Seq<char>>>, group: Seq<T>, n: int)
    requires
        0 <= n <= group.len(),
    ensures
        forall|i: int|
            0 <= i < unsigned(sigs, group, n).len() ==> signature(
                sigs,
                #[trigger] unsigned(sigs, group, n)[i],
            ) is None,
    decreases n,
{
    if n > 0 {
        lemma_unsigned_share(sigs, group, n - 1);
    }
}

proof fn lemma_found_bucket<T: Sourced>(
    sigs: Seq<Option<Seq<char>>>,
    b: Seq<Seq<T>>,
    sig: Option<Seq<char>>,
    k: int,
)
    requires
        0 <= k <= b.len(),
    ensures
        k <= bucket_of(sigs, b, sig, k) <= b.len(),
        bucket_of(sigs, b, sig, k) < b.len() ==> signature(
            sigs,
            b[bucket_of(sigs, b, sig, k)][0],
        ) == sig,
    decreases b.len() - k,
{
    if k < b.len() && signature(sigs, b[k][0]) != sig {
        lemma_found_bucket(sigs, b, sig, k + 1);
    }
}

proof fn lemma_buckets_share<T: Sourced>(sigs: Seq<Option<Seq<char>>>, group: Seq<T>, n: int)
    requires
        0 <= n <= group.len(),
    ensures
        forall|k: int|
            0 <= k < buckets(sigs, group, n).len() ==> (#[trigger] buckets(sigs, group, n)[k]).len()
                > 0 && shares_signature(sigs, buckets(sigs, group, n)[k]),
    decreases n,
{
    if n > 0 {
        lemma_buckets_share(sigs, group, n - 1);
        let x = group[n - 1];
        let b = buckets(sigs, group, n - 1);
        let c = buckets(sigs, group, n);
        let at = bucket_of(sigs, b, signature(sigs, x), 0);
        lemma_found_bucket(sigs, b, signature(sigs, x), 0);
        assert forall|k: int| 0 <= k < c.len() implies (#[trigger] c[k]).len() > 0
            && shares_signature(sigs, c[k]) by {
            if signature(sigs, x) is None {
                assert(c[k] == b[k]);
            } else if at < b.len() {
                if k == at {
                    assert(c[k] == b[k].push(x));
                    assert forall|i: int, j: int| 0 <= i < c[k].len() && 0 <= j < c[k].len() implies signature(
                        sigs,
                        #[trigger] c[k][i],
                    ) == signature(sigs, #[trigger] c[k][j]) by {
                        assert(signature(sigs, b[k][0]) == signature(sigs, x));
                        if i < b[k].len() {
                            assert(c[k][i] == b[k][i]);
                            assert(signature(sigs, b[k][i]) == signature(sigs, b[k][0]));
                        }
                        if j < b[k].len() {
                            assert(c[k][j] == b[k][j]);
                            assert(signature(sigs, b[k][j]) == signature(sigs, b[k][0]));
                        }
                    }
                } else {
                    assert(c[k] == b[k]);
                }
            } else if k < b.len() {
                assert(c[k] == b[k]);
            } else {
                assert(c[k] =~= seq![x]);
            }
        }
    }
}

proof fn lemma_split_shares<T: Sourced>(sigs: Seq<Option<Seq<char>>>, group: Seq<T>, k: int)
    requires
        0 <= k < by_signature(sigs, group).len(),
    ensures
        shares_signature(sigs, by_signature(sigs, group)[k]),
{
    let n = group.len() as int;
    lemma_unsigned_share(sigs, group, n);
    lemma_buckets_share(sigs, group, n);
    let r = by_signature(sigs, group);
    if n <= 1 || !any_signed(sigs, group) {
        assert(r[k] == group);
        if n > 1 {
            assert forall|i: int| 0 <= i < n implies signature(sigs, #[trigger] group[i]) is None by {}
        }
    } else {
        let u = unsigned(sigs, group, n);
        if u.len() > 0 && k == 0 {
            assert(r[k] == u);
        } else if u.len() > 0 {
            assert(r[k] == buckets(sigs, group, n)[k - 1]);
        } else {
            assert(r[k] == buckets(sigs, group, n)[k]);
        }
    }
}

proof fn lemma_splits_share<T: Sourced>(
    sigs: Seq<Option<Seq<char>>>,
    groups: Seq<Seq<T>>,
    n: int,
    k: int,
)
    requires
        0 <= n <= groups.len(),
        0 <= k < all_by_signature(sigs, groups, n).len(),
    ensures
        shares_signature(sigs, all_by_signature(sigs, groups, n)[k]),
    decreases n,
{
    if n > 0 {
        let head = all_by_signature(sigs, groups, n - 1);
        if k < head.len() {
            lemma_splits_share(sigs, groups, n - 1, k);
        } else {
            lemma_split_shares(sigs, groups[n - 1], k - head.len());
        }
    }
}

proof fn lemma_drives_share(
    routes: Seq<Route>,
    sigs: Seq<Option<Seq<char>>>,
    line: Seq<Seq<Timed>>,
    n: int,
    k: int,
)
    requires
        0 <= n <= line.len(),
        0 <= k < drives_of(routes, sigs, line, n).len(),
    ensures
        shares_signature(sigs, drives_of(routes, sigs, line, n)[k]),
    decreases n,
{
    if n > 0 {
        let head = drives_of(routes, sigs, line, n - 1);
        let g = gear_split(routes, line[n - 1]);
        if k < head.len() {
            lemma_drives_share(routes, sigs, line, n - 1, k);
        } else {
            lemma_splits_share(sigs, g, g.len() as int, k - head.len());
        }
    }
}

proof fn lemma_sub_drives_share(
    s: Seq<RouteSummary>,
    sigs: Seq<Option<Seq<char>>>,
    line: Seq<Seq<Timed>>,
    n: int,
    k: int,
)
    requires
        0 <= n <= line.len(),
        0 <= k < sub_drives_of(s, sigs, line, n).len(),
    ensures
        shares_signature(sigs, sub_drives_of(s, sigs, line, n)[k]),
    decreases n,
{
    if n > 0 {
        let head = sub_drives_of(s, sigs, line, n - 1);
        let g = sub_split(s, line[n - 1]);
        if k < head.len() {
            lemma_sub_drives_share(s, sigs, line, n - 1, k);
        } else {
            lemma_splits_share(sigs, g, g.len() as int, k - head.len());
        }
    }
}

/// No drive mixes imports: its clips carry one signature, or none any.
pub proof fn law_drives_share_a_signature(routes: Seq<Route>, k: int)
    requires
        0 <= k < drives(routes).len(),
    ensures
        shares_signature(route_signatures(routes), drives(routes)[k]),
{
    let line = time_line(keys_of_routes(routes));
    let s = stretches(line, line.len() as int);
    lemma_drives_share(routes, route_signatures(routes), s, s.len() as int, k);
}

/// The same of the drives of the list.
pub proof fn law_listed_drives_share_a_signature(s: Seq<RouteSummary>, k: int)
    requires
        0 <= k < sub_drives(s).len(),
    ensures
        shares_signature(summary_signatures(s), sub_drives(s)[k]),
{
    let line = time_line(keys_of_summaries(s));
    let st = stretches(line, line.len() as int);
    lemma_sub_drives_share(s, summary_signatures(s), st, st.len() as int, k);
}

// ---------------------------------------------------------------------------
// Where the members come from
// ---------------------------------------------------------------------------

/// Some clip of the group is the one at position `source`.
pub open spec fn stems(group: Seq<Timed>, source: usize) -> bool {
    exists|i: int| 0 <= i < group.len() && (#[trigger] group[i]).index == source
}

spec fn tokens_stem<T: Sourced>(group: Seq<Timed>, tokens: Seq<Token<T>>) -> bool {
    forall|i: int|
        0 <= i < tokens.len() ==> ((#[trigger] tokens[i]) matches Token::Clip(x) ==> stems(
            group,
            x.spec_source(),
        ))
}

spec fn members_stem<T: Sourced>(group: Seq<Timed>, g: Seq<T>) -> bool {
    forall|i: int| 0 <= i < g.len() ==> stems(group, (#[trigger] g[i]).spec_source())
}

spec fn groups_stem<T: Sourced>(group: Seq<Timed>, gs: Seq<Seq<T>>) -> bool {
    forall|k: int| 0 <= k < gs.len() ==> members_stem(group, #[trigger] gs[k])
}

proof fn lemma_runs_stem<T: Sourced>(group: Seq<Timed>, tokens: Seq<Token<T>>, n: int)
    requires
        0 <= n <= tokens.len(),
        tokens_stem(group, tokens),
    ensures
        members_stem(group, open_run(tokens, n)),
        groups_stem(group, closed_runs(tokens, n)),
    decreases n,
{
    if n > 0 {
        lemma_runs_stem(group, tokens, n - 1);
        let t = tokens[n - 1];
        let o = open_run(tokens, n - 1);
        let c = closed_runs(tokens, n - 1);
        match t {
            Token::Clip(x) => {
                assert(stems(group, x.spec_source()));
                let p = o.push(x);
                assert forall|i: int| 0 <= i < p.len() implies stems(
                    group,
                    (#[trigger] p[i]).spec_source(),
                ) by {
                    if i < o.len() {
                        assert(stems(group, o[i].spec_source()));
                    }
                }
            },
            Token::Boundary => {
                let d = closed_runs(tokens, n);
                assert forall|k: int| 0 <= k < d.len() implies members_stem(
                    group,
                    #[trigger] d[k],
                ) by {
                    if k < c.len() {
                        assert(d[k] == c[k]);
                    } else {
                        assert(d[k] == o);
                    }
                }
            },
        }
    }
}

proof fn lemma_cut_stems<T: Sourced>(group: Seq<Timed>, tokens: Seq<Token<T>>)
    requires
        tokens_stem(group, tokens),
    ensures
        groups_stem(group, runs_of(tokens)),
{
    let n = tokens.len() as int;
    lemma_runs_stem(group, tokens, n);
    let c = closed_runs(tokens, n);
    let r = runs_of(tokens);
    assert forall|k: int| 0 <= k < r.len() implies members_stem(group, #[trigger] r[k]) by {
        if k < c.len() {
            assert(r[k] == c[k]);
        }
    }
}

proof fn lemma_gear_tokens_stem(routes: Seq<Route>, group: Seq<Timed>, n: int)
    requires
        0 <= n <= group.len(),
    ensures
        tokens_stem(group, gear_tokens(routes, group, n)),
    decreases n,
{
    if n > 0 {
        lemma_gear_tokens_stem(routes, group, n - 1);
        let before = gear_tokens(routes, group, n - 1);
        let after = gear_tokens(routes, group, n);
        let t = group[n - 1];
        assert(stems(group, t.index));
        assert forall|i: int| 0 <= i < after.len() implies ((#[trigger] after[i]) matches Token::Clip(
            x,
        ) ==> stems(group, x.spec_source())) by {
            if i < before.len() {
                assert(after[i] == before[i]);
            } else if routes[t.index as int].gear_runs@.len() > 0 {
                assert(after[i] == clip_tokens(routes, t)[i - before.len()]);
            }
        }
    }
}

proof fn lemma_gear_split_stems(routes: Seq<Route>, group: Seq<Timed>)
    ensures
        groups_stem(group, gear_split(routes, group)),
{
    let w = wholes(routes, group);
    assert forall|i: int| 0 <= i < w.len() implies stems(group, (#[trigger] w[i]).spec_source()) by {
        assert(group[i].index == w[i].spec_source());
    }
    let legacy = legacy_tokens(routes, group);
    assert forall|i: int| 0 <= i < legacy.len() implies ((#[trigger] legacy[i]) matches Token::Clip(
        x,
    ) ==> stems(group, x.spec_source())) by {
        assert(group[i].index == group[i].index);
    }
    lemma_cut_stems(group, legacy);
    lemma_gear_tokens_stem(routes, group, group.len() as int);
    lemma_cut_stems(group, gear_tokens(routes, group, group.len() as int));
}

proof fn lemma_sub_tokens_stem(s: Seq<RouteSummary>, group: Seq<Timed>, n: int)
    requires
        0 <= n <= group.len(),
    ensures
        tokens_stem(group, all_sub_tokens(s, group, n)),
    decreases n,
{
    if n > 0 {
        lemma_sub_tokens_stem(s, group, n - 1);
        let before = all_sub_tokens(s, group, n - 1);
        let after = all_sub_tokens(s, group, n);
        let t = group[n - 1];
        assert(stems(group, t.index));
        assert forall|i: int| 0 <= i < after.len() implies ((#[trigger] after[i]) matches Token::Clip(
            x,
        ) ==> stems(group, x.spec_source())) by {
            if i < before.len() {
                assert(after[i] == before[i]);
            } else {
                assert(after[i] == sub_tokens(s, t)[i - before.len()]);
            }
        }
    }
}

proof fn lemma_sub_split_stems(s: Seq<RouteSummary>, group: Seq<Timed>)
    ensures
        groups_stem(group, sub_split(s, group)),
{
    let w = whole_subs(s, group);
    assert forall|i: int| 0 <= i < w.len() implies stems(group, (#[trigger] w[i]).spec_source()) by {
        assert(group[i].index == w[i].spec_source());
    }
    let legacy = legacy_sub_tokens(s, group);
    assert forall|i: int| 0 <= i < legacy.len() implies ((#[trigger] legacy[i]) matches Token::Clip(
        x,
    ) ==> stems(group, x.spec_source())) by {
        assert(group[i].index == group[i].index);
    }
    lemma_cut_stems(group, legacy);
    lemma_sub_tokens_stem(s, group, group.len() as int);
    lemma_cut_stems(group, all_sub_tokens(s, group, group.len() as int));
}

proof fn lemma_signed_stem<T: Sourced>(
    group: Seq<Timed>,
    sigs: Seq<Option<Seq<char>>>,
    gs: Seq<Seq<T>>,
)
    requires
        groups_stem(group, gs),
    ensures
        groups_stem(group, all_by_signature(sigs, gs, gs.len() as int)),
{
    lemma_signature_members(sigs, gs, gs.len() as int);
    let r = all_by_signature(sigs, gs, gs.len() as int);
    assert forall|k: int| 0 <= k < r.len() implies members_stem(group, #[trigger] r[k]) by {
        assert forall|j: int| 0 <= j < r[k].len() implies stems(
            group,
            (#[trigger] r[k][j]).spec_source(),
        ) by {
            assert(member_of_some(gs, r[k][j]));
            let (a, b) = choose|a: int, b: int|
                0 <= a < gs.len() && 0 <= b < gs[a].len() && #[trigger] gs[a][b] == r[k][j];
            assert(members_stem(group, gs[a]));
            assert(stems(group, gs[a][b].spec_source()));
        }
    }
}

proof fn lemma_stretch_members(line: Seq<Timed>, n: int, g: int, i: int)
    requires
        0 <= n <= line.len(),
        0 <= g < stretches(line, n).len(),
        0 <= i < stretches(line, n)[g].len(),
    ensures
        line.contains(stretches(line, n)[g][i]),
    decreases n,
{
    if n > 0 {
        let before = stretches(line, n - 1);
        assert(line.contains(line[n - 1]));
        if n == 1 || pause_before(line, n - 1) {
            if g < before.len() {
                lemma_stretch_members(line, n - 1, g, i);
            }
        } else {
            law_stretches_keep_every_clip(line, n - 1);
            if g < before.len() - 1 || i < before.last().len() {
                lemma_stretch_members(line, n - 1, g, i);
            }
        }
    }
}

/// What stems from a part of the line stems from the line.
proof fn lemma_stems_from_line(line: Seq<Timed>, g: int, source: usize)
    requires
        0 <= g < stretches(line, line.len() as int).len(),
        stems(stretches(line, line.len() as int)[g], source),
    ensures
        stems(line, source),
{
    let part = stretches(line, line.len() as int)[g];
    let i = choose|i: int| 0 <= i < part.len() && (#[trigger] part[i]).index == source;
    lemma_stretch_members(line, line.len() as int, g, i);
    let k = choose|k: int| 0 <= k < line.len() && line[k] == part[i];
    assert(line[k].index == source);
}

proof fn lemma_drives_stem(routes: Seq<Route>, line: Seq<Timed>, n: int, k: int, j: int)
    requires
        0 <= n <= stretches(line, line.len() as int).len(),
        ({
            let s = stretches(line, line.len() as int);
            let d = drives_of(routes, route_signatures(routes), s, n);
            0 <= k < d.len() && 0 <= j < d[k].len()
        }),
    ensures
        ({
            let s = stretches(line, line.len() as int);
            let d = drives_of(routes, route_signatures(routes), s, n);
            stems(line, d[k][j].route)
        }),
    decreases n,
{
    let s = stretches(line, line.len() as int);
    let sigs = route_signatures(routes);
    if n > 0 {
        let head = drives_of(routes, sigs, s, n - 1);
        if k < head.len() {
            lemma_drives_stem(routes, line, n - 1, k, j);
        } else {
            let g = gear_split(routes, s[n - 1]);
            lemma_gear_split_stems(routes, s[n - 1]);
            lemma_signed_stem(s[n - 1], sigs, g);
            let part = all_by_signature(sigs, g, g.len() as int)[k - head.len()];
            assert(members_stem(s[n - 1], part));
            assert(stems(s[n - 1], part[j].spec_source()));
            lemma_stems_from_line(line, n - 1, part[j].route);
        }
    }
}

proof fn lemma_sub_drives_stem(s: Seq<RouteSummary>, line: Seq<Timed>, n: int, k: int, j: int)
    requires
        0 <= n <= stretches(line, line.len() as int).len(),
        ({
            let st = stretches(line, line.len() as int);
            let d = sub_drives_of(s, summary_signatures(s), st, n);
            0 <= k < d.len() && 0 <= j < d[k].len()
        }),
    ensures
        ({
            let st = stretches(line, line.len() as int);
            let d = sub_drives_of(s, summary_signatures(s), st, n);
            stems(line, d[k][j].summary)
        }),
    decreases n,
{
    let st = stretches(line, line.len() as int);
    let sigs = summary_signatures(s);
    if n > 0 {
        let head = sub_drives_of(s, sigs, st, n - 1);
        if k < head.len() {
            lemma_sub_drives_stem(s, line, n - 1, k, j);
        } else {
            let g = sub_split(s, st[n - 1]);
            lemma_sub_split_stems(s, st[n - 1]);
            lemma_signed_stem(st[n - 1], sigs, g);
            let part = all_by_signature(sigs, g, g.len() as int)[k - head.len()];
            assert(members_stem(st[n - 1], part));
            assert(stems(st[n - 1], part[j].spec_source()));
            lemma_stems_from_line(line, n - 1, part[j].summary);
        }
    }
}

// ---------------------------------------------------------------------------
// Which clips take part
// ---------------------------------------------------------------------------

/// Clip `i` may take part: it is the first of its path, has a time in its name,
/// and is no event clip unless its telemetry shows driving.
pub open spec fn may_take_part(keys: Seq<Key>, i: int) -> bool {
    is_recent(keys, i) || (is_event(keys, i) && keys[i].driving)
}

spec fn all_may(keys: Seq<Key>, line: Seq<Timed>) -> bool {
    forall|i: int|
        0 <= i < line.len() ==> (#[trigger] line[i]).index < keys.len() && may_take_part(
            keys,
            line[i].index as int,
        )
}

proof fn lemma_in_time_may(keys: Seq<Key>, line: Seq<Timed>, x: Timed)
    requires
        all_may(keys, line),
        x.index < keys.len(),
        may_take_part(keys, x.index as int),
    ensures
        all_may(keys, in_time(line, x)),
    decreases line.len(),
{
    if line.len() == 0 || line.last().ts <= x.ts {
    } else {
        let head = line.drop_last();
        lemma_in_time_may(keys, head, x);
        assert(line[line.len() - 1] == line.last());
        let r = in_time(line, x);
        let t = in_time(head, x);
        assert forall|i: int| 0 <= i < r.len() implies (#[trigger] r[i]).index < keys.len()
            && may_take_part(keys, r[i].index as int) by {
            if i < t.len() {
                assert(r[i] == t[i]);
            }
        }
    }
}

proof fn lemma_recents_may(keys: Seq<Key>, n: int)
    requires
        0 <= n <= keys.len() <= usize::MAX,
    ensures
        all_may(keys, recents(keys, n)),
    decreases n,
{
    if n > 0 {
        lemma_recents_may(keys, n - 1);
        if is_recent(keys, n - 1) {
            lemma_in_time_may(keys, recents(keys, n - 1), timed(keys, n - 1));
        }
    }
}

proof fn lemma_events_are_events(keys: Seq<Key>, n: int)
    requires
        0 <= n <= keys.len() <= usize::MAX,
    ensures
        events(keys, n).len() <= n,
        forall|i: int|
            0 <= i < events(keys, n).len() ==> (#[trigger] events(keys, n)[i]).index < keys.len()
                && is_event(keys, events(keys, n)[i].index as int),
    decreases n,
{
    if n > 0 {
        lemma_events_are_events(keys, n - 1);
    }
}

proof fn lemma_chosen_may(
    keys: Seq<Key>,
    line: Seq<Timed>,
    ev: Seq<Timed>,
    chosen: Seq<usize>,
    n: int,
)
    requires
        0 <= n <= chosen.len(),
        all_may(keys, line),
        forall|i: int|
            0 <= i < chosen.len() ==> (#[trigger] chosen[i]) < ev.len() && ev[chosen[i] as int].index
                < keys.len() && may_take_part(keys, ev[chosen[i] as int].index as int),
    ensures
        all_may(keys, with_chosen(line, ev, chosen, n)),
    decreases n,
{
    if n > 0 {
        lemma_chosen_may(keys, line, ev, chosen, n - 1);
        assert(chosen[n - 1] < ev.len());
        lemma_in_time_may(keys, with_chosen(line, ev, chosen, n - 1), ev[chosen[n - 1] as int]);
    }
}

/// Only clips that may take part stand on the time line: no clip twice by its
/// path, none without a time, and no event clip of a parked car.
pub proof fn law_time_line_admits(keys: Seq<Key>, i: int)
    requires
        keys.len() <= usize::MAX,
        0 <= i < time_line(keys).len(),
    ensures
        time_line(keys)[i].index < keys.len(),
        may_take_part(keys, time_line(keys)[i].index as int),
{
    let n = keys.len() as int;
    lemma_recents_may(keys, n);
    lemma_events_are_events(keys, n);
    let line = recents(keys, n);
    let ev = events(keys, n);
    let cands = candidates(keys, ev);
    let chosen = gap_fill(times(line), cands);
    assert forall|k: int| 0 <= k < chosen.len() implies (#[trigger] chosen[k]) < ev.len()
        && ev[chosen[k] as int].index < keys.len() && may_take_part(
        keys,
        ev[chosen[k] as int].index as int,
    ) by {
        law_parked_clips_stay_out(times(line), cands, k);
        assert(cands[chosen[k] as int].driving == Some(keys[ev[chosen[k] as int].index as int].driving));
    }
    lemma_chosen_may(keys, line, ev, chosen, chosen.len() as int);
}

/// Every piece of every drive comes from a clip that may take part. So an event
/// clip of a parked car never shows up as a drive.
pub proof fn law_drives_hold_admitted_clips(routes: Seq<Route>, k: int, j: int)
    requires
        routes.len() <= usize::MAX,
        0 <= k < drives(routes).len(),
        0 <= j < drives(routes)[k].len(),
    ensures
        drives(routes)[k][j].route < routes.len(),
        may_take_part(keys_of_routes(routes), drives(routes)[k][j].route as int),
{
    let keys = keys_of_routes(routes);
    let line = time_line(keys);
    let s = stretches(line, line.len() as int);
    lemma_drives_stem(routes, line, s.len() as int, k, j);
    let r = drives(routes)[k][j].route;
    let i = choose|i: int| 0 <= i < line.len() && (#[trigger] line[i]).index == r;
    law_time_line_admits(keys, i);
}

/// The same of the drives of the list.
pub proof fn law_listed_drives_hold_admitted_clips(s: Seq<RouteSummary>, k: int, j: int)
    requires
        s.len() <= usize::MAX,
        0 <= k < sub_drives(s).len(),
        0 <= j < sub_drives(s)[k].len(),
    ensures
        sub_drives(s)[k][j].summary < s.len(),
        may_take_part(keys_of_summaries(s), sub_drives(s)[k][j].summary as int),
{
    let keys = keys_of_summaries(s);
    let line = time_line(keys);
    let st = stretches(line, line.len() as int);
    lemma_sub_drives_stem(s, line, st.len() as int, k, j);
    let r = sub_drives(s)[k][j].summary;
    let i = choose|i: int| 0 <= i < line.len() && (#[trigger] line[i]).index == r;
    law_time_line_admits(keys, i);
}

// ---------------------------------------------------------------------------
// The list and the map
// ---------------------------------------------------------------------------

/// The rows of the list were taken from the clips of the map: paths and gears are
/// the same, and both tell alike whether the car drove.
pub open spec fn tell_alike(routes: Seq<Route>, s: Seq<RouteSummary>) -> bool {
    &&& routes.len() == s.len()
    &&& forall|i: int|
        0 <= i < routes.len() ==> (#[trigger] routes[i]).file@ == s[i].file@
            && routes[i].gear_runs@ == s[i].gear_runs@ && route_drives(routes[i]) == summary_drives(
            s[i],
        )
}

/// The list and the map put the same clips on the same time line. Gears recorded
/// beside the runs make no difference.
pub proof fn law_list_and_map_share_a_time_line(routes: Seq<Route>, s: Seq<RouteSummary>)
    requires
        tell_alike(routes, s),
    ensures
        time_line(keys_of_routes(routes)) == time_line(keys_of_summaries(s)),
{
    assert(keys_of_routes(routes) =~= keys_of_summaries(s));
}

} // verus!
