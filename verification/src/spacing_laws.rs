//! Where points are picked, where clips are cut, and which bytes and names count.

use crate::charging::even_position;
use crate::clock::{iso_moment, iso_text, stamp_at, stamp_from};
use crate::extract::{SeiFrame, be_value, box_header, box_size, is_mdat, unit_frame};
use crate::float::{fdiv, fmul, from_int, fround, to_int};
use crate::media::{frames_from, long_size_at, media_from};
use crate::nearness::{
    lemma_near_int, lemma_near_product, lemma_near_quotient, lemma_rounded_near, lemma_within_int,
    lemma_within_more, near,
};
use crate::rounding::lemma_one;
use crate::row_laws::lemma_within_quotient;
use crate::split::{FrameSeg, frame_share, planned, point_at};
use vstd::prelude::*;

verus! {

// ---------------------------------------------------------------------------
// Evenly spaced positions
// ---------------------------------------------------------------------------

/// Part `i` of `k`, of a length of `n`: rounded, off by less than one.
proof fn lemma_even_part(n: nat, k: nat, i: nat)
    requires
        1 <= k <= 0xFFFF_FFFF,
        n <= 0xFFFF_FFFF,
        i <= k,
    ensures
        near(
            fmul(from_int(i as int), fdiv(from_int(n as int), from_int(k as int))),
            i * n,
            k,
            4,
        ),
{
    lemma_one();
    lemma_near_int(n);
    lemma_near_int(k);
    lemma_near_int(i);
    lemma_within_int(n);
    lemma_within_int(k);
    lemma_within_int(i);
    lemma_within_more(n, 1, 32, 400);
    lemma_within_more(k, 1, 32, 400);
    lemma_within_more(i, 1, 32, 400);
    assert(0nat * 0 == 0 && 0nat * 2 == 0);
    lemma_near_quotient(from_int(n as int), from_int(k as int), n, 1, k, 1, 0, 0, 400);
    assert(n * 1 == n && 1 * k == k);
    if n > 0 {
        lemma_within_quotient(n, k);
    } else {
        vstd::arithmetic::power2::lemma_pow2_pos(64);
    }
    lemma_within_more(n, k, 64, 400);
    lemma_near_product(
        from_int(i as int),
        fdiv(from_int(n as int), from_int(k as int)),
        i,
        1,
        n,
        k,
        0,
        2,
        400,
    );
}

/// Thinned charts are evenly spaced: of `max` points the `i`-th stands at part `i` of
/// `max - 1` of the way from the first to the last, to the nearest.
pub proof fn law_charts_are_evenly_spaced(n: int, max: int, i: int)
    requires
        2 <= max < n <= 0x7FFF_FFFF,
        0 <= i < max,
    ensures
        ({
            let at = even_position(n, max, i);
            &&& at * (max - 1) < i * (n - 1) + (max - 1)
            &&& i * (n - 1) < at * (max - 1) + (max - 1)
        }),
{
    let (m, k, j) = ((n - 1) as nat, (max - 1) as nat, i as nat);
    lemma_even_part(m, k, j);
    let x = fmul(from_int(i), fdiv(from_int(n - 1), from_int(max - 1)));
    assert(j * m <= k * m) by (nonlinear_arith)
        requires
            j <= k,
    ;
    assert(4 * m <= 0x1_0000_0000_0000nat);
    lemma_rounded_near(x, j * m, k, 4, m, 0, usize::MAX as int);
    let at = to_int(fround(x), 0, usize::MAX as int);
    if at > m {
        assert((m + 1) * k <= at * k) by (nonlinear_arith)
            requires
                m + 1 <= at,
        ;
        assert((m + 1) * k == m * k + k) by (nonlinear_arith);
        assert(m * k == k * m) by (nonlinear_arith);
    }
}

// ---------------------------------------------------------------------------
// Fragments
// ---------------------------------------------------------------------------

/// A fragment takes the points of its frames: from the part of the clip in front of it to
/// the part up to its end, each to the nearest point.
pub proof fn law_fragments_take_their_points(seg: FrameSeg, total: int, n: int)
    requires
        1 <= total <= u32::MAX,
        seg.start <= seg.end <= total,
        1 <= n <= 0x7FFF_FFFF,
        !seg.parked,
        planned(seg, total, n) is Some,
    ensures
        ({
            let p = planned(seg, total, n)->0;
            &&& !p.parked
            &&& p.start < p.end <= n
            &&& p.start * total < seg.start * n + total
            &&& p.start < n - 1 ==> seg.start * n < p.start * total + total
            &&& seg.end * n < p.end * total + total
            &&& p.end * total < seg.end * n + total
        }),
{
    let d = total as nat;
    let m = n as nat;
    lemma_share_of_points(seg.start as nat, d, m);
    lemma_share_of_points(seg.end as nat, d, m);
    let a = point_at(frame_share(seg.start, total), n);
    let b = point_at(frame_share(seg.end, total), n);
    let p = planned(seg, total, n)->0;
    if b > n {
        assert(seg.end * n <= total * n) by (nonlinear_arith)
            requires
                seg.end <= total,
                n >= 0,
        ;
        assert(n * total < b * total) by (nonlinear_arith)
            requires
                n < b,
                total >= 1,
        ;
        assert(n * total == total * n) by (nonlinear_arith);
        assert(p.end * total < seg.end * n + total);
        assert(seg.end * n < p.end * total + total);
    }
    if a >= n {
        assert((n - 1) * total + total == n * total) by (nonlinear_arith);
        assert(n * total <= a * total) by (nonlinear_arith)
            requires
                n <= a,
                total >= 1,
        ;
    }
}

proof fn lemma_share_of_points(f: nat, d: nat, m: nat)
    requires
        f <= d,
        1 <= d <= 0xFFFF_FFFF,
        1 <= m <= 0x7FFF_FFFF,
    ensures
        ({
            let k = point_at(fdiv(from_int(f as int), from_int(d as int)), m as int);
            0 <= k && k * d < f * m + d && f * m < k * d + d
        }),
{
    lemma_one();
    lemma_near_int(f);
    lemma_near_int(d);
    lemma_near_int(m);
    lemma_within_int(f);
    lemma_within_int(d);
    lemma_within_int(m);
    lemma_within_more(f, 1, 32, 400);
    lemma_within_more(d, 1, 32, 400);
    lemma_within_more(m, 1, 32, 400);
    assert(0nat * 0 == 0 && 2nat * 0 == 0);
    lemma_near_quotient(from_int(f as int), from_int(d as int), f, 1, d, 1, 0, 0, 400);
    assert(f * 1 == f && 1 * d == d);
    if f > 0 {
        lemma_within_quotient(f, d);
    } else {
        vstd::arithmetic::power2::lemma_pow2_pos(64);
    }
    lemma_within_more(f, d, 64, 400);
    let q = fdiv(from_int(f as int), from_int(d as int));
    lemma_near_product(q, from_int(m as int), f, d, m, 1, 2, 0, 400);
    assert(d * 1 == d);
    assert(f * m <= d * m) by (nonlinear_arith)
        requires
            f <= d,
    ;
    assert(4 * m <= 0x1_0000_0000_0000nat);
    let x = fmul(q, from_int(m as int));
    lemma_rounded_near(x, f * m, d, 4, m, 0, usize::MAX as int);
}

// ---------------------------------------------------------------------------
// Names
// ---------------------------------------------------------------------------

/// The time of a path is the first stamp in it that is a date and time; a path has none
/// where no stamp in it is.
pub proof fn law_the_first_stamp_counts(s: Seq<char>, i: int)
    requires
        0 <= i,
        forall|j: int|
            0 <= j < i && #[trigger] stamp_at(s, j) ==> iso_moment(iso_text(s, j)) is None,
    ensures
        match stamp_from(s, i) {
            Some(t) => exists|k: int|
                #[trigger] stamp_at(s, k) && iso_moment(iso_text(s, k)) == Some(t) && forall|j: int|
                    0 <= j < k && #[trigger] stamp_at(s, j) ==> iso_moment(iso_text(s, j)) is None,
            None => forall|k: int| #[trigger] stamp_at(s, k) ==> iso_moment(iso_text(s, k)) is None,
        },
    decreases s.len() - i,
{
    if i + 19 <= s.len() {
        if stamp_at(s, i) && iso_moment(iso_text(s, i)) is Some {
            assert(stamp_at(s, i));
        } else {
            law_the_first_stamp_counts(s, i + 1);
        }
    }
}

// ---------------------------------------------------------------------------
// Units
// ---------------------------------------------------------------------------

/// A number in four bytes, most significant first.
pub open spec fn be_bytes(v: nat) -> Seq<u8> {
    seq![
        (v / 0x100_0000 % 256) as u8,
        (v / 0x1_0000 % 256) as u8,
        (v / 256 % 256) as u8,
        (v % 256) as u8,
    ]
}

proof fn lemma_be_bytes(v: nat)
    requires
        v <= 0xFFFF_FFFF,
    ensures
        be_value(be_bytes(v)) == v,
{
    let s = be_bytes(v);
    let (a, b, c, d) = (s.drop_last(), s.drop_last().drop_last(), s.drop_last().drop_last().drop_last(), s.drop_last().drop_last().drop_last().drop_last());
    assert(d.len() == 0);
    assert(be_value(d) == 0);
    assert(be_value(c) == s[0]);
    assert(be_value(b) == 256 * (s[0] as nat) + s[1] as nat);
    assert(be_value(a) == 256 * (256 * (s[0] as nat) + s[1] as nat) + s[2] as nat);
}

/// Media data made of units, each behind its length.
pub open spec fn media_bytes(units: Seq<Seq<u8>>) -> Seq<u8>
    decreases units.len(),
{
    if units.len() == 0 {
        Seq::empty()
    } else {
        be_bytes(units[0].len()) + units[0] + media_bytes(units.skip(1))
    }
}

/// The frames of the supplemental units, in order.
pub open spec fn frames_in(units: Seq<Seq<u8>>) -> Seq<SeiFrame>
    decreases units.len(),
{
    if units.len() == 0 {
        Seq::empty()
    } else if units[0][0] % 32 == 6 && units[0].len() <= 65_536 && unit_frame(units[0]) is Some {
        seq![unit_frame(units[0])->0] + frames_in(units.skip(1))
    } else {
        frames_in(units.skip(1))
    }
}

/// The frames of a clip are those of its supplemental units of up to 64 KiB, in the order
/// in which they stand in its media data, whatever stands in front of that.
pub proof fn law_every_unit_is_read(head: Seq<u8>, units: Seq<Seq<u8>>)
    requires
        forall|i: int| 0 <= i < units.len() ==> 2 <= (#[trigger] units[i]).len() <= 0xFFFF_FFFF,
    ensures
        ({
            let file = head + media_bytes(units);
            frames_from(file, head.len() as int, file.len() as int) == frames_in(units)
        }),
    decreases units.len(),
{
    let file = head + media_bytes(units);
    let at = head.len() as int;
    let end = file.len() as int;
    if units.len() == 0 {
        assert(frames_from(file, at, end) =~= frames_in(units));
    } else {
        let unit = units[0];
        let n = unit.len() as int;
        let rest = units.skip(1);
        let more = head + be_bytes(unit.len()) + unit;
        assert(2 <= units[0].len() <= 0xFFFF_FFFF);
        assert forall|i: int| 0 <= i < rest.len() implies 2 <= (#[trigger] rest[i]).len()
            <= 0xFFFF_FFFF by {
            assert(rest[i] == units[i + 1]);
        }
        law_every_unit_is_read(more, rest);
        assert(more + media_bytes(rest) =~= file);
        assert(file.subrange(at, at + 4) =~= be_bytes(unit.len()));
        lemma_be_bytes(unit.len());
        assert(file.subrange(at + 4, at + 4 + n) =~= unit);
        assert(file[at + 4] == unit[0]);
        assert(more.len() == at + 4 + n);
        let tail = frames_from(file, at + 4 + n, end);
        assert(tail == frames_in(rest));
        assert(frames_from(file, at, end) =~= frames_in(units));
    }
}

/// A box of `n` bytes: its length, its four-letter name and what it holds.
pub open spec fn box_bytes(name: Seq<u8>, body: Seq<u8>) -> Seq<u8> {
    be_bytes(8 + body.len()) + name + body
}

/// Media data is found behind any other box in front of it: where its contents start, and
/// how long they are.
pub proof fn law_media_data_is_found(head: Seq<u8>, name: Seq<u8>, body: Seq<u8>, rest: Seq<u8>)
    requires
        name.len() == 4,
        8 + body.len() <= 0xFFFF_FFFF,
    ensures
        ({
            let file = head + box_bytes(name, body) + rest;
            let pos = head.len() as int;
            let media = name == seq![0x6du8, 0x64u8, 0x61u8, 0x74u8];
            &&& media ==> media_from(file, pos) == Some((pos + 8, body.len() as int))
            &&& !media && rest.len() > 0 ==> media_from(file, pos) == media_from(
                file,
                pos + 8 + body.len(),
            )
            &&& !media && rest.len() == 0 ==> media_from(file, pos) is None
        }),
{
    let file = head + box_bytes(name, body) + rest;
    let pos = head.len() as int;
    let n = 8 + body.len();
    lemma_be_bytes(n);
    let header = file.subrange(pos, pos + 8);
    assert(file.subrange(pos, pos + 4) =~= be_bytes(n));
    assert(header.take(4) =~= be_bytes(n));
    assert(header[4] == name[0] && header[5] == name[1] && header[6] == name[2] && header[7] == name[3]);
    let media = name == seq![0x6du8, 0x64u8, 0x61u8, 0x74u8];
    if is_mdat(header) {
        assert(name =~= seq![0x6du8, 0x64u8, 0x61u8, 0x74u8]);
    }
    assert(is_mdat(header) == media);
    assert(long_size_at(file, pos) is None);
    assert(box_size(pos, file.len() as int, header, long_size_at(file, pos)) == n);
    assert(box_header(header) == 8);
}

} // verus!
