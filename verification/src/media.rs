//! Clips as bytes: boxes, units and frames.

use vstd::arithmetic::power2::{
    lemma2_to64, lemma2_to64_rest, lemma_pow2_adds, lemma_pow2_strictly_increases, pow2,
};
use crate::extract::{
    BoxStep, MAX_UNIT_BYTES, RawFrames, SeiFrame, assemble_extracted, be_value, box_has_long_size,
    box_header, box_size, box_step, frame_flags, is_assembled, is_mdat, read_long_size, rounded6,
    unit_frame, unit_is_supplemental, unit_length,
};
use crate::types::{ExtractedGps, GpsPoint};
use vstd::prelude::*;
use vstd::slice::slice_subrange;

verus! {

// ---------------------------------------------------------------------------
// The media data
// ---------------------------------------------------------------------------

/// The 64-bit size of the box at `pos`, where it has one.
pub open spec fn long_size_at(file: Seq<u8>, pos: int) -> Option<u64> {
    if be_value(file.subrange(pos, pos + 4)) == 1 {
        Some(be_value(file.subrange(pos + 8, pos + 16)) as u64)
    } else {
        None
    }
}

/// The media data among the boxes from `pos` on: where it starts, and its length.
/// A box cut off in its header, or shorter than it, ends the search.
pub open spec fn media_from(file: Seq<u8>, pos: int) -> Option<(int, int)>
    decreases file.len() - pos,
{
    let header = file.subrange(pos, pos + 8);
    let size = box_size(pos, file.len() as int, header, long_size_at(file, pos));
    let head = box_header(header);
    if pos < 0 || pos + 8 > file.len() || (head == 16 && pos + 16 > file.len()) || size < head {
        None
    } else if is_mdat(header) {
        Some((pos + head, size - head))
    } else if pos + size >= file.len() {
        None
    } else {
        media_from(file, pos + size)
    }
}

proof fn lemma_be_bound(s: Seq<u8>)
    requires
        s.len() <= 8,
    ensures
        be_value(s) <= u64::MAX,
        s.len() <= 4 ==> be_value(s) <= u32::MAX,
    decreases s.len(),
{
    lemma_be_pow(s);
    lemma2_to64();
    lemma2_to64_rest();
    if s.len() < 8 {
        lemma_pow2_strictly_increases(8 * s.len(), 64);
    }
    if s.len() < 4 {
        lemma_pow2_strictly_increases(8 * s.len(), 32);
    }
}

proof fn lemma_be_pow(s: Seq<u8>)
    ensures
        be_value(s) < pow2(8 * s.len()),
    decreases s.len(),
{
    lemma2_to64();
    if s.len() > 0 {
        lemma_be_pow(s.drop_last());
        lemma_pow2_adds((8 * (s.len() - 1)) as nat, 8);
    }
}

/// Finds the media data of a file.
pub fn find_media(file: &[u8]) -> (r: Option<(u64, u64)>)
    requires
        file@.len() <= i64::MAX,
    ensures
        match (r, media_from(file@, 0)) {
            (Some(a), Some(b)) => a.0 == b.0 && a.1 == b.1,
            (None, None) => true,
            _ => false,
        },
{
    let n: usize = file.len();
    let mut pos: usize = 0;
    while pos < n && n - pos >= 8
        invariant
            n == file@.len(),
            n <= i64::MAX,
            pos <= n,
            media_from(file@, 0) == media_from(file@, pos as int),
        decreases n - pos,
    {
        let header: &[u8] = slice_subrange(file, pos, pos + 8);
        proof {
            assert(header@ =~= file@.subrange(pos as int, pos + 8));
            assert(header@.take(4) =~= file@.subrange(pos as int, pos + 4));
        }
        let mut long_size: Option<u64> = None;
        if box_has_long_size(header) {
            if n - pos < 16 {
                return None;
            }
            let bytes: &[u8] = slice_subrange(file, pos + 8, pos + 16);
            proof {
                assert(bytes@ =~= file@.subrange(pos + 8, pos + 16));
                lemma_be_bound(bytes@);
            }
            long_size = Some(read_long_size(bytes));
        }
        proof {
            assert(long_size == long_size_at(file@, pos as int));
        }
        match box_step(pos as u64, n as u64, header, long_size) {
            BoxStep::Mdat { offset, size } => {
                return Some((offset, size));
            },
            BoxStep::Skip { next } => {
                if next >= n as u64 {
                    return None;
                }
                pos = next as usize;
            },
            BoxStep::Stop => {
                return None;
            },
        }
    }
    None
}

// ---------------------------------------------------------------------------
// Frames
// ---------------------------------------------------------------------------

/// Where media data ends.
pub open spec fn media_end(offset: int, size: int) -> int {
    if offset + size > u64::MAX {
        u64::MAX as int
    } else {
        offset + size
    }
}

/// The frame of one unit, where it holds one.
pub open spec fn frames_of_unit(unit: Seq<u8>) -> Seq<SeiFrame> {
    match unit_frame(unit) {
        Some(f) => seq![f],
        None => Seq::empty(),
    }
}

/// The frames of the units at `at..end`. Each unit stands behind four bytes with
/// its length; one that is too short, leaves the media data or is cut off by the
/// end of the file ends the walk.
pub open spec fn frames_from(file: Seq<u8>, at: int, end: int) -> Seq<SeiFrame>
    decreases end - at,
{
    let n = be_value(file.subrange(at, at + 4)) as int;
    let b = at + 4;
    if at < 0 || b > end || b > file.len() || n < 2 || b + n > end || b >= file.len() {
        Seq::empty()
    } else if file[b] % 32 == 6 && n <= MAX_UNIT_BYTES {
        if b + n > file.len() {
            Seq::empty()
        } else {
            frames_of_unit(file.subrange(b, b + n)) + frames_from(file, b + n, end)
        }
    } else {
        frames_from(file, b + n, end)
    }
}

/// `r` holds the frames, one entry each.
pub open spec fn are_collected(frames: Seq<SeiFrame>, r: RawFrames) -> bool {
    let n = frames.len();
    &&& r.points@ == Seq::new(
        n,
        |i: int| GpsPoint { lat: rounded6(frames[i].lat), lng: rounded6(frames[i].lon) },
    )
    &&& r.gears@ == Seq::new(n, |i: int| frames[i].gear)
    &&& r.ap_states@ == Seq::new(n, |i: int| frames[i].ap_state)
    &&& r.speeds@ == Seq::new(n, |i: int| frames[i].speed)
    &&& r.accel_positions@ == Seq::new(n, |i: int| frames[i].accel_pos)
    &&& r.flags@ == Seq::new(n, |i: int| frame_flags(frames[i]))
    &&& r.accel_x@ == Seq::new(n, |i: int| frames[i].accel_x)
    &&& r.accel_y@ == Seq::new(n, |i: int| frames[i].accel_y)
}

proof fn lemma_one_more(frames: Seq<SeiFrame>, unit: Seq<u8>, old: RawFrames, new: RawFrames)
    requires
        are_collected(frames, old),
        unit_frame(unit) is None ==> new == old,
        unit_frame(unit) matches Some(f) ==> {
            &&& new.points@ == old.points@.push(
                GpsPoint { lat: rounded6(f.lat), lng: rounded6(f.lon) },
            )
            &&& new.gears@ == old.gears@.push(f.gear)
            &&& new.ap_states@ == old.ap_states@.push(f.ap_state)
            &&& new.speeds@ == old.speeds@.push(f.speed)
            &&& new.accel_positions@ == old.accel_positions@.push(f.accel_pos)
            &&& new.flags@ == old.flags@.push(frame_flags(f))
            &&& new.accel_x@ == old.accel_x@.push(f.accel_x)
            &&& new.accel_y@ == old.accel_y@.push(f.accel_y)
        },
    ensures
        are_collected(frames + frames_of_unit(unit), new),
{
    let more = frames + frames_of_unit(unit);
    let n = more.len();
    match unit_frame(unit) {
        Some(f) => {
            assert(more =~= frames.push(f));
            assert(new.points@ =~= Seq::new(
                n,
                |i: int| GpsPoint { lat: rounded6(more[i].lat), lng: rounded6(more[i].lon) },
            ));
            assert(new.gears@ =~= Seq::new(n, |i: int| more[i].gear));
            assert(new.ap_states@ =~= Seq::new(n, |i: int| more[i].ap_state));
            assert(new.speeds@ =~= Seq::new(n, |i: int| more[i].speed));
            assert(new.accel_positions@ =~= Seq::new(n, |i: int| more[i].accel_pos));
            assert(new.flags@ =~= Seq::new(n, |i: int| frame_flags(more[i])));
            assert(new.accel_x@ =~= Seq::new(n, |i: int| more[i].accel_x));
            assert(new.accel_y@ =~= Seq::new(n, |i: int| more[i].accel_y));
        },
        None => {
            assert(more =~= frames);
        },
    }
}

/// Collects the frames of the media data at `offset`.
pub fn collect_frames(file: &[u8], offset: u64, size: u64) -> (r: RawFrames)
    requires
        file@.len() <= i64::MAX,
    ensures
        r.wf(),
        are_collected(frames_from(file@, offset as int, media_end(offset as int, size as int)), r),
        4 * r.points@.len() <= file@.len(),
{
    let bytes: usize = file.len();
    let len: u64 = bytes as u64;
    let end: u64 = if size > u64::MAX - offset {
        u64::MAX
    } else {
        offset + size
    };
    let ghost all = frames_from(file@, offset as int, end as int);
    let ghost mut done: Seq<SeiFrame> = Seq::empty();
    let mut frames: RawFrames = RawFrames::new();
    let mut at: u64 = offset;
    let mut going: bool = true;
    proof {
        assert(done + all =~= all);
        assert(are_collected(done, frames)) by {
            assert(frames.points@ =~= Seq::new(
                0,
                |i: int| GpsPoint { lat: rounded6(done[i].lat), lng: rounded6(done[i].lon) },
            ));
            assert(frames.gears@ =~= Seq::new(0, |i: int| done[i].gear));
            assert(frames.ap_states@ =~= Seq::new(0, |i: int| done[i].ap_state));
            assert(frames.speeds@ =~= Seq::new(0, |i: int| done[i].speed));
            assert(frames.accel_positions@ =~= Seq::new(0, |i: int| done[i].accel_pos));
            assert(frames.flags@ =~= Seq::new(0, |i: int| frame_flags(done[i])));
            assert(frames.accel_x@ =~= Seq::new(0, |i: int| done[i].accel_x));
            assert(frames.accel_y@ =~= Seq::new(0, |i: int| done[i].accel_y));
        }
    }
    while going && end - at >= 4 && at < len && len - at > 4
        invariant
            len == bytes,
            bytes == file@.len(),
            len <= i64::MAX,
            offset <= at <= end,
            frames.wf(),
            are_collected(done, frames),
            all == frames_from(file@, offset as int, end as int),
            going ==> all == done + frames_from(file@, at as int, end as int),
            !going ==> all == done,
            at <= len ==> 4 * done.len() <= at - offset,
            4 * done.len() <= len,
        decreases end - at, going as int,
    {
        let length_bytes: &[u8] = slice_subrange(file, at as usize, at as usize + 4);
        proof {
            assert(length_bytes@ =~= file@.subrange(at as int, at + 4));
        }
        let ghost rest = frames_from(file@, at as int, end as int);
        match unit_length(at + 4, end, length_bytes) {
            None => {
                proof {
                    assert(rest =~= Seq::empty());
                    assert(done + rest =~= done);
                }
                going = false;
            },
            Some(n) => {
                let b: u64 = at + 4;
                if unit_is_supplemental(file[b as usize], n) {
                    if n > len - b {
                        proof {
                            assert(rest =~= Seq::empty());
                            assert(done + rest =~= done);
                        }
                        going = false;
                    } else {
                        let unit: &[u8] = slice_subrange(file, b as usize, b as usize + n as usize);
                        let ghost before = frames;
                        frames.absorb(unit);
                        proof {
                            assert(unit@ =~= file@.subrange(b as int, b + n));
                            lemma_one_more(done, unit@, before, frames);
                            let next = frames_from(file@, b + n, end as int);
                            assert(done + (frames_of_unit(unit@) + next) =~= (done + frames_of_unit(
                                unit@,
                            )) + next);
                            done = done + frames_of_unit(unit@);
                        }
                        at = b + n;
                    }
                } else {
                    at = b + n;
                }
            },
        }
    }
    proof {
        if going {
            let rest = frames_from(file@, at as int, end as int);
            assert(rest =~= Seq::empty());
            assert(done + rest =~= done);
        }
    }
    frames
}

/// The telemetry of a clip, from the bytes of its file. Every unit with a frame
/// takes more than four bytes, so that the frames of a file of this length can be
/// counted.
pub fn extract_gps_from_bytes(file: &[u8]) -> (r: ExtractedGps)
    requires
        file@.len() <= 0x3_FFFF_FFFC,
    ensures
        exists|f: RawFrames| #[trigger]
            is_assembled(f, r) && are_collected(
                match media_from(file@, 0) {
                    Some(m) => frames_from(file@, m.0, media_end(m.0, m.1)),
                    None => Seq::empty(),
                },
                f,
            ),
{
    let frames: RawFrames = match find_media(file) {
        Some(m) => collect_frames(file, m.0, m.1),
        None => collect_frames(file, 0, 0),
    };
    let ghost f = frames;
    let r: ExtractedGps = assemble_extracted(frames);
    proof {
        if media_from(file@, 0) is None {
            assert(frames_from(file@, 0, media_end(0, 0)) =~= Seq::empty());
        }
        assert(is_assembled(f, r));
    }
    r
}

/// Frames come from the media data alone: bytes behind it make no difference.
pub proof fn law_bytes_behind_do_not_matter(file: Seq<u8>, more: Seq<u8>, at: int, end: int)
    requires
        0 <= at,
        end <= file.len(),
    ensures
        frames_from(file + more, at, end) == frames_from(file, at, end),
    decreases end - at,
{
    let long = file + more;
    let b = at + 4;
    if b <= end {
        assert(long.subrange(at, b) =~= file.subrange(at, b));
        let n = be_value(file.subrange(at, b)) as int;
        if n >= 2 && b + n <= end {
            assert(long[b] == file[b]);
            assert(long.subrange(b, b + n) =~= file.subrange(b, b + n));
            law_bytes_behind_do_not_matter(file, more, b + n, end);
        }
    }
}

} // verus!
