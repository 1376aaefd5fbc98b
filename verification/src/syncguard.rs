//! Size guard of the archive copy: a file that lost most of its bytes does not
//! replace the copy.

use vstd::arithmetic::power2::{lemma2_to64, lemma_pow2_unfold, pow2};
use crate::calc::lit;
use crate::float::{F64, fmul, from_int};
use crate::text::{
    is_digit, is_space, law_decimal_reads_back, lemma_trimming_keeps, parse_signed, show_int,
    signed_decimal, spelled, trim, trimmed,
};
use vstd::prelude::*;

verus! {

/// Below this size every file is let through.
pub const MIN_THRESHOLD_BYTES: i64 = 10_485_760;

/// A file must keep this share (one half) of the size last synced.
pub const RATIO: u64 = 0x3FE0_0000_0000_0000;

/// A refused sync.
#[derive(Clone, Copy, Debug)]
pub struct SyncGuardError {
    pub new_size: i64,
    pub last_size: i64,
    pub ratio_pct: F64,
}

/// A file of `new` bytes would replace a large one of `last` bytes and is less than
/// half as long.
pub open spec fn is_refused(new: int, last: int) -> bool {
    last >= MIN_THRESHOLD_BYTES && 2 * new < last
}

/// Lets a sync of `new_size` bytes through, or refuses it where the last one was
/// large and less than half of it is left.
pub fn check_sync_size_guard(new_size: i64, last_size: i64) -> (r: Result<(), SyncGuardError>)
    ensures
        match r {
            Ok(_) => !is_refused(new_size as int, last_size as int),
            Err(e) => is_refused(new_size as int, last_size as int) && e.new_size == new_size
                && e.last_size == last_size && e.ratio_pct == fmul(lit(RATIO), from_int(100)),
        },
{
    if last_size < MIN_THRESHOLD_BYTES {
        return Ok(());
    }
    if 2 * (new_size as i128) >= last_size as i128 {
        return Ok(());
    }
    let ratio: F64 = F64::from_bits(RATIO);
    Err(SyncGuardError { new_size, last_size, ratio_pct: ratio.times(F64::of_u64(100)) })
}

/// The size that a cache file records; zero for anything but a size.
pub open spec fn recorded_size(text: Seq<char>) -> int {
    match spelled(trimmed(text), true) {
        Some(n) => if 0 <= n <= i64::MAX {
            n
        } else {
            0
        },
        None => 0,
    }
}

/// Reads the text of a cache file; zero where it is no size.
pub fn parse_sync_cache(text: &str) -> (r: i64)
    ensures
        r == recorded_size(text@),
{
    let cs: Vec<char> = trim(text);
    match parse_signed(cs.as_slice(), i64::MAX) {
        Some(n) => if n < 0 {
            0
        } else {
            n
        },
        None => 0,
    }
}

/// The text of a cache file; `None` for a size below zero.
pub fn sync_cache_text(size: i64) -> (r: Option<String>)
    ensures
        match r {
            Some(t) => size >= 0 && t@ == signed_decimal(size as int),
            None => size < 0,
        },
{
    if size < 0 {
        None
    } else {
        Some(show_int(size))
    }
}

// ---------------------------------------------------------------------------
// Laws
// ---------------------------------------------------------------------------

/// A size written to the cache reads back as itself.
pub proof fn law_cache_reads_back(size: i64)
    requires
        size >= 0,
    ensures
        recorded_size(signed_decimal(size as int)) == size,
{
    law_decimal_reads_back(size as int);
}

/// A cache file with anything in it but digits, a sign and white space refuses
/// nothing.
pub proof fn law_damaged_cache_refuses_nothing(text: Seq<char>, i: int, new: int)
    requires
        0 <= i < text.len(),
        !is_digit(text[i]),
        !is_space(text[i]),
        text[i] != '+',
        text[i] != '-',
    ensures
        recorded_size(text) == 0,
        !is_refused(new, recorded_size(text)),
{
    let t = trimmed(text);
    assert(text.contains(text[i]));
    lemma_trimming_keeps(text, text[i]);
    let k = choose|k: int| 0 <= k < t.len() && t[k] == text[i];
    if t[0] == '+' || t[0] == '-' {
        assert(t.skip(1)[k - 1] == t[k]);
        assert(!is_digit(t.skip(1)[k - 1]));
    } else {
        assert(!is_digit(t[k]));
    }
}

/// What the cache file records of a file lets that same file through.
pub proof fn law_unchanged_files_are_let_through(size: i64)
    requires
        size >= 0,
    ensures
        !is_refused(size as int, recorded_size(signed_decimal(size as int))),
{
    law_cache_reads_back(size);
    law_growth_is_let_through(size as int, size as int);
}

/// A file that did not shrink is never refused.
pub proof fn law_growth_is_let_through(new: int, last: int)
    requires
        last <= new,
    ensures
        !is_refused(new, last),
{
}

/// However often it is copied, a large file that is let through each time loses at
/// most half of its bytes with each copy, until it is no longer large.
pub proof fn law_bytes_are_lost_by_halves(sizes: Seq<int>)
    requires
        sizes.len() > 0,
        forall|i: int| 0 < i < sizes.len() ==> !is_refused(#[trigger] sizes[i], sizes[i - 1]),
        forall|i: int| 0 <= i < sizes.len() - 1 ==> #[trigger] sizes[i] >= MIN_THRESHOLD_BYTES,
    ensures
        sizes[0] <= pow2((sizes.len() - 1) as nat) * sizes.last(),
    decreases sizes.len(),
{
    let n = sizes.len() - 1;
    if n == 0 {
        lemma2_to64();
        assert(pow2((sizes.len() - 1) as nat) * sizes.last() == sizes[0]) by (nonlinear_arith)
            requires
                pow2((sizes.len() - 1) as nat) == 1,
                sizes.last() == sizes[0],
        ;
    } else {
        let head = sizes.drop_last();
        assert forall|i: int| 0 < i < head.len() implies !is_refused(
            #[trigger] head[i],
            head[i - 1],
        ) by {
            assert(!is_refused(sizes[i], sizes[i - 1]));
        }
        law_bytes_are_lost_by_halves(head);
        assert(!is_refused(sizes[n], sizes[n - 1]));
        assert(sizes[n - 1] >= MIN_THRESHOLD_BYTES);
        let (p, a, b) = (pow2((n - 1) as nat), sizes[n - 1], sizes[n]);
        lemma_pow2_unfold(n as nat);
        let q = pow2(n as nat);
        assert(p * a <= q * b) by (nonlinear_arith)
            requires
                a <= 2 * b,
                q == 2 * p,
        ;
        assert(head.last() == a && sizes.last() == b);
    }
}

} // verus!
