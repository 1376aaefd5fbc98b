//! Which steps bring a database up to the current schema.

use crate::candidates::lists;
use crate::summary::{text_view, texts};
use crate::text::{
    chars_in_bytes, chars_of, copy_range, cut_at, law_decimal_reads_back, lemma_utf8_grows,
    parse_signed, push_text, show_int, signed_decimal, spelled, text_of, trim, trimmed,
    utf8_length,
};
use vstd::prelude::*;

verus! {

/// The schema version written to new databases.
pub const CURRENT_SCHEMA_VERSION: i32 = 2;

/// Aggregate columns of the clip table, with their types.
pub const V2_ROUTE_AGGREGATE_COLUMNS: [(&'static str, &'static str); 17] = [
    ("max_speed_mps", "REAL"),
    ("avg_speed_mps", "REAL"),
    ("speed_sample_count", "INTEGER"),
    ("valid_point_count", "INTEGER"),
    ("fsd_engaged_ms", "INTEGER"),
    ("autosteer_engaged_ms", "INTEGER"),
    ("tacc_engaged_ms", "INTEGER"),
    ("fsd_distance_m", "REAL"),
    ("autosteer_distance_m", "REAL"),
    ("tacc_distance_m", "REAL"),
    ("assisted_distance_m", "REAL"),
    ("fsd_disengagements", "INTEGER"),
    ("fsd_accel_pushes", "INTEGER"),
    ("start_lat", "REAL"),
    ("start_lon", "REAL"),
    ("end_lat", "REAL"),
    ("end_lon", "REAL"),
];

/// A stored version is older than `target`; what is no version counts as older.
pub open spec fn is_older(stored: Seq<char>, target: int) -> bool {
    match spelled(trimmed(stored), true) {
        Some(n) => n < target || n > i32::MAX || n < i32::MIN,
        None => true,
    }
}

/// Whether a stored version is older than `target`.
pub fn stored_less_than(stored: &str, target: i32) -> (r: bool)
    ensures
        r == is_older(stored@, target as int),
{
    let cs: Vec<char> = trim(stored);
    match parse_signed(cs.as_slice(), i32::MAX as i64) {
        Some(n) => n < target as i64,
        None => true,
    }
}

/// The version to write, given the stored one: the current one where there is
/// none or an older one. A newer one is left alone.
pub open spec fn version_step(stored: Option<Seq<char>>) -> Option<Seq<char>> {
    if stored matches Some(s) && !is_older(s, CURRENT_SCHEMA_VERSION as int) {
        None
    } else {
        Some(signed_decimal(CURRENT_SCHEMA_VERSION as int))
    }
}

/// The version to write, if any.
pub fn version_to_write(stored: Option<&str>) -> (r: Option<String>)
    ensures
        text_view(r) == version_step(
            match stored {
                Some(s) => Some(s@),
                None => None,
            },
        ),
{
    let write: bool = match stored {
        Some(s) => stored_less_than(s, CURRENT_SCHEMA_VERSION),
        None => true,
    };
    if write {
        Some(show_int(CURRENT_SCHEMA_VERSION as i64))
    } else {
        None
    }
}

/// The statement that adds aggregate column `i`.
pub open spec fn alter_text(i: int) -> Seq<char> {
    "ALTER TABLE routes ADD COLUMN "@ + V2_ROUTE_AGGREGATE_COLUMNS[i].0@ + " "@
        + V2_ROUTE_AGGREGATE_COLUMNS[i].1@
}

/// The statements for those of the first `n` aggregate columns that `existing`
/// lacks.
pub open spec fn alter_steps(existing: Seq<Seq<char>>, n: int) -> Seq<Seq<char>>
    decreases n,
{
    if n <= 0 {
        Seq::empty()
    } else if existing.contains(V2_ROUTE_AGGREGATE_COLUMNS[n - 1].0@) {
        alter_steps(existing, n - 1)
    } else {
        alter_steps(existing, n - 1).push(alter_text(n - 1))
    }
}

/// The statements that add the aggregate columns a table lacks.
pub fn columns_to_add(existing: &Vec<String>) -> (r: Vec<String>)
    ensures
        texts(r@) == alter_steps(texts(existing@), 17),
{
    let table: [(&'static str, &'static str); 17] = V2_ROUTE_AGGREGATE_COLUMNS;
    let mut out: Vec<String> = Vec::new();
    let mut i: usize = 0;
    proof {
        assert(texts(out@) =~= alter_steps(texts(existing@), 0));
    }
    while i < 17
        invariant
            i <= 17,
            table == V2_ROUTE_AGGREGATE_COLUMNS,
            texts(out@) == alter_steps(texts(existing@), i as int),
        decreases 17 - i,
    {
        if !lists(existing, table[i].0) {
            let mut sql: String = String::new();
            push_text(&mut sql, "ALTER TABLE routes ADD COLUMN ");
            push_text(&mut sql, table[i].0);
            push_text(&mut sql, " ");
            push_text(&mut sql, table[i].1);
            let ghost before = texts(out@);
            proof {
                assert(sql@ =~= alter_text(i as int));
            }
            out.push(sql);
            proof {
                assert(texts(out@) =~= before.push(sql@));
            }
        }
        i = i + 1;
    }
    out
}

/// The text itself where it takes at most `max_len` bytes, else its first
/// `max_len` bytes and three dots.
pub open spec fn is_truncated(s: Seq<char>, max_len: int, out: Seq<char>) -> bool {
    if utf8_length(s, s.len() as int) <= max_len {
        out == s
    } else {
        exists|n: int| #[trigger] cut_at(s, max_len, n) && out == s.take(n) + "..."@
    }
}

/// Shortens a text to `max_len` bytes, which must not end within a character.
pub fn truncate(s: &str, max_len: usize) -> (r: String)
    requires
        utf8_length(s@, s@.len() as int) > max_len ==> exists|n: int| cut_at(s@, max_len as int, n),
    ensures
        is_truncated(s@, max_len as int, r@),
{
    let cs: Vec<char> = chars_of(s);
    match chars_in_bytes(cs.as_slice(), max_len) {
        Some(n) => {
            if n == cs.len() {
                s.to_string()
            } else {
                proof {
                    lemma_utf8_grows(cs@, n as int, cs@.len() as int);
                }
                let head: Vec<char> = copy_range(cs.as_slice(), 0, n);
                let mut out: String = text_of(head.as_slice());
                push_text(&mut out, "...");
                proof {
                    assert(head@ =~= s@.take(n as int));
                    assert(cut_at(s@, max_len as int, n as int));
                }
                out
            }
        },
        None => {
            proof {
                if utf8_length(s@, s@.len() as int) > max_len {
                    let n = choose|n: int| cut_at(s@, max_len as int, n);
                    assert(cut_at(cs@, max_len as int, n));
                }
            }
            s.to_string()
        },
    }
}

// ---------------------------------------------------------------------------
// Laws
// ---------------------------------------------------------------------------

/// Migrating twice writes the version once: what was written is not older.
pub proof fn law_migration_settles(stored: Option<Seq<char>>)
    ensures
        version_step(stored) matches Some(v) ==> version_step(Some(v)) is None,
{
    law_decimal_reads_back(CURRENT_SCHEMA_VERSION as int);
}

/// A version from the future stays as it is.
pub proof fn law_newer_versions_stay(n: int)
    requires
        CURRENT_SCHEMA_VERSION <= n <= i32::MAX,
    ensures
        version_step(Some(signed_decimal(n))) is None,
{
    law_decimal_reads_back(n);
}

/// A table with all aggregate columns needs none added.
pub proof fn law_complete_tables_stay(existing: Seq<Seq<char>>, n: int)
    requires
        0 <= n <= 17,
        forall|i: int|
            0 <= i < 17 ==> existing.contains(#[trigger] V2_ROUTE_AGGREGATE_COLUMNS[i].0@),
    ensures
        alter_steps(existing, n).len() == 0,
    decreases n,
{
    if n > 0 {
        law_complete_tables_stay(existing, n - 1);
        assert(existing.contains(V2_ROUTE_AGGREGATE_COLUMNS[n - 1].0@));
    }
}

} // verus!
