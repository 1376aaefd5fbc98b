//! Bookkeeping of a backup import.

use crate::candidates::lists;
use crate::store::{canonical, normalize_path};
use crate::summary::texts;
use crate::text::{same_text, trim, trimmed};
use vstd::prelude::*;

verus! {

/// At most so many examples are kept.
pub const EXAMPLE_LIMIT: usize = 20;

/// At most so many imports are remembered.
pub const IMPORT_HISTORY_MAX: usize = 20;

/// Below so many stored clips every import is let through.
pub const SYNCGUARD_MIN_ROUTES: i64 = 1_000;

/// An import must hold this share (one half) of the stored clips.
pub const SYNCGUARD_SHRINK_RATIO: u64 = 0x3FE0_0000_0000_0000;

/// Progress is reported after every so many clips.
pub const PROGRESS_EVERY: usize = 50;

/// What an import brought.
#[derive(Clone, Copy, Debug, PartialEq, Eq, Structural)]
pub struct ImportStats {
    pub routes: usize,
    pub processed_files: usize,
    pub drive_tags: usize,
    pub telemetry_samples: usize,
    pub charge_tags: usize,
    pub charge_costs: usize,
}

impl Default for ImportStats {
    fn default() -> (r: ImportStats)
        ensures
            r == (ImportStats {
                routes: 0,
                processed_files: 0,
                drive_tags: 0,
                telemetry_samples: 0,
                charge_tags: 0,
                charge_costs: 0,
            }),
    {
        ImportStats {
            routes: 0,
            processed_files: 0,
            drive_tags: 0,
            telemetry_samples: 0,
            charge_tags: 0,
            charge_costs: 0,
        }
    }
}

/// Odd clips met by an import. They are stored all the same.
#[derive(Clone, Debug)]
pub struct ImportDiagnostics {
    /// Clips met.
    pub seen: usize,
    /// Clips without points.
    pub empty_points: usize,
    /// Clips without a date.
    pub empty_date: usize,
    /// Clips with the key of an earlier one.
    pub duplicate_files_in_json: usize,
    /// The first few files among these.
    pub bad_examples: Vec<String>,
}

impl Default for ImportDiagnostics {
    fn default() -> (r: ImportDiagnostics)
        ensures
            r.seen == 0,
            r.empty_points == 0,
            r.empty_date == 0,
            r.duplicate_files_in_json == 0,
            r.bad_examples@.len() == 0,
    {
        ImportDiagnostics {
            seen: 0,
            empty_points: 0,
            empty_date: 0,
            duplicate_files_in_json: 0,
            bad_examples: Vec::new(),
        }
    }
}

/// `examples` with one more, where there is room.
pub open spec fn with_example(examples: Seq<Seq<char>>, file: Seq<char>) -> Seq<Seq<char>> {
    if examples.len() < EXAMPLE_LIMIT {
        examples.push(file)
    } else {
        examples
    }
}

impl ImportDiagnostics {
    /// Keeps a file as an example, where there is room.
    pub fn record_example(&mut self, file: &str)
        ensures
            texts(final(self).bad_examples@) == with_example(texts(old(self).bad_examples@), file@),
            final(self).seen == old(self).seen,
            final(self).empty_points == old(self).empty_points,
            final(self).empty_date == old(self).empty_date,
            final(self).duplicate_files_in_json == old(self).duplicate_files_in_json,
    {
        if self.bad_examples.len() < EXAMPLE_LIMIT {
            let ghost before = texts(self.bad_examples@);
            self.bad_examples.push(file.to_string());
            proof {
                assert(texts(self.bad_examples@) =~= before.push(file@));
            }
        }
    }

    /// Whether any clip was odd.
    pub fn has_problems(&self) -> (b: bool)
        ensures
            b == (self.empty_points > 0 || self.empty_date > 0 || self.duplicate_files_in_json > 0),
    {
        self.empty_points > 0 || self.empty_date > 0 || self.duplicate_files_in_json > 0
    }
}

/// One import that was done.
#[derive(Clone, Debug)]
pub struct ImportHistoryEntry {
    /// Seconds since 1970.
    pub timestamp: i64,
    pub stats: ImportStats,
    pub diagnostics: ImportDiagnostics,
}

/// The last `max` members.
pub open spec fn tail_of<T>(s: Seq<T>, max: int) -> Seq<T> {
    if s.len() <= max {
        s
    } else {
        s.skip(s.len() - max)
    }
}

/// Remembers an import; the oldest ones are forgotten.
pub fn remember_import(
    history: Vec<ImportHistoryEntry>,
    entry: ImportHistoryEntry,
) -> (r: Vec<ImportHistoryEntry>)
    ensures
        r@ == tail_of(history@.push(entry), IMPORT_HISTORY_MAX as int),
{
    let ghost all = history@.push(entry);
    let mut out: Vec<ImportHistoryEntry> = history;
    out.push(entry);
    proof {
        assert(all.skip(0) =~= all);
    }
    let ghost mut dropped: int = 0;
    while out.len() > IMPORT_HISTORY_MAX
        invariant
            0 <= dropped <= all.len(),
            out@ == all.skip(dropped),
            dropped > 0 ==> out@.len() >= IMPORT_HISTORY_MAX,
        decreases out.len(),
    {
        out.remove(0);
        proof {
            dropped = dropped + 1;
            assert(out@ =~= all.skip(dropped));
        }
    }
    out
}

// ---------------------------------------------------------------------------
// Clips
// ---------------------------------------------------------------------------

/// An import under way.
#[derive(Clone, Debug)]
pub struct ImportWalk {
    pub stats: ImportStats,
    pub diag: ImportDiagnostics,
    /// Keys of the clips met.
    pub keys: Vec<String>,
}

/// What is known of an import, as plain values.
pub struct ImportView {
    pub seen: int,
    pub empty_points: int,
    pub empty_date: int,
    pub duplicates: int,
    pub examples: Seq<Seq<char>>,
    pub keys: Seq<Seq<char>>,
}

/// What is told of one clip.
pub struct ClipFacts {
    pub file: Seq<char>,
    pub has_points: bool,
    pub date: Seq<char>,
}

/// The clip is odd.
pub open spec fn is_odd(v: ImportView, c: ClipFacts) -> bool {
    !c.has_points || trimmed(c.date).len() == 0 || v.keys.contains(canonical(c.file))
}

/// After one more clip.
pub open spec fn after_clip(v: ImportView, c: ClipFacts) -> ImportView {
    let twin = v.keys.contains(canonical(c.file));
    ImportView {
        seen: v.seen + 1,
        empty_points: v.empty_points + if c.has_points {
            0int
        } else {
            1int
        },
        empty_date: v.empty_date + if trimmed(c.date).len() == 0 {
            1int
        } else {
            0int
        },
        duplicates: v.duplicates + if twin {
            1int
        } else {
            0int
        },
        examples: if is_odd(v, c) {
            with_example(v.examples, c.file)
        } else {
            v.examples
        },
        keys: if twin {
            v.keys
        } else {
            v.keys.push(canonical(c.file))
        },
    }
}

/// After the first `n` clips.
pub open spec fn after_clips(v: ImportView, clips: Seq<ClipFacts>, n: int) -> ImportView
    decreases n,
{
    if n <= 0 {
        v
    } else {
        after_clip(after_clips(v, clips, n - 1), clips[n - 1])
    }
}

/// Sum held within the range of `usize`.
pub open spec fn hold_add(a: int, b: int) -> int {
    if a + b > usize::MAX {
        usize::MAX as int
    } else {
        a + b
    }
}

fn held_add(a: usize, b: usize) -> (r: usize)
    ensures
        r == hold_add(a as int, b as int),
{
    if usize::MAX - a < b {
        usize::MAX
    } else {
        a + b
    }
}

/// Parts of a backup.
#[derive(Clone, Copy, Debug, PartialEq, Eq, Structural)]
pub enum Section {
    ProcessedFiles,
    Routes,
    DriveTags,
    TelemetrySamples,
    ChargeTags,
    ChargeCosts,
    Unknown,
}

/// The part that a top-level key names.
pub open spec fn section_named(key: Seq<char>) -> Section {
    if key == "processedFiles"@ {
        Section::ProcessedFiles
    } else if key == "routes"@ {
        Section::Routes
    } else if key == "driveTags"@ {
        Section::DriveTags
    } else if key == "telemetrySamples"@ {
        Section::TelemetrySamples
    } else if key == "chargeTags"@ {
        Section::ChargeTags
    } else if key == "chargeCosts"@ {
        Section::ChargeCosts
    } else {
        Section::Unknown
    }
}

/// The part that a top-level key names.
pub fn section_of(key: &str) -> (r: Section)
    ensures
        r == section_named(key@),
{
    if same_text(key, "processedFiles") {
        Section::ProcessedFiles
    } else if same_text(key, "routes") {
        Section::Routes
    } else if same_text(key, "driveTags") {
        Section::DriveTags
    } else if same_text(key, "telemetrySamples") {
        Section::TelemetrySamples
    } else if same_text(key, "chargeTags") {
        Section::ChargeTags
    } else if same_text(key, "chargeCosts") {
        Section::ChargeCosts
    } else {
        Section::Unknown
    }
}

impl ImportWalk {
    pub open spec fn view(&self) -> ImportView {
        ImportView {
            seen: self.diag.seen as int,
            empty_points: self.diag.empty_points as int,
            empty_date: self.diag.empty_date as int,
            duplicates: self.diag.duplicate_files_in_json as int,
            examples: texts(self.diag.bad_examples@),
            keys: texts(self.keys@),
        }
    }

    /// Every clip is counted, and no finding counts more clips than there were.
    pub open spec fn wf(&self) -> bool {
        &&& self.stats.routes == self.diag.seen
        &&& self.diag.empty_points <= self.diag.seen
        &&& self.diag.empty_date <= self.diag.seen
        &&& self.diag.duplicate_files_in_json <= self.diag.seen
        &&& self.diag.bad_examples@.len() <= EXAMPLE_LIMIT
    }

    pub fn new() -> (w: ImportWalk)
        ensures
            w.wf(),
            w@ == (ImportView {
                seen: 0,
                empty_points: 0,
                empty_date: 0,
                duplicates: 0,
                examples: Seq::empty(),
                keys: Seq::empty(),
            }),
            w.stats == (ImportStats {
                routes: 0,
                processed_files: 0,
                drive_tags: 0,
                telemetry_samples: 0,
                charge_tags: 0,
                charge_costs: 0,
            }),
    {
        let w: ImportWalk = ImportWalk {
            stats: ImportStats::default(),
            diag: ImportDiagnostics::default(),
            keys: Vec::new(),
        };
        proof {
            assert(texts(w.diag.bad_examples@) =~= Seq::<Seq<char>>::empty());
            assert(texts(w.keys@) =~= Seq::<Seq<char>>::empty());
        }
        w
    }

    /// Takes one clip into account: whether progress is due.
    pub fn see_route(&mut self, file: &str, points: usize, date: &str) -> (due: bool)
        requires
            old(self).wf(),
            old(self).stats.routes < usize::MAX,
        ensures
            final(self).wf(),
            final(self)@ == after_clip(
                old(self)@,
                ClipFacts { file: file@, has_points: points > 0, date: date@ },
            ),
            final(self).stats == (ImportStats {
                routes: (old(self).stats.routes + 1) as usize,
                ..old(self).stats
            }),
            due == (final(self).stats.routes as int % PROGRESS_EVERY as int == 0),
    {
        let ghost v = self@;
        let ghost c = ClipFacts { file: file@, has_points: points > 0, date: date@ };
        self.diag.seen = self.diag.seen + 1;
        let mut odd: bool = false;
        if points == 0 {
            self.diag.empty_points = self.diag.empty_points + 1;
            odd = true;
        }
        let core: Vec<char> = trim(date);
        if core.len() == 0 {
            self.diag.empty_date = self.diag.empty_date + 1;
            odd = true;
        }
        let key: String = normalize_path(file);
        if lists(&self.keys, key.as_str()) {
            self.diag.duplicate_files_in_json = self.diag.duplicate_files_in_json + 1;
            odd = true;
        } else {
            self.keys.push(key);
            proof {
                assert(texts(self.keys@) =~= v.keys.push(key@));
            }
        }
        if odd {
            self.diag.record_example(file);
        }
        self.stats.routes = self.stats.routes + 1;
        proof {
            assert(texts(self.diag.bad_examples@).len() == self.diag.bad_examples@.len());
        }
        self.stats.routes % PROGRESS_EVERY == 0
    }

    /// Takes a part into account that held `count` entries. A repeated part of
    /// processed files or drive tags counts anew, a repeated part of the others
    /// adds up.
    pub fn note_section(&mut self, section: Section, count: usize)
        ensures
            final(self).diag == old(self).diag,
            final(self).keys == old(self).keys,
            final(self).stats == ({
                let s = old(self).stats;
                match section {
                    Section::ProcessedFiles => ImportStats { processed_files: count, ..s },
                    Section::DriveTags => ImportStats { drive_tags: count, ..s },
                    Section::TelemetrySamples => ImportStats {
                        telemetry_samples: hold_add(s.telemetry_samples as int, count as int) as usize,
                        ..s
                    },
                    Section::ChargeTags => ImportStats {
                        charge_tags: hold_add(s.charge_tags as int, count as int) as usize,
                        ..s
                    },
                    Section::ChargeCosts => ImportStats {
                        charge_costs: hold_add(s.charge_costs as int, count as int) as usize,
                        ..s
                    },
                    Section::Routes => s,
                    Section::Unknown => s,
                }
            }),
    {
        match section {
            Section::ProcessedFiles => {
                self.stats.processed_files = count;
            },
            Section::DriveTags => {
                self.stats.drive_tags = count;
            },
            Section::TelemetrySamples => {
                self.stats.telemetry_samples = held_add(self.stats.telemetry_samples, count);
            },
            Section::ChargeTags => {
                self.stats.charge_tags = held_add(self.stats.charge_tags, count);
            },
            Section::ChargeCosts => {
                self.stats.charge_costs = held_add(self.stats.charge_costs, count);
            },
            Section::Routes => {},
            Section::Unknown => {},
        }
    }
}

// ---------------------------------------------------------------------------
// The file, and the guard
// ---------------------------------------------------------------------------

/// How many leading bytes are a byte order mark.
pub fn bom_length(head: &[u8]) -> (n: usize)
    ensures
        n == if head@.len() >= 3 && head@[0] == 0xEF && head@[1] == 0xBB && head@[2] == 0xBF {
            3int
        } else {
            0int
        },
{
    if head.len() >= 3 && head[0] == 0xEF && head[1] == 0xBB && head[2] == 0xBF {
        3
    } else {
        0
    }
}

/// An import that was refused.
#[derive(Clone, Copy, Debug, PartialEq, Eq, Structural)]
pub struct ShrinkError {
    pub existing: i64,
    pub routes: usize,
}

/// An import of `routes` clips into a large store of `existing` holds less than half
/// as many.
pub open spec fn shrinks(existing: int, routes: int) -> bool {
    existing >= SYNCGUARD_MIN_ROUTES && 2 * routes < existing
}

/// Refuses an import that would replace a large store by a much smaller one.
pub fn check_import_shrink(existing: i64, routes: usize) -> (r: Result<(), ShrinkError>)
    ensures
        match r {
            Ok(_) => !shrinks(existing as int, routes as int),
            Err(e) => shrinks(existing as int, routes as int) && e.existing == existing && e.routes
                == routes,
        },
{
    if existing >= SYNCGUARD_MIN_ROUTES && 2 * (routes as i128) < existing as i128 {
        Err(ShrinkError { existing, routes })
    } else {
        Ok(())
    }
}

// ---------------------------------------------------------------------------
// Laws
// ---------------------------------------------------------------------------

/// An import that met nothing yet.
pub open spec fn fresh_import() -> ImportView {
    ImportView {
        seen: 0,
        empty_points: 0,
        empty_date: 0,
        duplicates: 0,
        examples: Seq::empty(),
        keys: Seq::empty(),
    }
}

/// The clip has points, a date and a key of its own.
pub open spec fn is_clean(clips: Seq<ClipFacts>, i: int) -> bool {
    &&& clips[i].has_points
    &&& trimmed(clips[i].date).len() > 0
    &&& forall|j: int|
        0 <= j < i ==> canonical((#[trigger] clips[j]).file) != canonical(clips[i].file)
}

proof fn lemma_keys_met(clips: Seq<ClipFacts>, n: int, key: Seq<char>)
    requires
        0 <= n <= clips.len(),
    ensures
        after_clips(fresh_import(), clips, n).keys.contains(key) <==> exists|j: int|
            0 <= j < n && canonical((#[trigger] clips[j]).file) == key,
    decreases n,
{
    if n > 0 {
        lemma_keys_met(clips, n - 1, key);
        lemma_keys_met(clips, n - 1, canonical(clips[n - 1].file));
        let before = after_clips(fresh_import(), clips, n - 1).keys;
        let after = after_clips(fresh_import(), clips, n).keys;
        let new = canonical(clips[n - 1].file);
        if !before.contains(new) {
            assert(after == before.push(new));
            assert(after[before.len() as int] == new);
            if before.contains(key) {
                let i = choose|i: int| 0 <= i < before.len() && before[i] == key;
                assert(after[i] == key);
            }
            if after.contains(key) && key != new {
                let i = choose|i: int| 0 <= i < after.len() && after[i] == key;
                assert(before[i] == key);
            }
        }
        if key == new {
            assert(canonical(clips[n - 1].file) == key);
        }
    }
}

/// Every clip is counted, clean or not, and an import reports no problem exactly
/// where every clip was clean.
pub proof fn law_import_reports_every_problem(clips: Seq<ClipFacts>, n: int)
    requires
        0 <= n <= clips.len(),
    ensures
        ({
            let v = after_clips(fresh_import(), clips, n);
            &&& v.seen == n
            &&& v.empty_points >= 0 && v.empty_date >= 0 && v.duplicates >= 0
            &&& (v.empty_points == 0 && v.empty_date == 0 && v.duplicates == 0) <==> (forall|i: int|
                0 <= i < n ==> #[trigger] is_clean(clips, i))
        }),
    decreases n,
{
    if n > 0 {
        law_import_reports_every_problem(clips, n - 1);
        lemma_keys_met(clips, n - 1, canonical(clips[n - 1].file));
        let v = after_clips(fresh_import(), clips, n);
        if v.empty_points == 0 && v.empty_date == 0 && v.duplicates == 0 {
            assert forall|i: int| 0 <= i < n implies #[trigger] is_clean(clips, i) by {
                if i == n - 1 {
                    assert(is_clean(clips, n - 1));
                }
            }
        } else if forall|i: int| 0 <= i < n ==> #[trigger] is_clean(clips, i) {
            assert(is_clean(clips, n - 1));
            assert forall|i: int| 0 <= i < n - 1 implies #[trigger] is_clean(clips, i) by {
                assert(is_clean(clips, i));
            }
        }
    }
}

/// An import that one store takes, a smaller store takes too, and every store that
/// takes it takes one with more clips.
pub proof fn law_fuller_imports_are_taken(existing: int, routes: int, smaller: int, more: int)
    requires
        !shrinks(existing, routes),
        smaller <= existing,
        routes <= more,
    ensures
        !shrinks(smaller, more),
{
}

} // verus!
