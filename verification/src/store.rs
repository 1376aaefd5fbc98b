//! Decisions of the drive store: keys, caches, archive copies, tags.

use crate::candidates::lists;
use crate::summary::{text_view, texts};
use crate::syncguard::SyncGuardError;
use crate::text::{
    begins_with, chars_of, copy_range, digit, digit_char, law_decimal_reads_back, parse_signed,
    push_signed, push_text, same_text, show_int, signed_decimal, slashed, slashed_chars, spelled,
    text_of, trim, trimmed,
};
use crate::types::{Route, TagEntry};
use vstd::prelude::*;

verus! {

/// Version of the drive list that caches are built with.
pub const DRIVE_LIST_CACHE_ALGO_VERSION: &'static str = "6";

/// Version of the aggregate formula.
pub const AGGREGATE_FORMULA_VERSION: &'static str = "boundary-3";

/// Version of the clip key format.
pub const ROUTE_KEY_FORMAT_VERSION: &'static str = "canon-1";

// ---------------------------------------------------------------------------
// Keys
// ---------------------------------------------------------------------------

/// The key of a clip: forward slashes, and no leading `RecentClips/` unless
/// nothing follows it.
pub open spec fn canonical(path: Seq<char>) -> Seq<char> {
    let s = slashed(path);
    if "RecentClips/"@.is_prefix_of(s) && s.len() > "RecentClips/"@.len() {
        s.skip("RecentClips/"@.len() as int)
    } else {
        s
    }
}

/// The key of a clip.
pub fn normalize_path(p: &str) -> (r: String)
    ensures
        r@ == canonical(p@),
{
    proof {
        reveal_strlit("RecentClips/");
    }
    let cs: Vec<char> = slashed_chars(p);
    if begins_with(cs.as_slice(), "RecentClips/") && cs.len() > 12 {
        let rest: Vec<char> = copy_range(cs.as_slice(), 12, cs.len());
        proof {
            assert(rest@ =~= canonical(p@));
        }
        text_of(rest.as_slice())
    } else {
        text_of(cs.as_slice())
    }
}

/// Keys of many paths.
pub open spec fn canonicals(paths: Seq<Seq<char>>) -> Seq<Seq<char>> {
    Seq::new(paths.len(), |i: int| canonical(paths[i]))
}

/// The first `n` texts, each once.
pub open spec fn distinct(s: Seq<Seq<char>>, n: int) -> Seq<Seq<char>>
    decreases n,
{
    if n <= 0 {
        Seq::empty()
    } else if distinct(s, n - 1).contains(s[n - 1]) {
        distinct(s, n - 1)
    } else {
        distinct(s, n - 1).push(s[n - 1])
    }
}

/// Files of the clips.
pub open spec fn files_in(routes: Seq<Route>) -> Seq<Seq<char>> {
    Seq::new(routes.len(), |i: int| routes[i].file@)
}

fn add_key(out: &mut Vec<String>, path: &str)
    ensures
        texts(final(out)@) == if texts(old(out)@).contains(canonical(path@)) {
            texts(old(out)@)
        } else {
            texts(old(out)@).push(canonical(path@))
        },
{
    let ghost before = texts(out@);
    let key: String = normalize_path(path);
    if !lists(out, key.as_str()) {
        out.push(key);
        proof {
            assert(texts(out@) =~= before.push(key@));
        }
    }
}

/// Keys to mark processed when a store is replaced: those of the processed files
/// and then those of the clips, each once.
pub fn processed_keys(processed: &Vec<String>, routes: &[Route]) -> (r: Vec<String>)
    ensures
        ({
            let all = canonicals(texts(processed@) + files_in(routes@));
            texts(r@) == distinct(all, all.len() as int)
        }),
{
    let ghost all = canonicals(texts(processed@) + files_in(routes@));
    let mut out: Vec<String> = Vec::new();
    let mut i: usize = 0;
    proof {
        assert(texts(out@) =~= distinct(all, 0));
    }
    while i < processed.len()
        invariant
            i <= processed@.len(),
            all == canonicals(texts(processed@) + files_in(routes@)),
            texts(out@) == distinct(all, i as int),
        decreases processed.len() - i,
    {
        add_key(&mut out, processed[i].as_str());
        proof {
            assert(all[i as int] == canonical(processed@[i as int]@));
        }
        i = i + 1;
    }
    let mut j: usize = 0;
    while j < routes.len()
        invariant
            j <= routes@.len(),
            i == processed@.len(),
            all == canonicals(texts(processed@) + files_in(routes@)),
            texts(out@) == distinct(all, i + j),
        decreases routes.len() - j,
    {
        add_key(&mut out, routes[j].file.as_str());
        proof {
            assert(all[i + j] == canonical(routes@[j as int].file@));
        }
        j = j + 1;
    }
    out
}

// ---------------------------------------------------------------------------
// Rewriting of keys
// ---------------------------------------------------------------------------

/// What becomes of a stored clip when keys are brought to the canonical form.
#[derive(Clone, Copy, Debug, PartialEq, Eq, Structural)]
pub enum KeyStep {
    /// Stays as it is.
    Keep,
    /// Goes: an event clip, or the imported twin of a recorded one.
    Delete,
    /// Gets its canonical key.
    Rename,
}

/// A letter in lower case; other characters unchanged.
pub open spec fn lower(c: char) -> char {
    if 'A' <= c <= 'Z' {
        (c as u32 + 32) as char
    } else {
        c
    }
}

/// `s` begins with `prefix` when letters of either case are equal.
pub open spec fn begins_loosely(s: Seq<char>, prefix: Seq<char>) -> bool {
    prefix.len() <= s.len() && forall|i: int|
        0 <= i < prefix.len() ==> lower(#[trigger] s[i]) == lower(prefix[i])
}

/// A clip of an event folder.
pub open spec fn is_event_key(s: Seq<char>) -> bool {
    begins_loosely(s, "SavedClips/"@) || begins_loosely(s, "SentryClips/"@)
}

pub open spec fn is_recent_key(s: Seq<char>) -> bool {
    begins_loosely(s, "RecentClips/"@)
}

/// What becomes of clip `i`.
pub open spec fn key_step(files: Seq<Seq<char>>, i: int) -> KeyStep {
    if is_event_key(files[i]) {
        KeyStep::Delete
    } else if is_recent_key(files[i]) {
        KeyStep::Rename
    } else if files.contains("RecentClips/"@ + files[i]) {
        KeyStep::Delete
    } else {
        KeyStep::Keep
    }
}

fn lower_char(c: char) -> (r: char)
    ensures
        r == lower(c),
{
    if c == 'A' {
        'a'
    } else if c == 'B' {
        'b'
    } else if c == 'C' {
        'c'
    } else if c == 'D' {
        'd'
    } else if c == 'E' {
        'e'
    } else if c == 'F' {
        'f'
    } else if c == 'G' {
        'g'
    } else if c == 'H' {
        'h'
    } else if c == 'I' {
        'i'
    } else if c == 'J' {
        'j'
    } else if c == 'K' {
        'k'
    } else if c == 'L' {
        'l'
    } else if c == 'M' {
        'm'
    } else if c == 'N' {
        'n'
    } else if c == 'O' {
        'o'
    } else if c == 'P' {
        'p'
    } else if c == 'Q' {
        'q'
    } else if c == 'R' {
        'r'
    } else if c == 'S' {
        's'
    } else if c == 'T' {
        't'
    } else if c == 'U' {
        'u'
    } else if c == 'V' {
        'v'
    } else if c == 'W' {
        'w'
    } else if c == 'X' {
        'x'
    } else if c == 'Y' {
        'y'
    } else if c == 'Z' {
        'z'
    } else {
        c
    }
}

fn begins_with_loosely(cs: &[char], prefix: &str) -> (r: bool)
    ensures
        r == begins_loosely(cs@, prefix@),
{
    let ps: Vec<char> = chars_of(prefix);
    if cs.len() < ps.len() {
        return false;
    }
    let mut i: usize = 0;
    while i < ps.len()
        invariant
            ps@ == prefix@,
            i <= ps@.len() <= cs@.len(),
            forall|k: int| 0 <= k < i ==> lower(#[trigger] cs@[k]) == lower(ps@[k]),
        decreases ps.len() - i,
    {
        if lower_char(cs[i]) != lower_char(ps[i]) {
            proof {
                assert(lower(cs@[i as int]) != lower(prefix@[i as int]));
            }
            return false;
        }
        i = i + 1;
    }
    true
}

/// What becomes of each stored clip.
pub fn plan_key_rewrite(files: &Vec<String>) -> (r: Vec<KeyStep>)
    ensures
        r@ == Seq::new(files@.len(), |i: int| key_step(texts(files@), i)),
{
    let mut out: Vec<KeyStep> = Vec::new();
    let mut i: usize = 0;
    while i < files.len()
        invariant
            i <= files@.len(),
            out@.len() == i,
            forall|k: int| 0 <= k < i ==> #[trigger] out@[k] == key_step(texts(files@), k),
        decreases files.len() - i,
    {
        let cs: Vec<char> = chars_of(files[i].as_str());
        proof {
            assert(texts(files@)[i as int] == cs@);
        }
        let step: KeyStep = if begins_with_loosely(cs.as_slice(), "SavedClips/")
            || begins_with_loosely(cs.as_slice(), "SentryClips/") {
            KeyStep::Delete
        } else if begins_with_loosely(cs.as_slice(), "RecentClips/") {
            KeyStep::Rename
        } else {
            let mut twin: String = String::new();
            push_text(&mut twin, "RecentClips/");
            push_text(&mut twin, files[i].as_str());
            proof {
                assert(twin@ =~= "RecentClips/"@ + cs@);
            }
            if lists(files, twin.as_str()) {
                KeyStep::Delete
            } else {
                KeyStep::Keep
            }
        };
        out.push(step);
        i = i + 1;
    }
    proof {
        assert(out@ =~= Seq::new(files@.len(), |i: int| key_step(texts(files@), i)));
    }
    out
}

// ---------------------------------------------------------------------------
// Caches
// ---------------------------------------------------------------------------

/// What the store recorded when it built its caches.
#[derive(Clone, Debug)]
pub struct CacheMarkers {
    pub drive_list: Option<String>,
    pub route_count: Option<String>,
    pub tags_count: Option<String>,
    pub algo: Option<String>,
    pub max_updated_at: Option<String>,
}

/// What the tables hold now.
#[derive(Clone, Copy, Debug, PartialEq, Eq, Structural)]
pub struct LiveCounts {
    pub route_count: i64,
    pub tags_count: i64,
    pub max_updated_at: i64,
}

/// The number that a recorded text spells.
pub open spec fn recorded_number(text: Option<Seq<char>>) -> Option<int> {
    match text {
        Some(t) => match spelled(t, true) {
            Some(n) if i64::MIN <= n <= i64::MAX => Some(n),
            _ => None,
        },
        None => None,
    }
}

/// The caches tell of what the tables hold.
pub open spec fn cache_matches(m: CacheMarkers, live: LiveCounts) -> bool {
    &&& m.drive_list matches Some(t) && t@.len() > 0
    &&& recorded_number(text_view(m.route_count)) == Some(live.route_count as int)
    &&& recorded_number(text_view(m.tags_count)) == Some(live.tags_count as int)
    &&& text_view(m.algo) == Some(DRIVE_LIST_CACHE_ALGO_VERSION@)
    &&& recorded_number(text_view(m.max_updated_at)) == Some(live.max_updated_at as int)
}

fn read_number(text: &Option<String>) -> (r: Option<i64>)
    ensures
        match (r, recorded_number(text_view(*text))) {
            (Some(a), Some(b)) => a == b,
            (None, None) => true,
            _ => false,
        },
{
    match text {
        Some(t) => {
            let cs: Vec<char> = chars_of(t.as_str());
            parse_signed(cs.as_slice(), i64::MAX)
        },
        None => None,
    }
}

fn records(text: &Option<String>, n: i64) -> (b: bool)
    ensures
        b == (recorded_number(text_view(*text)) == Some(n as int)),
{
    match read_number(text) {
        Some(v) => v == n,
        None => false,
    }
}

/// Whether the caches tell of what the tables hold.
pub fn is_drive_cache_valid(m: &CacheMarkers, live: LiveCounts) -> (b: bool)
    ensures
        b == cache_matches(*m, live),
{
    let built: bool = match &m.drive_list {
        Some(t) => {
            let cs: Vec<char> = chars_of(t.as_str());
            cs.len() > 0
        },
        None => false,
    };
    let algo: bool = match &m.algo {
        Some(t) => same_text(t.as_str(), DRIVE_LIST_CACHE_ALGO_VERSION),
        None => false,
    };
    built && records(&m.route_count, live.route_count) && records(&m.tags_count, live.tags_count)
        && algo && records(&m.max_updated_at, live.max_updated_at)
}

/// What to record with caches built from `live`.
pub fn cache_markers(drive_list: String, live: LiveCounts) -> (m: CacheMarkers)
    ensures
        text_view(m.drive_list) == Some(drive_list@),
        text_view(m.route_count) == Some(signed_decimal(live.route_count as int)),
        text_view(m.tags_count) == Some(signed_decimal(live.tags_count as int)),
        text_view(m.algo) == Some(DRIVE_LIST_CACHE_ALGO_VERSION@),
        text_view(m.max_updated_at) == Some(signed_decimal(live.max_updated_at as int)),
{
    CacheMarkers {
        drive_list: Some(drive_list),
        route_count: Some(show_int(live.route_count)),
        tags_count: Some(show_int(live.tags_count)),
        algo: Some(DRIVE_LIST_CACHE_ALGO_VERSION.to_string()),
        max_updated_at: Some(show_int(live.max_updated_at)),
    }
}

/// Whether a cached text can be served: the store did not change and the text is
/// there. A text of `{}` counts as missing where `object` asks for content.
pub fn serves_cached(dirty: bool, cached: Option<&str>, object: bool) -> (b: bool)
    ensures
        b == (!dirty && match cached {
            Some(t) => t@.len() > 0 && !(object && trimmed(t@) == "{}"@),
            None => false,
        }),
{
    if dirty {
        return false;
    }
    match cached {
        Some(t) => {
            let cs: Vec<char> = chars_of(t);
            if cs.len() == 0 {
                false
            } else if object {
                let core: Vec<char> = trim(t);
                let text: String = text_of(core.as_slice());
                !same_text(text.as_str(), "{}")
            } else {
                true
            }
        },
        None => false,
    }
}

/// What opening a store has to bring up to date.
#[derive(Clone, Copy, Debug, PartialEq, Eq, Structural)]
pub struct LoadPlan {
    /// Bring clip keys to the canonical form.
    pub rewrite_keys: bool,
    /// Compute all aggregates anew.
    pub recompute: bool,
}

/// What opening a store has to bring up to date, given the recorded versions.
pub fn plan_load(key_format: Option<&str>, formula: Option<&str>) -> (p: LoadPlan)
    ensures
        p.rewrite_keys == !(key_format matches Some(t) && t@ == ROUTE_KEY_FORMAT_VERSION@),
        p.recompute == !(formula matches Some(t) && t@ == AGGREGATE_FORMULA_VERSION@),
{
    let keys_current: bool = match key_format {
        Some(t) => same_text(t, ROUTE_KEY_FORMAT_VERSION),
        None => false,
    };
    let formula_current: bool = match formula {
        Some(t) => same_text(t, AGGREGATE_FORMULA_VERSION),
        None => false,
    };
    LoadPlan { rewrite_keys: !keys_current, recompute: !formula_current }
}

/// Whether caches are built anew on opening: always after new aggregates, else
/// where they do not match.
pub fn rebuilds_on_load(p: LoadPlan, cache_valid: bool) -> (b: bool)
    ensures
        b == (p.recompute || !cache_valid),
{
    p.recompute || !cache_valid
}

// ---------------------------------------------------------------------------
// Archive copies
// ---------------------------------------------------------------------------

/// What a sync with the archive does.
#[derive(Clone, Copy, Debug, PartialEq, Eq, Structural)]
pub enum SyncStep {
    /// Copies the archive's file back.
    Restore,
    /// Nothing to push.
    Nothing,
    /// Nothing new since the last copy.
    Skip,
    /// Exports and copies.
    Export,
}

/// The archive's file is copied back: there is one, none here, and the store is
/// empty.
pub open spec fn restores(archive_exists: bool, mirror_exists: bool, routes: int) -> bool {
    archive_exists && !mirror_exists && routes <= 0
}

pub fn should_restore(archive_exists: bool, mirror_exists: bool, routes: i64) -> (b: bool)
    ensures
        b == restores(archive_exists, mirror_exists, routes as int),
{
    archive_exists && !mirror_exists && !(routes > 0)
}

/// What the store and the disk hold when a sync begins.
#[derive(Clone, Debug)]
pub struct SyncState {
    pub archive_exists: bool,
    pub mirror_exists: bool,
    pub routes: i64,
    pub samples: i64,
    /// Counts recorded by the last copy.
    pub last_routes: Option<String>,
    pub last_samples: Option<String>,
}

pub open spec fn sync_step(s: SyncState) -> SyncStep {
    if restores(s.archive_exists, s.mirror_exists, s.routes as int) {
        SyncStep::Restore
    } else if s.routes == 0 {
        SyncStep::Nothing
    } else if recorded_number(text_view(s.last_routes)) == Some(s.routes as int)
        && recorded_number(text_view(s.last_samples)) == Some(s.samples as int)
        && s.archive_exists {
        SyncStep::Skip
    } else {
        SyncStep::Export
    }
}

/// What a sync with the archive does.
pub fn plan_sync(s: &SyncState) -> (r: SyncStep)
    ensures
        r == sync_step(*s),
{
    if should_restore(s.archive_exists, s.mirror_exists, s.routes) {
        SyncStep::Restore
    } else if s.routes == 0 {
        SyncStep::Nothing
    } else if records(&s.last_routes, s.routes) && records(&s.last_samples, s.samples)
        && s.archive_exists {
        SyncStep::Skip
    } else {
        SyncStep::Export
    }
}

/// How a copy to the archive can fail.
#[derive(Clone, Copy, Debug)]
pub enum CopyError {
    /// The size guard refused it.
    Guard(SyncGuardError),
    /// Fewer bytes arrived than the file had.
    Short(i64, i64),
}

/// Whether a copy of `copied` bytes of a file of `size` bytes is complete.
pub fn check_copied(copied: i64, size: i64) -> (r: Result<(), CopyError>)
    ensures
        match r {
            Ok(_) => copied == size,
            Err(CopyError::Short(a, b)) => copied != size && a == copied && b == size,
            Err(CopyError::Guard(_)) => false,
        },
{
    if copied != size {
        Err(CopyError::Short(copied, size))
    } else {
        Ok(())
    }
}

// ---------------------------------------------------------------------------
// One-time import
// ---------------------------------------------------------------------------

/// What a first start imports.
#[derive(Clone, Copy, Debug, PartialEq, Eq, Structural)]
pub enum ImportChoice {
    /// An import was recorded already.
    Done,
    /// There is nothing to import; only record that.
    Fresh,
    /// The candidate at this position.
    From(usize),
}

/// The first candidate that is there, from position `i` on.
pub open spec fn first_present(present: Seq<bool>, i: int) -> Option<int>
    decreases present.len() - i,
{
    if i < 0 || i >= present.len() {
        None
    } else if present[i] {
        Some(i)
    } else {
        first_present(present, i + 1)
    }
}

/// What a first start imports: the first candidate that is there.
pub fn choose_import(imported_at: Option<&str>, present: &Vec<bool>) -> (r: ImportChoice)
    ensures
        r == if imported_at matches Some(t) && t@.len() > 0 {
            ImportChoice::Done
        } else {
            match first_present(present@, 0) {
                Some(i) => ImportChoice::From(i as usize),
                None => ImportChoice::Fresh,
            }
        },
{
    if let Some(t) = imported_at {
        let cs: Vec<char> = chars_of(t);
        if cs.len() > 0 {
            return ImportChoice::Done;
        }
    }
    let mut i: usize = 0;
    while i < present.len()
        invariant
            i <= present@.len(),
            !(imported_at matches Some(t) && t@.len() > 0),
            first_present(present@, 0) == first_present(present@, i as int),
        decreases present.len() - i,
    {
        if present[i] {
            return ImportChoice::From(i);
        }
        i = i + 1;
    }
    ImportChoice::Fresh
}

/// The clock, shifted and folded to sixteen bits.
pub open spec fn folded(nanos: u64) -> u16 {
    let a = nanos ^ (nanos >> 13);
    let b = a ^ (a << 7);
    let c = b ^ (b >> 17);
    (c & 0xffff) as u16
}

/// Four hexadecimal digits' worth of a clock, to tell backups apart.
pub fn rand_suffix4(nanos: u64) -> (r: u16)
    ensures
        r == folded(nanos),
{
    let a: u64 = nanos ^ (nanos >> 13);
    let b: u64 = a ^ (a << 7);
    let c: u64 = b ^ (b >> 17);
    (c & 0xffff) as u16
}

pub open spec fn hex_char(d: int) -> char {
    if d == 10 {
        'a'
    } else if d == 11 {
        'b'
    } else if d == 12 {
        'c'
    } else if d == 13 {
        'd'
    } else if d == 14 {
        'e'
    } else if d == 15 {
        'f'
    } else {
        digit_char(d)
    }
}

/// Four hexadecimal digits.
pub open spec fn hex4(v: int) -> Seq<char> {
    seq![
        hex_char(v / 4096 % 16),
        hex_char(v / 256 % 16),
        hex_char(v / 16 % 16),
        hex_char(v % 16),
    ]
}

fn hex_digit(d: u16) -> (r: char)
    requires
        d < 16,
    ensures
        r == hex_char(d as int),
{
    if d == 10 {
        'a'
    } else if d == 11 {
        'b'
    } else if d == 12 {
        'c'
    } else if d == 13 {
        'd'
    } else if d == 14 {
        'e'
    } else if d == 15 {
        'f'
    } else {
        digit(d as u64)
    }
}

/// Where an imported file is put aside.
pub fn backup_path(source: &str, seconds: i64, suffix: u16) -> (r: String)
    ensures
        r@ == source@ + ".bak-"@ + signed_decimal(seconds as int) + "-"@ + hex4(suffix as int),
{
    let mut out: String = String::new();
    push_text(&mut out, source);
    push_text(&mut out, ".bak-");
    push_signed(&mut out, seconds);
    push_text(&mut out, "-");
    out.push(hex_digit(suffix / 4096 % 16));
    out.push(hex_digit(suffix / 256 % 16));
    out.push(hex_digit(suffix / 16 % 16));
    out.push(hex_digit(suffix % 16));
    proof {
        assert(out@ =~= source@ + ".bak-"@ + signed_decimal(seconds as int) + "-"@ + hex4(
            suffix as int,
        ));
    }
    out
}

// ---------------------------------------------------------------------------
// Tags
// ---------------------------------------------------------------------------

/// A row of the tag table.
#[derive(Clone, Debug)]
pub struct TagRow {
    pub key: String,
    pub tag: String,
}

/// The tags of `key` among the first `n` rows, in order.
pub open spec fn tags_of_key(rows: Seq<TagRow>, key: Seq<char>, n: int) -> Seq<Seq<char>>
    decreases n,
{
    if n <= 0 {
        Seq::empty()
    } else if rows[n - 1].key@ == key {
        tags_of_key(rows, key, n - 1).push(rows[n - 1].tag@)
    } else {
        tags_of_key(rows, key, n - 1)
    }
}

/// The keys of the first `n` rows, each once.
pub open spec fn tag_keys(rows: Seq<TagRow>, n: int) -> Seq<Seq<char>>
    decreases n,
{
    if n <= 0 {
        Seq::empty()
    } else if tag_keys(rows, n - 1).contains(rows[n - 1].key@) {
        tag_keys(rows, n - 1)
    } else {
        tag_keys(rows, n - 1).push(rows[n - 1].key@)
    }
}

/// `entries` are the tags of the first `n` rows, by key.
pub open spec fn are_grouped(rows: Seq<TagRow>, n: int, entries: Seq<TagEntry>) -> bool {
    &&& entries.len() == tag_keys(rows, n).len()
    &&& forall|i: int|
        0 <= i < entries.len() ==> (#[trigger] entries[i]).key@ == tag_keys(rows, n)[i] && texts(
            entries[i].tags@,
        ) == tags_of_key(rows, entries[i].key@, n)
}

proof fn lemma_new_key_has_no_tags(rows: Seq<TagRow>, key: Seq<char>, n: int)
    requires
        0 <= n <= rows.len(),
        !tag_keys(rows, n).contains(key),
    ensures
        tags_of_key(rows, key, n) == Seq::<Seq<char>>::empty(),
    decreases n,
{
    if n > 0 {
        let before = tag_keys(rows, n - 1);
        if before.contains(key) {
            let i = choose|i: int| 0 <= i < before.len() && before[i] == key;
            assert(tag_keys(rows, n)[i] == key);
        }
        if rows[n - 1].key@ == key {
            if !before.contains(key) {
                assert(tag_keys(rows, n)[before.len() as int] == key);
            }
        }
        lemma_new_key_has_no_tags(rows, key, n - 1);
    }
}

proof fn lemma_tag_keys_distinct(rows: Seq<TagRow>, n: int)
    requires
        0 <= n <= rows.len(),
    ensures
        tag_keys(rows, n).no_duplicates(),
    decreases n,
{
    if n > 0 {
        lemma_tag_keys_distinct(rows, n - 1);
    }
}

/// Tags by key, both in the order of the rows.
pub fn group_tags(rows: Vec<TagRow>) -> (r: Vec<TagEntry>)
    ensures
        are_grouped(rows@, rows@.len() as int, r@),
{
    let ghost all = rows@;
    let mut out: Vec<TagEntry> = Vec::new();
    for row in it: rows
        invariant
            it.seq() == all,
            are_grouped(all, it.index() as int, out@),
    {
        let ghost n = it.index() as int;
        let ghost before = out@;
        proof {
            lemma_tag_keys_distinct(all, n);
        }
        let mut at: usize = 0;
        while at < out.len() && !same_text(out[at].key.as_str(), row.key.as_str())
            invariant
                at <= out@.len(),
                forall|k: int| 0 <= k < at ==> (#[trigger] out@[k]).key@ != row.key@,
            decreases out.len() - at,
        {
            at = at + 1;
        }
        if at < out.len() {
            let mut entry: TagEntry = out.remove(at);
            let ghost tags_before = texts(entry.tags@);
            let ghost tag = row.tag@;
            entry.tags.push(row.tag);
            proof {
                assert(texts(entry.tags@) =~= tags_before.push(tag));
            }
            out.insert(at, entry);
            proof {
                let keys = tag_keys(all, n);
                assert(keys[at as int] == row.key@);
                assert(keys.contains(row.key@));
                assert forall|i: int| 0 <= i < out@.len() implies (#[trigger] out@[i]).key@
                    == tag_keys(all, n + 1)[i] && texts(out@[i].tags@) == tags_of_key(
                    all,
                    out@[i].key@,
                    n + 1,
                ) by {
                    if i != at {
                        assert(out@[i] == before[i]);
                        assert(keys[i] != keys[at as int]);
                    }
                }
            }
        } else {
            proof {
                let keys = tag_keys(all, n);
                if keys.contains(row.key@) {
                    let i = choose|i: int| 0 <= i < keys.len() && keys[i] == row.key@;
                    assert(out@[i].key@ == row.key@);
                }
                lemma_new_key_has_no_tags(all, row.key@, n);
            }
            let ghost key = row.key@;
            let ghost tag = row.tag@;
            let mut tags: Vec<String> = Vec::new();
            tags.push(row.tag);
            let entry: TagEntry = TagEntry { key: row.key, tags };
            proof {
                assert(texts(entry.tags@) =~= Seq::<Seq<char>>::empty().push(tag));
            }
            out.push(entry);
            proof {
                let keys = tag_keys(all, n);
                assert forall|i: int| 0 <= i < out@.len() implies (#[trigger] out@[i]).key@
                    == tag_keys(all, n + 1)[i] && texts(out@[i].tags@) == tags_of_key(
                    all,
                    out@[i].key@,
                    n + 1,
                ) by {
                    if i < keys.len() {
                        assert(out@[i] == before[i]);
                        assert(keys[i] != key) by {
                            if keys[i] == key {
                                assert(keys.contains(key));
                            }
                        }
                    }
                }
            }
        }
    }
    out
}

/// Tags to store for a drive or a session: empty ones left out, each once.
pub open spec fn storable_tags(tags: Seq<Seq<char>>, n: int) -> Seq<Seq<char>>
    decreases n,
{
    if n <= 0 {
        Seq::empty()
    } else {
        let before = storable_tags(tags, n - 1);
        if tags[n - 1].len() == 0 || before.contains(tags[n - 1]) {
            before
        } else {
            before.push(tags[n - 1])
        }
    }
}

/// Tags to store: empty ones left out, each once.
pub fn tags_to_store(tags: &Vec<String>) -> (r: Vec<String>)
    ensures
        texts(r@) == storable_tags(texts(tags@), tags@.len() as int),
{
    let ghost all = texts(tags@);
    let mut out: Vec<String> = Vec::new();
    let mut i: usize = 0;
    proof {
        assert(texts(out@) =~= storable_tags(all, 0));
    }
    while i < tags.len()
        invariant
            i <= tags@.len(),
            all == texts(tags@),
            texts(out@) == storable_tags(all, i as int),
        decreases tags.len() - i,
    {
        let cs: Vec<char> = chars_of(tags[i].as_str());
        proof {
            assert(all[i as int] == cs@);
        }
        if cs.len() > 0 && !lists(&out, tags[i].as_str()) {
            let ghost before = texts(out@);
            let t: String = tags[i].clone();
            out.push(t);
            proof {
                assert(texts(out@) =~= before.push(t@));
            }
        }
        i = i + 1;
    }
    out
}

// ---------------------------------------------------------------------------
// Laws
// ---------------------------------------------------------------------------

/// Paths that differ in their slashes alone have one key.
pub proof fn law_slashes_do_not_matter(path: Seq<char>)
    ensures
        canonical(slashed(path)) == canonical(path),
{
    assert(slashed(slashed(path)) =~= slashed(path));
}

/// The recorded spelling of a clip and the imported one have one key.
pub proof fn law_spellings_share_a_key(file: Seq<char>)
    requires
        file.len() > 0,
        !"RecentClips/"@.is_prefix_of(slashed(file)),
    ensures
        canonical("RecentClips/"@ + file) == canonical(file),
        canonical(file) == slashed(file),
{
    reveal_strlit("RecentClips/");
    let p = "RecentClips/"@;
    let s = slashed(p + file);
    assert(slashed(p) =~= p);
    assert(s =~= p + slashed(file));
    assert(s.take(p.len() as int) =~= p);
    assert(p.is_prefix_of(s));
    assert(s.skip(p.len() as int) =~= slashed(file));
}

/// A key is its own key, unless it begins with `RecentClips/` again.
pub proof fn law_keys_are_settled(path: Seq<char>)
    requires
        !"RecentClips/"@.is_prefix_of(canonical(path)),
    ensures
        canonical(canonical(path)) == canonical(path),
{
    assert(slashed(canonical(path)) =~= canonical(path));
}

/// Markers recorded with a cache match the tables they were taken from.
pub proof fn law_fresh_cache_is_valid(m: CacheMarkers, live: LiveCounts)
    requires
        m.drive_list matches Some(t) && t@.len() > 0,
        text_view(m.route_count) == Some(signed_decimal(live.route_count as int)),
        text_view(m.tags_count) == Some(signed_decimal(live.tags_count as int)),
        text_view(m.algo) == Some(DRIVE_LIST_CACHE_ALGO_VERSION@),
        text_view(m.max_updated_at) == Some(signed_decimal(live.max_updated_at as int)),
    ensures
        cache_matches(m, live),
{
    law_decimal_reads_back(live.route_count as int);
    law_decimal_reads_back(live.tags_count as int);
    law_decimal_reads_back(live.max_updated_at as int);
}

/// A cache does not match tables with other counts than it was built from.
pub proof fn law_stale_cache_is_refused(m: CacheMarkers, a: LiveCounts, b: LiveCounts)
    requires
        cache_matches(m, a),
        cache_matches(m, b),
    ensures
        a == b,
{
}

/// An empty store is never exported, so it cannot replace the archive's copy.
pub proof fn law_empty_stores_are_not_pushed(s: SyncState)
    requires
        s.routes == 0,
    ensures
        sync_step(s) != SyncStep::Export,
        s.archive_exists && !s.mirror_exists ==> sync_step(s) == SyncStep::Restore,
{
}

/// A store with clips never takes the archive's copy.
pub proof fn law_filled_stores_are_not_replaced(s: SyncState)
    requires
        s.routes > 0,
    ensures
        sync_step(s) != SyncStep::Restore,
{
}

/// After a copy, with the counts recorded and the archive in place, nothing is
/// pushed until a count changes.
pub proof fn law_sync_settles(s: SyncState)
    requires
        s.routes > 0,
        s.archive_exists,
        text_view(s.last_routes) == Some(signed_decimal(s.routes as int)),
        text_view(s.last_samples) == Some(signed_decimal(s.samples as int)),
    ensures
        sync_step(s) == SyncStep::Skip,
{
    law_decimal_reads_back(s.routes as int);
    law_decimal_reads_back(s.samples as int);
}

} // verus!
