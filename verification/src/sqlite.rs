//! The SQLite storage engine's connection tuning and its transaction rules.
//!
//! Opening connections and running statements is I/O and happens around this
//! module; what stands here is which `PRAGMA`s every connection gets, in which
//! order, and what a transaction does at commit, at drop and when a count query
//! answers.

use vstd::prelude::*;
use crate::decimal::{push_decimal, push_signed_decimal, decimal_digits, signed_decimal};

verus! {

/// How long a freshly opened connection waits on a transiently locked database
/// before failing with `SQLITE_BUSY`, in milliseconds.
pub const SQLITE_BUSY_TIMEOUT_MS: u32 = 5000;

/// A SQLite tuning profile: the `PRAGMA`s applied to every connection.
/// `None` leaves SQLite's default untouched.
pub struct SqliteTuning {
    /// `PRAGMA page_size` (bytes); must precede `journal_mode = WAL`.
    pub page_size: Option<u32>,
    /// `PRAGMA journal_mode` (e.g. `WAL`).
    pub journal_mode: Option<&'static str>,
    /// `PRAGMA synchronous` (e.g. `NORMAL`).
    pub synchronous: Option<&'static str>,
    /// `PRAGMA mmap_size` (bytes).
    pub mmap_size: Option<i64>,
    /// `PRAGMA cache_size`; negative = KiB of memory, positive = pages.
    pub cache_size: Option<i64>,
    /// `PRAGMA temp_store` (e.g. `MEMORY`).
    pub temp_store: Option<&'static str>,
    /// `PRAGMA wal_autocheckpoint` (pages).
    pub wal_autocheckpoint: Option<u32>,
    /// `PRAGMA busy_timeout` (ms); always applied.
    pub busy_timeout_ms: u32,
}

/// The one-element statement list `prefix v;` for a numeric setting, or nothing.
pub open spec fn numeric_pragma(prefix: Seq<char>, v: Option<int>) -> Seq<Seq<char>> {
    match v {
        Some(x) => seq![prefix + signed_decimal(x) + ";"@],
        None => Seq::empty(),
    }
}

/// The one-element statement list `prefix v;` for a textual setting, or nothing.
pub open spec fn text_pragma(prefix: Seq<char>, v: Option<Seq<char>>) -> Seq<Seq<char>> {
    match v {
        Some(x) => seq![prefix + x + ";"@],
        None => Seq::empty(),
    }
}

pub open spec fn opt_u32(v: Option<u32>) -> Option<int> {
    match v {
        Some(x) => Some(x as int),
        None => None,
    }
}

pub open spec fn opt_i64(v: Option<i64>) -> Option<int> {
    match v {
        Some(x) => Some(x as int),
        None => None,
    }
}

pub open spec fn opt_str(v: Option<&'static str>) -> Option<Seq<char>> {
    match v {
        Some(x) => Some(x@),
        None => None,
    }
}

/// The baseline profile: stock SQLite behaviour, only the busy timeout.
pub open spec fn is_baseline_profile(t: SqliteTuning) -> bool {
    &&& t.page_size is None
    &&& t.journal_mode is None
    &&& t.synchronous is None
    &&& t.mmap_size is None
    &&& t.cache_size is None
    &&& t.temp_store is None
    &&& t.wal_autocheckpoint is None
    &&& t.busy_timeout_ms == SQLITE_BUSY_TIMEOUT_MS
}

/// The rotating-media profile.
pub open spec fn is_rotating_profile(t: SqliteTuning) -> bool {
    &&& t.page_size == Some(16384u32)
    &&& t.journal_mode matches Some(s) && s@ == "WAL"@
    &&& t.synchronous matches Some(s) && s@ == "NORMAL"@
    &&& t.mmap_size == Some(268435456i64)
    &&& t.cache_size == Some(-262144i64)
    &&& t.temp_store matches Some(s) && s@ == "MEMORY"@
    &&& t.wal_autocheckpoint == Some(10000u32)
    &&& t.busy_timeout_ms == SQLITE_BUSY_TIMEOUT_MS
}

/// The solid-state-media profile.
pub open spec fn is_flash_profile(t: SqliteTuning) -> bool {
    &&& t.page_size is None
    &&& t.journal_mode matches Some(s) && s@ == "WAL"@
    &&& t.synchronous matches Some(s) && s@ == "NORMAL"@
    &&& t.mmap_size == Some(268435456i64)
    &&& t.cache_size == Some(-131072i64)
    &&& t.temp_store matches Some(s) && s@ == "MEMORY"@
    &&& t.wal_autocheckpoint is None
    &&& t.busy_timeout_ms == SQLITE_BUSY_TIMEOUT_MS
}

impl SqliteTuning {
    /// The statements of this profile, in dependency order: `page_size` first
    /// (it must precede `journal_mode = WAL`), each set setting once, and
    /// `busy_timeout` always, last.
    pub open spec fn spec_pragmas(&self) -> Seq<Seq<char>> {
        numeric_pragma("PRAGMA page_size = "@, opt_u32(self.page_size))
            + text_pragma("PRAGMA journal_mode = "@, opt_str(self.journal_mode))
            + text_pragma("PRAGMA synchronous = "@, opt_str(self.synchronous))
            + numeric_pragma("PRAGMA mmap_size = "@, opt_i64(self.mmap_size))
            + numeric_pragma("PRAGMA cache_size = "@, opt_i64(self.cache_size))
            + text_pragma("PRAGMA temp_store = "@, opt_str(self.temp_store))
            + numeric_pragma("PRAGMA wal_autocheckpoint = "@, opt_u32(self.wal_autocheckpoint))
            + seq![
            "PRAGMA busy_timeout = "@ + decimal_digits(self.busy_timeout_ms as nat) + ";"@,
        ]
    }

    /// Stock SQLite behaviour: only the busy timeout.
    pub fn baseline() -> (t: SqliteTuning)
        ensures
            is_baseline_profile(t),
    {
        SqliteTuning {
            page_size: None,
            journal_mode: None,
            synchronous: None,
            mmap_size: None,
            cache_size: None,
            temp_store: None,
            wal_autocheckpoint: None,
            busy_timeout_ms: SQLITE_BUSY_TIMEOUT_MS,
        }
    }

    /// Rotating media (HDD / ZFS / RAID-5): 16 KiB pages, WAL, a 256 MiB cache and
    /// mmap window, in-memory temp store and a large WAL autocheckpoint.
    pub fn rotating() -> (t: SqliteTuning)
        ensures
            is_rotating_profile(t),
    {
        SqliteTuning {
            page_size: Some(16384),
            journal_mode: Some("WAL"),
            synchronous: Some("NORMAL"),
            mmap_size: Some(268435456),
            cache_size: Some(-262144),
            temp_store: Some("MEMORY"),
            wal_autocheckpoint: Some(10000),
            busy_timeout_ms: SQLITE_BUSY_TIMEOUT_MS,
        }
    }

    /// Solid-state media (SSD / NVMe): SQLite's default page size, WAL, a 128 MiB
    /// cache, a 256 MiB mmap window, in-memory temp store, default checkpoints.
    pub fn flash() -> (t: SqliteTuning)
        ensures
            is_flash_profile(t),
    {
        SqliteTuning {
            page_size: None,
            journal_mode: Some("WAL"),
            synchronous: Some("NORMAL"),
            mmap_size: Some(268435456),
            cache_size: Some(-131072),
            temp_store: Some("MEMORY"),
            wal_autocheckpoint: None,
            busy_timeout_ms: SQLITE_BUSY_TIMEOUT_MS,
        }
    }

    /// The `PRAGMA` statements to run on a freshly opened connection.
    pub fn pragmas(&self) -> (out: Vec<String>)
        ensures
            string_views(out@) == self.spec_pragmas(),
    {
        let mut out: Vec<String> = Vec::new();
        push_u32_pragma(&mut out, "PRAGMA page_size = ", self.page_size);
        push_text_pragma(&mut out, "PRAGMA journal_mode = ", self.journal_mode);
        push_text_pragma(&mut out, "PRAGMA synchronous = ", self.synchronous);
        push_i64_pragma(&mut out, "PRAGMA mmap_size = ", self.mmap_size);
        push_i64_pragma(&mut out, "PRAGMA cache_size = ", self.cache_size);
        push_text_pragma(&mut out, "PRAGMA temp_store = ", self.temp_store);
        push_u32_pragma(&mut out, "PRAGMA wal_autocheckpoint = ", self.wal_autocheckpoint);
        push_u32_pragma(&mut out, "PRAGMA busy_timeout = ", Some(self.busy_timeout_ms));
        assert(string_views(out@) =~= self.spec_pragmas());
        out
    }
}

/// The views of a list of strings.
pub open spec fn string_views(v: Seq<String>) -> Seq<Seq<char>> {
    v.map_values(|s: String| s@)
}

fn push_statement(out: &mut Vec<String>, s: String)
    ensures
        string_views(final(out)@) == string_views(old(out)@).push(s@),
{
    out.push(s);
    assert(string_views(out@) =~= string_views(old(out)@).push(s@));
}

fn push_u32_pragma(out: &mut Vec<String>, prefix: &str, v: Option<u32>)
    ensures
        string_views(final(out)@) == string_views(old(out)@) + numeric_pragma(prefix@, opt_u32(v)),
{
    if let Some(x) = v {
        let mut s = String::from_str(prefix);
        push_decimal(&mut s, x as u64);
        s.append(";");
        push_statement(out, s);
        assert(string_views(out@) =~= string_views(old(out)@) + numeric_pragma(prefix@, opt_u32(v)));
    } else {
        assert(string_views(out@) =~= string_views(old(out)@) + numeric_pragma(prefix@, opt_u32(v)));
    }
}

fn push_i64_pragma(out: &mut Vec<String>, prefix: &str, v: Option<i64>)
    ensures
        string_views(final(out)@) == string_views(old(out)@) + numeric_pragma(prefix@, opt_i64(v)),
{
    if let Some(x) = v {
        let mut s = String::from_str(prefix);
        push_signed_decimal(&mut s, x);
        s.append(";");
        push_statement(out, s);
        assert(string_views(out@) =~= string_views(old(out)@) + numeric_pragma(prefix@, opt_i64(v)));
    } else {
        assert(string_views(out@) =~= string_views(old(out)@) + numeric_pragma(prefix@, opt_i64(v)));
    }
}

fn push_text_pragma(out: &mut Vec<String>, prefix: &str, v: Option<&'static str>)
    ensures
        string_views(final(out)@) == string_views(old(out)@) + text_pragma(prefix@, opt_str(v)),
{
    if let Some(x) = v {
        let mut s = String::from_str(prefix);
        s.append(x);
        s.append(";");
        push_statement(out, s);
        assert(string_views(out@) =~= string_views(old(out)@) + text_pragma(prefix@, opt_str(v)));
    } else {
        assert(string_views(out@) =~= string_views(old(out)@) + text_pragma(prefix@, opt_str(v)));
    }
}

/// Every profile's statements end with `busy_timeout`, so it is always applied;
/// a `page_size` statement, when there is one, comes first, ahead of
/// `journal_mode`.
pub proof fn lemma_pragma_order(t: SqliteTuning)
    ensures
        t.spec_pragmas().len() >= 1,
        t.spec_pragmas().last() == "PRAGMA busy_timeout = "@ + decimal_digits(
            t.busy_timeout_ms as nat,
        ) + ";"@,
        t.page_size matches Some(v) ==> t.spec_pragmas()[0] == "PRAGMA page_size = "@
            + decimal_digits(v as nat) + ";"@,
{
    let rest = text_pragma("PRAGMA journal_mode = "@, opt_str(t.journal_mode)) + text_pragma(
        "PRAGMA synchronous = "@,
        opt_str(t.synchronous),
    ) + numeric_pragma("PRAGMA mmap_size = "@, opt_i64(t.mmap_size)) + numeric_pragma(
        "PRAGMA cache_size = "@,
        opt_i64(t.cache_size),
    ) + text_pragma("PRAGMA temp_store = "@, opt_str(t.temp_store)) + numeric_pragma(
        "PRAGMA wal_autocheckpoint = "@,
        opt_u32(t.wal_autocheckpoint),
    ) + seq!["PRAGMA busy_timeout = "@ + decimal_digits(t.busy_timeout_ms as nat) + ";"@];
    assert(t.spec_pragmas() =~= numeric_pragma("PRAGMA page_size = "@, opt_u32(t.page_size))
        + rest);
    if let Some(v) = t.page_size {
        assert(signed_decimal(v as int) == decimal_digits(v as nat));
    }
}

/// The profile a build selects: `rotating` on Linux when that feature is on,
/// else `flash` on Linux when that feature is on, else the baseline. Off Linux
/// both features are no-ops.
pub fn select_tuning(target_is_linux: bool, rotating: bool, flash: bool) -> (t: SqliteTuning)
    ensures
        target_is_linux && rotating ==> is_rotating_profile(t),
        target_is_linux && !rotating && flash ==> is_flash_profile(t),
        !(target_is_linux && (rotating || flash)) ==> is_baseline_profile(t),
{
    if target_is_linux && rotating {
        SqliteTuning::rotating()
    } else if target_is_linux && flash {
        SqliteTuning::flash()
    } else {
        SqliteTuning::baseline()
    }
}

/// The errors of the SQLite engine's own rules (those of SQLite itself come
/// from the connection).
#[derive(Debug, Clone, Copy, PartialEq, Eq, Structural)]
pub enum StorageError {
    /// The database path is the empty string.
    EmptyPath,
    /// `commit` was called twice on one write transaction.
    MultipleCommits,
    /// The range-count query produced no row.
    RangeCountNoRows,
}

impl StorageError {
    /// The message the engine reports for this error.
    pub fn message(&self) -> (m: &'static str)
        ensures
            *self == StorageError::EmptyPath ==> m@ == "empty path for sqlite storage"@,
            *self == StorageError::MultipleCommits ==> m@ == "multiple commits"@,
            *self == StorageError::RangeCountNoRows ==> m@ == "range count query returned no rows"@,
    {
        match self {
            StorageError::EmptyPath => "empty path for sqlite storage",
            StorageError::MultipleCommits => "multiple commits",
            StorageError::RangeCountNoRows => "range count query returned no rows",
        }
    }
}

/// A SQLite database is opened from a disk path; the empty path is refused.
/// (A path that is not valid UTF-8 is not a string here and is not refused.)
pub fn check_sqlite_path(path: &str) -> (r: Result<(), StorageError>)
    ensures
        r == (if path@.len() == 0 { Err(StorageError::EmptyPath) } else { Ok::<(), StorageError>(()) }),
{
    if path.is_empty() {
        Err(StorageError::EmptyPath)
    } else {
        Ok(())
    }
}

/// What `commit` has to do in a transaction's current state.
#[derive(Debug, Clone, Copy, PartialEq, Eq, Structural)]
pub enum CommitStep {
    /// A read transaction: nothing to commit.
    Nothing,
    /// Run `commit;` on the connection, then record the commit.
    RunCommit,
    /// The write transaction was committed before: refuse.
    AlreadyCommitted,
}

/// The state of a transaction that the engine's rules read: whether it holds
/// the write lock, and whether it has been committed.
#[derive(Debug, Clone, Copy, PartialEq, Eq, Structural)]
pub struct TxState {
    pub write: bool,
    pub committed: bool,
}

impl TxState {
    pub open spec fn spec_commit_step(self) -> CommitStep {
        if !self.write {
            CommitStep::Nothing
        } else if !self.committed {
            CommitStep::RunCommit
        } else {
            CommitStep::AlreadyCommitted
        }
    }

    pub open spec fn spec_rollback_on_drop(self) -> bool {
        self.write && !self.committed
    }

    /// A new transaction, uncommitted.
    pub fn begin(write: bool) -> (t: TxState)
        ensures
            t.write == write,
            !t.committed,
    {
        TxState { write, committed: false }
    }

    /// A write transaction starts with `begin;`; a read transaction runs nothing.
    pub fn needs_begin_statement(&self) -> (b: bool)
        ensures
            b == self.write,
    {
        self.write
    }

    /// What `commit` does now.
    pub fn commit_step(&self) -> (c: CommitStep)
        ensures
            c == self.spec_commit_step(),
    {
        if !self.write {
            CommitStep::Nothing
        } else if !self.committed {
            CommitStep::RunCommit
        } else {
            CommitStep::AlreadyCommitted
        }
    }

    /// Records that the `commit;` statement ran to completion.
    pub fn record_commit(&mut self)
        ensures
            final(self).write == old(self).write,
            final(self).committed,
    {
        self.committed = true;
    }

    /// Dropping a transaction rolls back a write transaction that was not
    /// committed; the connection then goes back to the pool either way.
    pub fn rollback_on_drop(&self) -> (b: bool)
        ensures
            b == self.spec_rollback_on_drop(),
    {
        self.write && !self.committed
    }
}

/// A write transaction commits at most once: once its commit has been recorded,
/// a further `commit` is refused, and dropping it no longer rolls back.
pub proof fn lemma_commit_at_most_once(t: TxState)
    requires
        t.write,
    ensures
        t.spec_commit_step() == CommitStep::RunCommit <==> !t.committed,
        (TxState { committed: true, ..t }).spec_commit_step() == CommitStep::AlreadyCommitted,
        !(TxState { committed: true, ..t }).spec_rollback_on_drop(),
{
}

/// A read transaction neither commits nor rolls back, whatever its state.
pub proof fn lemma_read_transaction_is_inert(t: TxState)
    requires
        !t.write,
    ensures
        t.spec_commit_step() == CommitStep::Nothing,
        !t.spec_rollback_on_drop(),
{
}

/// The answer of `range_count` from the count query's first row: no row is an
/// error; otherwise the count, as `usize`.
pub fn range_count_from_row(row: Option<i64>) -> (r: Result<usize, StorageError>)
    ensures
        r == (match row {
            None => Err(StorageError::RangeCountNoRows),
            Some(k) => Ok::<usize, StorageError>(k as usize),
        }),
{
    match row {
        None => Err(StorageError::RangeCountNoRows),
        Some(k) => Ok(k as usize),
    }
}

} // verus!
