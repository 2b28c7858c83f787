//! Soft-delete reconciliation: bring every stored entry's
//! `missing` flag in line with the filesystem, and list the writes that make
//! the change durable.
use vstd::prelude::*;

use crate::clock::Timestamp;
use crate::storage::DirEntry;

verus! {

/// Injectable view of the filesystem, so reconciliation never
/// touches the disk itself.
pub trait Filesystem {
    /// Whether `path` is a directory that exists right now.
    fn dir_exists(&self, path: &str) -> bool;
}

/// The outcome of one reconciliation pass over the stored entries.
pub struct Reconciled {
    /// Every entry with its `missing` flag brought up to date.
    pub entries: Vec<DirEntry>,
    /// `(dir id, new missing_since)` for each entry whose soft-delete state
    /// changed; the caller persists these.
    pub updates: Vec<(i64, Option<Timestamp>)>,
}

/// The entry with its flag set from what the disk showed.
pub open spec fn reconciled_entry(e: DirEntry, on_disk: bool) -> DirEntry {
    DirEntry { missing: !on_disk, ..e }
}

/// The write an entry needs: clear `missing_since` when a missing directory
/// is back, stamp it with `now` when a present one vanished, nothing else.
pub open spec fn update_of(e: DirEntry, on_disk: bool, now: Timestamp) -> Option<(i64, Option<Timestamp>)> {
    if on_disk && e.missing {
        Some((e.id, None))
    } else if !on_disk && !e.missing {
        Some((e.id, Some(now)))
    } else {
        None
    }
}

/// The writes for the first `n` entries, in entry order.
pub open spec fn updates_of(entries: Seq<DirEntry>, on_disk: Seq<bool>, now: Timestamp, n: nat) -> Seq<(i64, Option<Timestamp>)>
    decreases n,
{
    if n == 0 {
        seq![]
    } else {
        let rest = updates_of(entries, on_disk, now, (n - 1) as nat);
        match update_of(entries[n - 1], on_disk[n - 1], now) {
            Some(u) => rest.push(u),
            None => rest,
        }
    }
}

/// `r` reconciles `entries` against the presence flags `on_disk`.
pub open spec fn reconciles(entries: Seq<DirEntry>, on_disk: Seq<bool>, now: Timestamp, r: Reconciled) -> bool {
    &&& r.entries@.len() == entries.len()
    &&& forall|i: int| 0 <= i < entries.len() ==> #[trigger] r.entries@[i] == reconciled_entry(entries[i], on_disk[i])
    &&& r.updates@ == updates_of(entries, on_disk, now, entries.len())
}

/// Reconciles `entries` against `on_disk`, which tells for each entry, in
/// order, whether its directory exists right now.
pub fn apply_presence(entries: Vec<DirEntry>, on_disk: &[bool], now: Timestamp) -> (r: Reconciled)
    requires
        on_disk@.len() == entries@.len(),
    ensures
        reconciles(entries@, on_disk@, now, r),
{
    let mut updates: Vec<(i64, Option<Timestamp>)> = Vec::new();
    let mut out: Vec<DirEntry> = Vec::new();
    let mut entries = entries;
    let ghost given = entries@;
    let mut i: usize = 0;
    while i < entries.len()
        invariant
            i <= entries@.len(),
            entries@ == given,
            on_disk@.len() == given.len(),
            out@.len() == i,
            forall|k: int| 0 <= k < i ==> #[trigger] out@[k] == reconciled_entry(given[k], on_disk@[k]),
            updates@ == updates_of(given, on_disk@, now, i as nat),
        decreases given.len() - i,
    {
        let present = on_disk[i];
        let entry = &entries[i];
        if present && entry.missing {
            updates.push((entry.id, None));
        } else if !present && !entry.missing {
            updates.push((entry.id, Some(now)));
        }
        let updated = DirEntry {
            id: entry.id,
            path: entry.path.clone(),
            last_visit: entry.last_visit,
            missing: !present,
        };
        out.push(updated);
        i += 1;
    }
    Reconciled { entries: out, updates }
}

/// The path to ask the filesystem about for each entry, in entry order.
pub fn presence_queries(entries: &[DirEntry]) -> (r: Vec<String>)
    ensures
        r@.len() == entries@.len(),
        forall|i: int| 0 <= i < entries@.len() ==> (#[trigger] r@[i])@ == entries@[i].path@,
{
    let mut paths: Vec<String> = Vec::new();
    let mut i: usize = 0;
    while i < entries.len()
        invariant
            i <= entries@.len(),
            paths@.len() == i,
            forall|k: int| 0 <= k < i ==> (#[trigger] paths@[k])@ == entries@[k].path@,
        decreases entries@.len() - i,
    {
        paths.push(entries[i].path.clone());
        i += 1;
    }
    paths
}

/// `on_disk` holds, for each of `entries` in order, what `fs.dir_exists`
/// answered when asked about that entry's own path.
pub open spec fn answered<F: Filesystem>(fs: &F, entries: Seq<DirEntry>, on_disk: Seq<bool>) -> bool {
    &&& on_disk.len() == entries.len()
    &&& answered_upto(fs, entries, on_disk, on_disk.len() as int)
}

/// The first `n` flags of `on_disk` are answers as `answered` describes.
pub open spec fn answered_upto<F: Filesystem>(fs: &F, entries: Seq<DirEntry>, on_disk: Seq<bool>, n: int) -> bool {
    forall|i: int| 0 <= i < n ==> #[trigger] asked(fs, entries[i].path@, on_disk[i])
}

/// `fs.dir_exists` answered `answer` when asked about `path`.
pub open spec fn asked<F: Filesystem>(fs: &F, path: Seq<char>, answer: bool) -> bool {
    exists|d: &str| d@ == path && #[trigger] call_ensures(F::dir_exists, (fs, d), answer)
}

proof fn lemma_answered_push<F: Filesystem>(fs: &F, entries: Seq<DirEntry>, before: Seq<bool>, path: &str, present: bool)
    requires
        before.len() < entries.len(),
        answered_upto(fs, entries, before, before.len() as int),
        path@ == entries[before.len() as int].path@,
        call_ensures(F::dir_exists, (fs, path), present),
    ensures
        answered_upto(fs, entries, before.push(present), before.len() + 1 as int),
{
    let after = before.push(present);
    assert(asked(fs, path@, present));
    assert forall|k: int| 0 <= k < before.len() + 1 implies #[trigger] asked(fs, entries[k].path@, after[k]) by {
        if k < before.len() {
            assert(after[k] == before[k]);
        }
    }
}

/// Compares every entry against `fs` and returns the entries with accurate
/// `missing` flags plus the storage writes that make the flags durable: `fs`
/// is asked once about each entry's path (`presence_queries`), in entry
/// order, and its answers go to `apply_presence`.
pub fn reconcile<F: Filesystem>(entries: Vec<DirEntry>, fs: &F, now: Timestamp) -> (r: Reconciled)
    ensures
        exists|on_disk: Seq<bool>| #[trigger] answered(fs, entries@, on_disk) && reconciles(entries@, on_disk, now, r),
{
    let queries = presence_queries(entries.as_slice());
    let mut on_disk: Vec<bool> = Vec::new();
    let mut i: usize = 0;
    while i < queries.len()
        invariant
            i <= queries@.len(),
            queries@.len() == entries@.len(),
            forall|k: int| 0 <= k < entries@.len() ==> (#[trigger] queries@[k])@ == entries@[k].path@,
            on_disk@.len() == i,
            answered_upto(fs, entries@, on_disk@, i as int),
        decreases queries@.len() - i,
    {
        let ghost before = on_disk@;
        let path: &str = queries[i].as_str();
        let present = fs.dir_exists(path);
        on_disk.push(present);
        proof {
            lemma_answered_push(fs, entries@, before, path, present);
        }
        i += 1;
    }
    let r = apply_presence(entries, on_disk.as_slice(), now);
    assert(answered(fs, entries@, on_disk@));
    r
}

/// Reconciling is idempotent: a second pass against the same disk changes
/// no entry and writes nothing.
pub proof fn lemma_reconcile_idempotent(entries: Seq<DirEntry>, on_disk: Seq<bool>, now: Timestamp, first: Reconciled, second: Reconciled)
    requires
        on_disk.len() == entries.len(),
        reconciles(entries, on_disk, now, first),
        reconciles(first.entries@, on_disk, now, second),
    ensures
        second.entries@ == first.entries@,
        second.updates@.len() == 0,
{
    assert(second.entries@ =~= first.entries@);
    lemma_no_updates(first.entries@, on_disk, now, entries.len());
}

proof fn lemma_no_updates(entries: Seq<DirEntry>, on_disk: Seq<bool>, now: Timestamp, n: nat)
    requires
        n <= entries.len() <= on_disk.len(),
        forall|i: int| 0 <= i < entries.len() ==> (#[trigger] entries[i]).missing == !on_disk[i],
    ensures
        updates_of(entries, on_disk, now, n).len() == 0,
    decreases n,
{
    if n > 0 {
        lemma_no_updates(entries, on_disk, now, (n - 1) as nat);
        assert(entries[n - 1].missing == !on_disk[n - 1]);
    }
}

} // verus!
