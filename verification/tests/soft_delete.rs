use std::collections::HashSet;

use furet::clock::Timestamp;
use furet::soft_delete::{apply_presence, reconcile, Filesystem};
use furet::storage::DirEntry;

struct FakeFilesystem(HashSet<String>);

impl FakeFilesystem {
    fn of(paths: &[&str]) -> Self {
        Self(paths.iter().map(|path| (*path).to_owned()).collect())
    }
}

impl Filesystem for FakeFilesystem {
    fn dir_exists(&self, path: &str) -> bool {
        self.0.contains(path)
    }
}

fn entry(id: i64, path: &str, missing: bool) -> DirEntry {
    DirEntry {
        id,
        path: path.to_owned(),
        last_visit: Timestamp::from_unix_seconds(1_700_000_000),
        missing,
    }
}

fn now() -> Timestamp {
    Timestamp::from_unix_seconds(1_800_000_000)
}

#[test]
fn a_present_not_missing_entry_passes_through_untouched() {
    let fs = FakeFilesystem::of(&["c:\\dev\\tokio"]);
    let result = reconcile(vec![entry(7, "c:\\dev\\tokio", false)], &fs, now());
    assert_eq!(result.entries, vec![entry(7, "c:\\dev\\tokio", false)]);
    assert!(result.updates.is_empty());
}

#[test]
fn an_absent_not_missing_entry_becomes_missing_stamped_with_now() {
    let fs = FakeFilesystem::of(&[]);
    let result = reconcile(vec![entry(7, "c:\\dev\\tokio", false)], &fs, now());
    assert_eq!(result.entries, vec![entry(7, "c:\\dev\\tokio", true)]);
    assert_eq!(result.updates, vec![(7, Some(now()))]);
}

#[test]
fn a_present_missing_entry_is_reactivated_with_its_history_intact() {
    let fs = FakeFilesystem::of(&["c:\\dev\\tokio"]);
    let result = reconcile(vec![entry(7, "c:\\dev\\tokio", true)], &fs, now());
    assert_eq!(result.entries, vec![entry(7, "c:\\dev\\tokio", false)]);
    assert_eq!(result.updates, vec![(7, None)]);
}

#[test]
fn an_absent_already_missing_entry_is_left_alone() {
    let fs = FakeFilesystem::of(&[]);
    let result = reconcile(vec![entry(7, "c:\\dev\\tokio", true)], &fs, now());
    assert_eq!(result.entries, vec![entry(7, "c:\\dev\\tokio", true)]);
    assert!(result.updates.is_empty());
}

#[test]
fn a_batch_emits_updates_only_for_entries_that_changed_state() {
    let fs = FakeFilesystem::of(&["c:\\dev\\helix"]);
    let result = reconcile(
        vec![
            entry(1, "c:\\dev\\helix", false),
            entry(2, "c:\\dev\\helix", true),
            entry(3, "c:\\dev\\vapor", false),
            entry(4, "c:\\dev\\vapor", true),
        ],
        &fs,
        now(),
    );
    let flags: Vec<(i64, bool)> = result
        .entries
        .iter()
        .map(|entry| (entry.id, entry.missing))
        .collect();
    assert_eq!(flags, [(1, false), (2, false), (3, true), (4, true)]);
    assert_eq!(result.updates, vec![(2, None), (3, Some(now()))]);
}

#[test]
fn an_empty_batch_produces_an_empty_result() {
    let fs = FakeFilesystem::of(&[]);
    let result = reconcile(Vec::new(), &fs, now());
    assert!(result.entries.is_empty());
    assert!(result.updates.is_empty());
}

#[test]
fn a_second_reconciliation_against_the_same_disk_writes_nothing() {
    let presence = [true, false, true, false];
    let first = apply_presence(
        vec![
            entry(1, "c:\\a", false),
            entry(2, "c:\\b", false),
            entry(3, "c:\\c", true),
            entry(4, "c:\\d", true),
        ],
        &presence,
        now(),
    );
    assert_eq!(first.updates, vec![(2, Some(now())), (3, None)]);
    let again = apply_presence(first.entries.clone(), &presence, now());
    assert_eq!(again.entries, first.entries);
    assert!(again.updates.is_empty());
}

#[test]
fn presence_is_asked_about_each_entry_path_in_order() {
    let entries = vec![entry(1, "c:\\dev\\helix", false), entry(2, "c:\\dev\\vapor", true)];
    assert_eq!(furet::soft_delete::presence_queries(&entries), ["c:\\dev\\helix", "c:\\dev\\vapor"]);
}

struct RecordingFilesystem {
    present: &'static str,
    asked: std::cell::RefCell<Vec<String>>,
}

impl Filesystem for RecordingFilesystem {
    fn dir_exists(&self, path: &str) -> bool {
        self.asked.borrow_mut().push(path.to_owned());
        path == self.present
    }
}

#[test]
fn reconcile_asks_once_per_entry_about_its_own_path_in_order() {
    let fs = RecordingFilesystem { present: "c:\\dev\\helix", asked: std::cell::RefCell::new(Vec::new()) };
    let result = reconcile(
        vec![entry(1, "c:\\dev\\helix", true), entry(2, "c:\\dev\\vapor", false)],
        &fs,
        now(),
    );
    assert_eq!(*fs.asked.borrow(), vec!["c:\\dev\\helix", "c:\\dev\\vapor"]);
    assert_eq!(result.entries, vec![entry(1, "c:\\dev\\helix", false), entry(2, "c:\\dev\\vapor", true)]);
    assert_eq!(result.updates, vec![(1, None), (2, Some(now()))]);
}
