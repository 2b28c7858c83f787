use std::collections::HashSet;

use furet::clock::Timestamp;
use furet::project::{entries_within, root, within, GitMarker};
use furet::storage::DirEntry;

struct FakeMarker(HashSet<String>);

impl FakeMarker {
    fn of(paths: &[&str]) -> Self {
        Self(paths.iter().map(|path| (*path).to_owned()).collect())
    }
}

impl GitMarker for FakeMarker {
    fn has_git_entry(&self, dir: &str) -> bool {
        self.0.contains(dir)
    }
}

#[test]
fn the_current_directory_is_the_root_when_it_holds_git() {
    let marker = FakeMarker::of(&["c:\\dev\\furet"]);
    assert_eq!(
        root("c:\\dev\\furet", &marker),
        Some("c:\\dev\\furet".to_owned())
    );
}

#[test]
fn the_nearest_ancestor_with_git_wins() {
    let marker = FakeMarker::of(&["c:\\", "c:\\dev"]);
    assert_eq!(
        root("c:\\dev\\furet\\src", &marker),
        Some("c:\\dev".to_owned())
    );
}

#[test]
fn no_git_anywhere_yields_none() {
    let marker = FakeMarker::of(&[]);
    assert_eq!(root("c:\\dev\\furet", &marker), None);
}

#[test]
fn a_drive_root_can_be_the_project_root() {
    let marker = FakeMarker::of(&["c:\\"]);
    assert_eq!(root("c:\\a\\b", &marker), Some("c:\\".to_owned()));
    assert!(within("c:\\x", "c:\\"));
}

#[test]
fn within_rejects_a_sibling_sharing_a_prefix() {
    assert!(!within("c:\\dev\\furet2", "c:\\dev\\furet"));
    assert!(within("c:\\dev\\furet", "c:\\dev\\furet"));
    assert!(within("c:\\dev\\furet\\src", "c:\\dev\\furet"));
}

#[test]
fn within_holds_for_every_key_and_itself() {
    for key in ["", "c:\\", "c:\\dev", "d:\\a\\b\\c"] {
        assert!(within(key, key), "{key}");
    }
    assert!(!within("c:\\de", "c:\\dev"));
}

#[test]
fn the_ancestor_chain_runs_from_the_directory_up_to_its_drive() {
    assert_eq!(
        furet::project::ancestor_chain("C:\\dev\\furet\\src"),
        ["C:\\dev\\furet\\src", "C:\\dev\\furet", "C:\\dev", "C:\\"]
    );
}

#[test]
fn the_nearest_marked_directory_is_the_first_set_mark() {
    let chain = ["C:\\a\\b".to_owned(), "C:\\a".to_owned(), "C:\\".to_owned()];
    assert_eq!(furet::project::nearest_marked(&chain, &[false, true, true]), Some("C:\\a".to_owned()));
    assert_eq!(furet::project::nearest_marked(&chain, &[false, false, false]), None);
}

#[test]
fn entries_within_keeps_the_rows_under_the_root_whatever_their_case() {
    let row = |id: i64, path: &str| DirEntry {
        id,
        path: path.to_owned(),
        last_visit: Timestamp::from_unix_seconds(0),
        missing: false,
    };
    let rows = vec![
        row(1, "C:\\Dev\\Furet"),
        row(2, "c:\\dev\\furet\\src"),
        row(3, "C:\\dev\\furet-old"),
        row(4, "C:\\dev"),
    ];
    let ids: Vec<i64> = entries_within(rows, "C:\\dev\\FURET").iter().map(|entry| entry.id).collect();
    assert_eq!(ids, vec![1, 2]);
}

struct RecordingMarker {
    marked: &'static str,
    asked: std::cell::RefCell<Vec<String>>,
}

impl GitMarker for RecordingMarker {
    fn has_git_entry(&self, dir: &str) -> bool {
        self.asked.borrow_mut().push(dir.to_owned());
        dir == self.marked
    }
}

#[test]
fn root_asks_nearest_first_and_stops_at_the_first_marked_directory() {
    let marker = RecordingMarker { marked: "c:\\dev\\furet", asked: std::cell::RefCell::new(Vec::new()) };
    assert_eq!(root("c:\\dev\\furet\\src\\bin", &marker), Some("c:\\dev\\furet".to_owned()));
    assert_eq!(*marker.asked.borrow(), vec!["c:\\dev\\furet\\src\\bin", "c:\\dev\\furet\\src", "c:\\dev\\furet"]);
}

#[test]
fn root_walks_a_unc_path_up_to_its_share() {
    let marker = RecordingMarker { marked: "", asked: std::cell::RefCell::new(Vec::new()) };
    assert_eq!(root("\\\\server\\share\\repo\\src", &marker), None);
    assert_eq!(
        *marker.asked.borrow(),
        vec!["\\\\server\\share\\repo\\src", "\\\\server\\share\\repo", "\\\\server\\share\\"]
    );
}
