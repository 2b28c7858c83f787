use furet::fallback::{excluded_names, to_candidates, ANCESTOR_LEVELS, CHILD_DEPTH};
use furet::paths::canonical_dir;

#[test]
fn the_walk_defaults_are_one_level_down_and_one_up() {
    assert_eq!(CHILD_DEPTH, 1);
    assert_eq!(ANCESTOR_LEVELS, 1);
    assert_eq!(excluded_names(), ["node_modules", "bin", "obj", ".git", "target"]);
}

#[test]
fn found_directories_become_fresh_candidates_once_each() {
    let current = canonical_dir("c:\\dev\\current");
    let found = vec![
        canonical_dir("c:\\dev\\current\\child"),
        canonical_dir("C:\\DEV\\CURRENT"),
        canonical_dir("c:\\dev\\sibling"),
        canonical_dir("c:\\dev\\Current\\Child"),
    ];
    let candidates = to_candidates(found, &current);
    let names: Vec<&str> = candidates.iter().map(|candidate| candidate.name.as_str()).collect();
    assert_eq!(names, ["child", "sibling"]);
    assert!(candidates.iter().all(|candidate| !candidate.missing && candidate.last_visit.unix_seconds() == 0));
    assert_eq!(candidates[1].folder.as_deref(), Some("c:\\dev"));
}
