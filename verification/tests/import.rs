use furet::clock::Timestamp;
use furet::import::{dedupe_by_key, line_fields, line_outcome, plan, schedulable, tally, LineOutcome, Planned, Skipped};
use furet::remove::Target;
use furet::paths::CanonicalDir;

fn dir(path: &str) -> CanonicalDir {
    CanonicalDir {
        path: path.to_owned(),
        key: path.to_lowercase(),
        name: String::new(),
        folder: None,
    }
}

fn paths_of(planned: &[Planned]) -> Vec<&str> {
    planned.iter().map(|entry| entry.path.as_str()).collect()
}

#[test]
fn a_line_splits_into_its_score_and_its_whole_path() {
    assert_eq!(line_fields("  12.5 c:\\dev\\tokio"), Some(("12.5".to_owned(), "c:\\dev\\tokio".to_owned())));
    assert_eq!(line_fields("3 c:\\dev\\my project"), Some(("3".to_owned(), "c:\\dev\\my project".to_owned())));
    assert_eq!(line_fields("1\t  c:\\dev\\r\u{e9}f\u{e9}rence"), Some(("1".to_owned(), "c:\\dev\\r\u{e9}f\u{e9}rence".to_owned())));
    assert_eq!(line_fields(""), None);
    assert_eq!(line_fields("   "), None);
    assert_eq!(line_fields("12"), None);
    assert_eq!(line_fields("12   "), None);
}

#[test]
fn plan_orders_by_score_descending_then_path_ascending() {
    let candidates = vec![(5, dir("c:\\dev\\b")), (5, dir("c:\\dev\\a")), (9, dir("c:\\dev\\z"))];
    let planned = plan(candidates, &[], Timestamp::from_unix_seconds(1_000));
    assert_eq!(paths_of(&planned), ["c:\\dev\\z", "c:\\dev\\a", "c:\\dev\\b"]);
}

#[test]
fn timestamps_strictly_decrease_from_now_minus_one() {
    let candidates = vec![(9, dir("c:\\dev\\z")), (5, dir("c:\\dev\\a")), (5, dir("c:\\dev\\b"))];
    let now = Timestamp::from_unix_seconds(1_000);
    let planned = plan(candidates, &[], now);
    let seconds: Vec<i64> = planned.iter().map(|entry| entry.ts.unix_seconds()).collect();
    assert_eq!(seconds, [999, 998, 997]);
}

#[test]
fn known_keys_are_excluded_from_the_plan() {
    let candidates = vec![(9, dir("c:\\dev\\z")), (5, dir("c:\\dev\\a"))];
    let known = vec!["c:\\dev\\z".to_owned()];
    let planned = plan(candidates, &known, Timestamp::from_unix_seconds(1_000));
    assert_eq!(planned.len(), 1);
    assert_eq!(planned[0].path, "c:\\dev\\a");
}

#[test]
fn scheduling_skips_known_keys_and_counts_down_from_now() {
    let planned = plan(
        vec![(3, dir("c:\\best")), (2, dir("C:\\Known")), (1, dir("c:\\next"))],
        &["c:\\known".to_owned()],
        Timestamp::from_unix_seconds(1_000),
    );
    assert_eq!(
        planned,
        vec![
            Planned { path: "c:\\best".to_owned(), key: "c:\\best".to_owned(), ts: Timestamp::from_unix_seconds(999) },
            Planned { path: "c:\\next".to_owned(), key: "c:\\next".to_owned(), ts: Timestamp::from_unix_seconds(998) },
        ]
    );
}

#[test]
fn a_path_order_compares_characters_not_case_folded_text() {
    let planned = plan(
        vec![(1, dir("c:\\b")), (1, dir("C:\\z")), (1, dir("c:\\a"))],
        &[],
        Timestamp::from_unix_seconds(10),
    );
    assert_eq!(paths_of(&planned), ["C:\\z", "c:\\a", "c:\\b"]);
}

#[test]
fn duplicates_collapse_onto_the_highest_score_then_the_smallest_path() {
    let (kept, duplicate) = dedupe_by_key(vec![
        (2, dir("c:\\dev\\Tokio")),
        (7, dir("c:\\dev\\other")),
        (5, dir("C:\\DEV\\TOKIO")),
        (5, dir("c:\\dev\\tokio")),
        (1, dir("c:\\dev\\OTHER")),
    ]);
    assert_eq!(duplicate, 3);
    assert_eq!(kept.len(), 2);
    assert!(kept.contains(&(5, dir("C:\\DEV\\TOKIO"))));
    assert!(kept.contains(&(7, dir("c:\\dev\\other"))));
}

#[test]
fn distinct_keys_are_all_kept() {
    let (kept, duplicate) = dedupe_by_key(vec![(1, dir("c:\\a")), (1, dir("c:\\b"))]);
    assert_eq!(duplicate, 0);
    assert_eq!(kept, vec![(1, dir("c:\\a")), (1, dir("c:\\b"))]);
}

#[test]
fn importing_again_once_stored_plans_nothing() {
    let candidates = || vec![(9, dir("c:\\dev\\z")), (5, dir("c:\\dev\\a")), (1, dir("c:\\known"))];
    let mut known = vec!["c:\\known".to_owned()];
    let first = plan(candidates(), &known, Timestamp::from_unix_seconds(1_000));
    assert_eq!(paths_of(&first), ["c:\\dev\\z", "c:\\dev\\a"]);
    known.extend(first.iter().map(|entry| entry.key.clone()));
    let second = plan(candidates(), &known, Timestamp::from_unix_seconds(2_000));
    assert!(second.is_empty());
}

#[test]
fn leading_spaces_before_the_score_are_ignored() {
    assert_eq!(line_fields("  12.5 c:\\dev\\tokio"), Some(("12.5".to_owned(), "c:\\dev\\tokio".to_owned())));
}

#[test]
fn a_path_containing_spaces_is_kept_whole() {
    assert_eq!(line_fields("3 c:\\dev\\my project"), Some(("3".to_owned(), "c:\\dev\\my project".to_owned())));
}

#[test]
fn an_accented_path_round_trips() {
    assert_eq!(
        line_fields("1 c:\\dev\\r\u{e9}f\u{e9}rence"),
        Some(("1".to_owned(), "c:\\dev\\r\u{e9}f\u{e9}rence".to_owned()))
    );
}

#[test]
fn a_line_without_a_score_is_malformed() {
    assert_eq!(line_fields("c:\\dev\\tokio"), None);
}

#[test]
fn a_score_with_no_path_is_malformed() {
    assert_eq!(line_fields("12.5"), None);
}

#[test]
fn an_empty_line_is_malformed() {
    assert_eq!(line_fields(""), None);
    assert_eq!(line_fields("   "), None);
}

#[test]
fn only_unknown_candidates_need_room_before_the_earliest_timestamp() {
    let candidates = vec![(9, dir("c:\\dev\\z")), (5, dir("c:\\dev\\a"))];
    let known = vec!["c:\\dev\\z".to_owned()];
    assert!(schedulable(&candidates, &known, Timestamp::from_unix_seconds(1_000)));
    assert!(schedulable(&candidates, &known, Timestamp::from_unix_seconds(i64::MIN + 1)));
    assert!(!schedulable(&candidates, &[], Timestamp::from_unix_seconds(i64::MIN + 1)));
    assert!(schedulable(&candidates, &[], Timestamp::from_unix_seconds(i64::MIN + 2)));
    let planned = plan(candidates, &known, Timestamp::from_unix_seconds(i64::MIN + 1));
    assert_eq!(planned.len(), 1);
    assert_eq!(planned[0].ts.unix_seconds(), i64::MIN);
}

#[test]
fn each_line_is_malformed_not_a_directory_excluded_or_kept() {
    let exclude = [Target::Name("node_modules".to_owned())];
    assert_eq!(line_outcome(false, Some("c:\\dev\\tokio"), &exclude), LineOutcome::Malformed);
    assert_eq!(line_outcome(true, None, &exclude), LineOutcome::NotADirectory);
    assert_eq!(line_outcome(true, Some("c:\\dev\\node_modules"), &exclude), LineOutcome::Excluded);
    assert_eq!(line_outcome(true, Some("c:\\dev\\tokio"), &exclude), LineOutcome::Kept);
}

#[test]
fn the_tally_counts_each_skip_reason() {
    let outcomes = [
        LineOutcome::Kept,
        LineOutcome::Malformed,
        LineOutcome::NotADirectory,
        LineOutcome::NotADirectory,
        LineOutcome::Excluded,
        LineOutcome::Kept,
    ];
    assert_eq!(tally(&outcomes), Skipped { malformed: 1, not_a_directory: 2, excluded: 1 });
    assert_eq!(tally(&[]), Skipped { malformed: 0, not_a_directory: 0, excluded: 0 });
}

#[test]
fn dedupe_keeps_each_key_where_it_first_appears() {
    let (kept, duplicate) = dedupe_by_key(vec![
        (1, dir("c:\\dev\\b")),
        (4, dir("c:\\dev\\a")),
        (9, dir("C:\\DEV\\B")),
        (2, dir("c:\\dev\\c")),
    ]);
    assert_eq!(duplicate, 1);
    assert_eq!(kept, vec![(9, dir("C:\\DEV\\B")), (4, dir("c:\\dev\\a")), (2, dir("c:\\dev\\c"))]);
}
