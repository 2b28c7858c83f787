use furet::calibration::{probable_failures, FailureReason, QueryRecord, VisitRecord};
use furet::clock::Timestamp;

fn at(seconds: i64) -> Timestamp {
    Timestamp::from_unix_seconds(seconds)
}

fn query(id: i64, ts: i64, result_dir_id: Option<i64>, outcome: &str) -> QueryRecord {
    QueryRecord {
        id,
        ts: at(ts),
        cwd: "c:\\dev".to_owned(),
        query: "tok".to_owned(),
        result_dir_id,
        stage: "1".to_owned(),
        outcome: outcome.to_owned(),
    }
}

fn visit(dir_id: i64, ts: i64, source: &str, session: &str) -> VisitRecord {
    VisitRecord {
        dir_id,
        ts: at(ts),
        source: source.to_owned(),
        session: session.to_owned(),
    }
}

#[test]
fn a_landing_followed_by_back_within_threshold_is_a_backtrack() {
    let queries = [query(1, 100, Some(7), "jump")];
    let visits = [visit(7, 105, "jump", "s"), visit(9, 110, "back", "s")];
    let flagged = probable_failures(&queries, &visits);
    assert_eq!(flagged.len(), 1);
    assert!(matches!(flagged[0].reason, FailureReason::Backtrack));
}

#[test]
fn a_landing_followed_by_a_different_dir_within_threshold_is_moved_elsewhere() {
    let queries = [query(1, 100, Some(7), "jump")];
    let visits = [visit(7, 105, "jump", "s"), visit(9, 110, "hook", "s")];
    let flagged = probable_failures(&queries, &visits);
    assert_eq!(flagged.len(), 1);
    assert!(matches!(flagged[0].reason, FailureReason::MovedElsewhere));
}

#[test]
fn a_landing_followed_by_a_back_to_a_different_dir_is_flagged() {
    let queries = [query(1, 100, Some(7), "jump")];
    let visits = [visit(7, 105, "jump", "s"), visit(9, 110, "back", "s")];
    let flagged = probable_failures(&queries, &visits);
    assert_eq!(flagged.len(), 1);
}

#[test]
fn a_landing_followed_by_the_same_dir_again_is_not_flagged() {
    let queries = [query(1, 100, Some(7), "jump")];
    let visits = [visit(7, 105, "jump", "s"), visit(7, 110, "hook", "s")];
    assert!(probable_failures(&queries, &visits).is_empty());
}

#[test]
fn a_back_at_exactly_eleven_seconds_is_not_flagged() {
    let queries = [query(1, 100, Some(7), "jump")];
    let visits = [visit(7, 100, "jump", "s"), visit(9, 111, "back", "s")];
    assert!(probable_failures(&queries, &visits).is_empty());
}

#[test]
fn a_back_at_exactly_ten_seconds_is_flagged() {
    let queries = [query(1, 100, Some(7), "jump")];
    let visits = [visit(7, 100, "jump", "s"), visit(9, 110, "back", "s")];
    assert_eq!(probable_failures(&queries, &visits).len(), 1);
}

#[test]
fn a_jump_with_no_landing_visit_is_not_flagged() {
    let queries = [query(1, 100, Some(7), "jump")];
    let visits: [VisitRecord; 0] = [];
    assert!(probable_failures(&queries, &visits).is_empty());
}

#[test]
fn a_landing_with_no_further_visits_is_not_flagged() {
    let queries = [query(1, 100, Some(7), "jump")];
    let visits = [visit(7, 105, "jump", "s")];
    assert!(probable_failures(&queries, &visits).is_empty());
}

#[test]
fn a_quick_backtrack_in_a_different_session_is_not_correlated() {
    let queries = [query(1, 100, Some(7), "jump")];
    let visits = [
        visit(7, 105, "jump", "session-a"),
        visit(9, 108, "back", "session-b"),
    ];
    assert!(probable_failures(&queries, &visits).is_empty());
}

#[test]
fn a_non_jump_outcome_is_never_considered() {
    let queries = [query(1, 100, Some(7), "menu")];
    let visits = [visit(7, 105, "jump", "s"), visit(9, 108, "back", "s")];
    assert!(probable_failures(&queries, &visits).is_empty());
}

#[test]
fn two_independent_queries_are_each_resolved_without_cross_contamination() {
    let queries = [
        query(1, 100, Some(7), "jump"),
        query(2, 200, Some(8), "jump"),
    ];
    let visits = [
        visit(7, 105, "jump", "session-a"),
        visit(9, 108, "back", "session-a"),
        visit(8, 205, "jump", "session-b"),
        visit(8, 260, "hook", "session-b"),
    ];
    let flagged = probable_failures(&queries, &visits);
    assert_eq!(flagged.len(), 1);
    assert_eq!(flagged[0].query.id, 1);
}

#[test]
fn the_earliest_landing_wins_and_a_tie_keeps_the_first_visit() {
    let queries = [query(1, 100, Some(7), "jump")];
    let visits = [
        visit(7, 150, "jump", "late"),
        visit(7, 104, "jump", "early"),
        visit(7, 104, "jump", "same-time"),
        visit(9, 106, "back", "early"),
        visit(9, 106, "back", "same-time"),
    ];
    let flagged = probable_failures(&queries, &visits);
    assert_eq!(flagged.len(), 1);
    assert_eq!(flagged[0].reason, FailureReason::Backtrack);
}

#[test]
fn a_jump_without_a_result_directory_is_never_flagged() {
    let queries = [query(1, 100, None, "jump")];
    let visits = [visit(7, 105, "jump", "s"), visit(9, 106, "back", "s")];
    assert!(probable_failures(&queries, &visits).is_empty());
}
