use furet::clock::Timestamp;
use furet::decision::Decision;
use furet::explain::{explain, render, Elimination, Evaluation, Origin, Report, Stage1Detail};
use furet::rank::{Candidate, Engine, Stage, TieBreak};
use furet::stage1_nucleo::NucleoScorer;
use furet::stage2::TYPO_MIN_QUERY_LEN;
use furet::{rank, stage1};
use std::collections::HashSet;

fn at(hours: i64) -> Timestamp {
    Timestamp::from_unix_seconds(1_700_000_000 - hours * 3_600)
}

fn dir(path: &str, name: &str, folder: &str, hours: i64) -> Candidate {
    Candidate {
        path: path.to_owned(),
        name: name.to_owned(),
        folder: Some(folder.to_owned()),
        last_visit: at(hours),
        missing: false,
    }
}

fn reason(report: &Report, path: &str) -> Option<Elimination> {
    report
        .evaluations
        .iter()
        .find_map(|evaluation| match evaluation {
            Evaluation::Eliminated { candidate, reason } if candidate.path == path => {
                Some(*reason)
            }
            _ => None,
        })
}

fn matched(report: &Report, path: &str) -> Option<(Stage, u32)> {
    report
        .evaluations
        .iter()
        .find_map(|evaluation| match evaluation {
            Evaluation::Matched {
                candidate,
                stage,
                score,
                ..
            } if candidate.path == path => Some((*stage, *score)),
            _ => None,
        })
}

fn world() -> Vec<Candidate> {
    let mut gone = dir("/dev/gone", "gone", "/dev", 5);
    gone.missing = true;
    vec![
        dir("/dev/tokio", "tokio", "/dev", 1),
        dir("/dev/tokyo", "tokyo", "/dev", 2),
        dir("/dev/zellij", "zellij", "/dev", 3),
        dir("/dev/helix", "helix", "/dev", 4),
        gone,
    ]
}

#[test]
fn every_candidate_is_evaluated_exactly_once() {
    let candidates = world();
    let report = explain(
        "tokio",
        "/dev/helix",
        &candidates,
        Origin::Database,
        TYPO_MIN_QUERY_LEN,
        Engine::Reference,
    );
    assert_eq!(report.evaluations.len(), candidates.len());
    assert_eq!(report.normalized_query, "tokio");
}

#[test]
fn the_current_directory_is_eliminated_before_anything_else() {
    let candidates = world();
    let report = explain(
        "helix",
        "/DEV/Helix",
        &candidates,
        Origin::Database,
        TYPO_MIN_QUERY_LEN,
        Engine::Reference,
    );
    assert_eq!(
        reason(&report, "/dev/helix"),
        Some(Elimination::CurrentDirectory)
    );
}

#[test]
fn a_missing_candidate_is_eliminated_as_disappeared() {
    let mut candidates = world();
    candidates[0].missing = true;
    let report = explain(
        "tokio",
        "",
        &candidates,
        Origin::Database,
        TYPO_MIN_QUERY_LEN,
        Engine::Reference,
    );
    assert_eq!(
        reason(&report, "/dev/tokio"),
        Some(Elimination::Disappeared)
    );
    assert_eq!(reason(&report, "/dev/gone"), Some(Elimination::Disappeared));
}

#[test]
fn a_candidate_missing_and_current_reports_the_current_directory_first() {
    let mut candidates = world();
    candidates[0].missing = true;
    let report = explain(
        "tokio",
        "/dev/tokio",
        &candidates,
        Origin::Database,
        TYPO_MIN_QUERY_LEN,
        Engine::Reference,
    );
    assert_eq!(
        reason(&report, "/dev/tokio"),
        Some(Elimination::CurrentDirectory)
    );
}

#[test]
fn a_query_too_short_for_stage_two_eliminates_on_no_subsequence() {
    let candidates = world();
    let report = explain(
        "tok",
        "",
        &candidates,
        Origin::Database,
        TYPO_MIN_QUERY_LEN,
        Engine::Reference,
    );
    assert_eq!(matched(&report, "/dev/tokio"), Some((Stage::One, 68)));
    assert_eq!(
        reason(&report, "/dev/helix"),
        Some(Elimination::NoSubsequence)
    );
    assert_eq!(
        reason(&report, "/dev/zellij"),
        Some(Elimination::NoSubsequence)
    );
}

#[test]
fn a_name_too_far_from_the_query_reports_its_distance() {
    let candidates = world();
    let report = explain(
        "tokio",
        "",
        &candidates,
        Origin::Database,
        TYPO_MIN_QUERY_LEN,
        Engine::Reference,
    );
    assert_eq!(
        reason(&report, "/dev/zellij"),
        Some(Elimination::DistanceTooFar { distance: 4 })
    );
    assert_eq!(
        reason(&report, "/dev/helix"),
        Some(Elimination::DistanceTooFar { distance: 4 })
    );
}

#[test]
fn an_elimination_names_the_threshold_the_query_length_applies() {
    let short = [dir("/dev/tokei", "tokei", "/dev", 1)];
    let report = explain(
        "tokio",
        "",
        &short,
        Origin::Database,
        TYPO_MIN_QUERY_LEN,
        Engine::Reference,
    );
    assert_eq!(report.stage2_max_distance, 1);
    assert_eq!(
        reason(&report, "/dev/tokei"),
        Some(Elimination::DistanceTooFar { distance: 2 })
    );
    let rendered = render(&report);
    assert!(
        rendered.contains("/dev/tokei: distance 2 > 1"),
        "{rendered}"
    );
    let long = [dir("/dev/neovim", "neovim", "/dev", 1)];
    let accepted = explain(
        "meovin",
        "",
        &long,
        Origin::Database,
        TYPO_MIN_QUERY_LEN,
        Engine::Reference,
    );
    assert_eq!(accepted.stage2_max_distance, 2);
    let rendered = render(&accepted);
    assert!(rendered.contains("distance 2 (max 2)"), "{rendered}");
}

#[test]
fn stage_one_wins_before_stage_two_and_both_keep_their_detail() {
    let candidates = world();
    let report = explain(
        "tokio",
        "",
        &candidates,
        Origin::Database,
        TYPO_MIN_QUERY_LEN,
        Engine::Reference,
    );
    assert_eq!(matched(&report, "/dev/tokio"), Some((Stage::One, 90)));
    assert_eq!(matched(&report, "/dev/tokyo"), Some((Stage::Two, 2)));
    let detail: Vec<(bool, bool)> = report
        .evaluations
        .iter()
        .filter_map(|evaluation| match evaluation {
            Evaluation::Matched {
                stage1,
                stage2_distance,
                ..
            } => Some((stage1.is_some(), stage2_distance.is_some())),
            Evaluation::Eliminated { .. } => None,
        })
        .collect();
    assert_eq!(detail, [(true, false), (false, true)]);
}

#[test]
fn the_decision_and_the_tie_break_match_the_ranking() {
    let candidates = world();
    let report = explain(
        "tokio",
        "",
        &candidates,
        Origin::Database,
        TYPO_MIN_QUERY_LEN,
        Engine::Reference,
    );
    assert_eq!(report.decision, Decision::Jump(&candidates[0]));
    assert_eq!(report.deciding_criterion, Some(TieBreak::Score));
    let empty = explain(
        "zigzag",
        "",
        &candidates,
        Origin::Database,
        TYPO_MIN_QUERY_LEN,
        Engine::Reference,
    );
    assert_eq!(empty.decision, Decision::NoMatch);
    assert_eq!(empty.deciding_criterion, None);
}

#[test]
fn a_stage_two_tie_reports_the_menu_it_would_open() {
    let candidates = [
        dir("/aaa/tokio", "tokio", "/aaa", 1),
        dir("/zzz/tokio", "tokio", "/zzz", 2),
    ];
    let report = explain(
        "tokoi",
        "",
        &candidates,
        Origin::Database,
        TYPO_MIN_QUERY_LEN,
        Engine::Reference,
    );
    assert_eq!(
        report.decision,
        Decision::Menu(vec![&candidates[0], &candidates[1]])
    );
    assert_eq!(report.deciding_criterion, Some(TieBreak::Recency));
}

#[test]
fn render_lays_out_every_section_in_a_stable_order() {
    let candidates = world();
    let rendered = render(&explain(
        "tokio",
        "/dev/helix",
        &candidates,
        Origin::Database,
        TYPO_MIN_QUERY_LEN,
        Engine::Reference,
    ));
    let expected = "normalized query: tokio\n\
        engine: reference\n\
        evaluated candidates:\n\
        \x20 stage 1 score 90 /dev/tokio\n\
        \x20   token 'tokio': base 10 + length 5 + placement 50 + prefix 10 + density 10 = 85\n\
        \x20   order bonus +5\n\
        \x20   folder bonus +0\n\
        \x20 stage 2 score 2 /dev/tokyo\n\
        \x20   distance 1 (max 1)\n\
        eliminated candidates:\n\
        \x20 /dev/gone: disappeared\n\
        \x20 /dev/helix: current directory\n\
        \x20 /dev/zellij: distance 4 > 1\n\
        deciding criterion: score\n\
        decision: jump /dev/tokio\n";
    assert_eq!(rendered, expected);
}

#[test]
fn render_names_the_floor_and_an_empty_report() {
    let long = format!("a{}z", "b".repeat(50));
    let candidates = [dir("/dev/long", &long, "/dev", 1)];
    let rendered = render(&explain(
        "az",
        "",
        &candidates,
        Origin::Database,
        TYPO_MIN_QUERY_LEN,
        Engine::Reference,
    ));
    assert!(rendered.contains("floor raises"), "{rendered}");
    assert!(rendered.contains("stage 1 score 4 /dev/long"), "{rendered}");
    let nothing: [Candidate; 0] = [];
    assert_eq!(
        render(&explain(
            "tokio",
            "",
            &nothing,
            Origin::Database,
            TYPO_MIN_QUERY_LEN,
            Engine::Reference
        )),
        "normalized query: tokio\nengine: reference\nevaluated candidates:\n  (none)\neliminated candidates:\n  (none)\ndeciding criterion: none (no runner-up)\ndecision: none\n"
    );
}

#[test]
fn a_fallback_origin_renders_an_extra_origin_line() {
    let candidates = [dir("/dev/tokio", "tokio", "/dev", 1)];
    let database = render(&explain(
        "tokio",
        "",
        &candidates,
        Origin::Database,
        TYPO_MIN_QUERY_LEN,
        Engine::Reference,
    ));
    assert!(!database.contains("origin:"), "{database}");
    let fallback = render(&explain(
        "tokio",
        "",
        &candidates,
        Origin::Fallback,
        TYPO_MIN_QUERY_LEN,
        Engine::Reference,
    ));
    assert_eq!(
        fallback,
        "normalized query: tokio\n\
        engine: reference\n\
        origin: fallback\n\
        evaluated candidates:\n\
        \x20 stage 1 score 90 /dev/tokio\n\
        \x20   token 'tokio': base 10 + length 5 + placement 50 + prefix 10 + density 10 = 85\n\
        \x20   order bonus +5\n\
        \x20   folder bonus +0\n\
        eliminated candidates:\n\
        \x20 (none)\n\
        deciding criterion: none (no runner-up)\n\
        decision: jump /dev/tokio\n"
    );
}

#[test]
fn a_nucleo_report_names_its_engine_and_each_token_score() {
    let candidates = [
        dir("/src/neovim/neovim", "neovim", "/src/neovim", 1),
        dir("/dev/helix", "helix", "/dev", 2),
    ];
    let report = explain(
        "Neo VIM",
        "",
        &candidates,
        Origin::Database,
        TYPO_MIN_QUERY_LEN,
        Engine::Nucleo,
    );
    assert_eq!(report.engine, Engine::Nucleo);
    let detail = NucleoScorer::new()
        .explain("Neo VIM", "neovim", Some("/src/neovim"))
        .expect("both tokens match");
    assert_eq!(detail.folder_bonus, 2);
    let rendered = render(&report);
    let expected = format!(
        "normalized query: neo vim\n\
        engine: nucleo\n\
        evaluated candidates:\n\
        \x20 stage 1 score {} /src/neovim/neovim\n\
        \x20   token 'neo': nucleo {}\n\
        \x20   token 'vim': nucleo {}\n\
        \x20   sum {}, floored {}\n\
        \x20   folder bonus +2\n\
        eliminated candidates:\n\
        \x20 /dev/helix: no subsequence\n\
        deciding criterion: none (no runner-up)\n\
        decision: jump /src/neovim/neovim\n",
        detail.total,
        detail.tokens[0].score,
        detail.tokens[1].score,
        detail.sum,
        detail.floored
    );
    assert_eq!(rendered, expected);
}

#[test]
fn a_nucleo_report_omits_the_folder_bonus_line_when_it_is_not_awarded() {
    let candidates = [dir("/dev/tokio", "tokio", "/dev", 1)];
    let rendered = render(&explain(
        "tokio",
        "",
        &candidates,
        Origin::Database,
        TYPO_MIN_QUERY_LEN,
        Engine::Nucleo,
    ));
    assert!(rendered.contains("engine: nucleo\n"), "{rendered}");
    assert!(
        rendered.contains("    token 'tokio': nucleo "),
        "{rendered}"
    );
    assert!(!rendered.contains("folder bonus"), "{rendered}");
    assert!(!rendered.contains("order bonus"), "{rendered}");
}

static NAMES: &[&str] = &[
    "tokio",
    "tokei",
    "helix",
    "Réunions",
    "my-dev",
    "d-e-v",
    "neovim",
];
static FOLDERS: &[&str] = &["/dev", "/archive", "/src/neovim"];
static QUERIES: &[&str] = &[
    "tok",
    "tokio",
    "tokoi",
    "réunions",
    "dev",
    "neo vim",
    "zigzag",
];

/// A small deterministic generator standing in for random sampling.
struct Lcg(u64);

impl Lcg {
    fn next(&mut self, bound: usize) -> usize {
        self.0 = self.0.wrapping_mul(6364136223846793005).wrapping_add(1442695040888963407);
        ((self.0 >> 33) as usize) % bound
    }

    fn candidate_set(&mut self) -> Vec<Candidate> {
        let mut seen: HashSet<String> = HashSet::new();
        let count = self.next(8);
        (0..count)
            .map(|_| {
                let folder = FOLDERS[self.next(FOLDERS.len())];
                let name = NAMES[self.next(NAMES.len())];
                let mut candidate = dir(&format!("{folder}/{name}"), name, folder, self.next(96) as i64);
                candidate.missing = self.next(2) == 1;
                candidate
            })
            .filter(|candidate| seen.insert(candidate.path.clone()))
            .collect()
    }
}

#[test]
fn nucleo_explain_agrees_with_rank_on_stage_score_and_order() {
    let mut gen = Lcg(51);
    for _ in 0..150 {
        let candidates = gen.candidate_set();
        let query = QUERIES[gen.next(QUERIES.len())];
        let ranked = rank::rank(query, "", &candidates, TYPO_MIN_QUERY_LEN, Engine::Nucleo);
        let report = explain(query, "", &candidates, Origin::Database, TYPO_MIN_QUERY_LEN, Engine::Nucleo);
        let mut matched: Vec<(&str, Stage, u32)> = Vec::new();
        for evaluation in &report.evaluations {
            if let Evaluation::Matched { candidate, stage, score, stage1, .. } = evaluation {
                match (stage, stage1) {
                    (Stage::One, Some(Stage1Detail::Nucleo(detail))) => {
                        assert_eq!(detail.total, *score);
                    }
                    (Stage::Two, None) => {}
                    (stage, detail) => panic!("{:?} carried {:?}", stage, detail),
                }
                matched.push((candidate.path.as_str(), *stage, *score));
            }
        }
        let expected: Vec<(&str, Stage, u32)> = ranked
            .iter()
            .map(|scored| (scored.candidate.path.as_str(), scored.stage, scored.score))
            .collect();
        assert_eq!(matched, expected);
        assert_eq!(report.deciding_criterion, rank::deciding_criterion(&ranked));
        assert_eq!(report.evaluations.len(), candidates.len());
        let reference = explain(query, "", &candidates, Origin::Database, TYPO_MIN_QUERY_LEN, Engine::Reference);
        for evaluation in &reference.evaluations {
            if let Evaluation::Matched { stage: Stage::One, stage1, .. } = evaluation {
                assert!(matches!(stage1, Some(Stage1Detail::Reference(_))));
            }
        }
        assert!(stage1::SCORE_FLOOR > furet::stage2::SCORE_CAP);
    }
}

#[test]
fn eliminated_candidates_are_listed_by_path_after_the_ranked_ones() {
    let candidates = [
        dir("/zz/helix", "helix", "/zz", 1),
        dir("/dev/tokio", "tokio", "/dev", 2),
        dir("/aa/zellij", "zellij", "/aa", 3),
    ];
    let report = explain("tokio", "", &candidates, Origin::Database, TYPO_MIN_QUERY_LEN, Engine::Reference);
    let order: Vec<&str> = report
        .evaluations
        .iter()
        .map(|evaluation| match evaluation {
            Evaluation::Matched { candidate, .. } => candidate.path.as_str(),
            Evaluation::Eliminated { candidate, .. } => candidate.path.as_str(),
        })
        .collect();
    assert_eq!(order, ["/dev/tokio", "/aa/zellij", "/zz/helix"]);
    assert!(report.project_root.is_none());
    assert_eq!(report.origin, Origin::Database);
}

fn token_breakdown(placement: i64) -> furet::stage1::TokenBreakdown {
    furet::stage1::TokenBreakdown { token: "tok".to_owned(), base: 10, length: 3, placement, prefix: 0, density: 0 }
}

#[test]
fn sums_that_fit_an_i64_are_renderable_whatever_their_ranges() {
    let wide = furet::stage1::Breakdown {
        tokens: vec![token_breakdown(1_000_000_000_000)],
        order_bonus: 50,
        folder_bonus: 7,
        total: 4,
    };
    assert!(furet::explain::breakdown_sums_fit(&wide));
    let overflowing = furet::stage1::Breakdown {
        tokens: vec![token_breakdown(i64::MAX - 20), token_breakdown(i64::MAX - 20)],
        order_bonus: 0,
        folder_bonus: 0,
        total: 4,
    };
    assert!(!furet::explain::breakdown_sums_fit(&overflowing));
}

#[test]
fn eliminated_candidates_with_one_path_keep_their_input_order() {
    let first = dir("/dev/zz", "alpha", "/dev", 1);
    let second = dir("/dev/zz", "omega", "/dev", 2);
    let third = dir("/dev/aa", "beta", "/dev", 3);
    let candidates = vec![first, second, third];
    let report = explain("tokio", "", &candidates, Origin::Database, TYPO_MIN_QUERY_LEN, Engine::Reference);
    let order: Vec<&str> = report
        .evaluations
        .iter()
        .map(|evaluation| match evaluation {
            Evaluation::Eliminated { candidate, .. } => candidate.name.as_str(),
            Evaluation::Matched { candidate, .. } => candidate.name.as_str(),
        })
        .collect();
    assert_eq!(order, vec!["beta", "alpha", "omega"]);
}
