use furet::normalize::Normalized;
use furet::stage1;
use furet::stage2::{
    best_window_distance, explain, max_distance, optimal_string_alignment, query_max_distance, score,
    LONG_QUERY_MIN_LEN, MAX_DISTANCE, SCORE_CAP, SHORT_QUERY_MAX_DISTANCE, TYPO_MIN_QUERY_LEN,
};

fn distance(left: &str, right: &str) -> usize {
    optimal_string_alignment(
        Normalized::new(left).chars(),
        Normalized::new(right).chars(),
    )
}

fn window_distance(query: &str, name: &str) -> usize {
    best_window_distance(
        Normalized::new(query).chars(),
        Normalized::new(name).chars(),
    )
}

#[test]
fn a_query_shorter_than_the_threshold_never_matches() {
    assert_eq!(TYPO_MIN_QUERY_LEN, 4);
    assert_eq!(distance("zig", "zib"), 1);
    assert_eq!(score("zig", "zib", TYPO_MIN_QUERY_LEN), None);
    assert_eq!(score("hlix", "helix", TYPO_MIN_QUERY_LEN), Some(2));
    assert_eq!(score("hli", "helix", TYPO_MIN_QUERY_LEN), None);
}

#[test]
fn a_multi_token_query_never_matches() {
    assert_eq!(score("tokoi", "tokio", TYPO_MIN_QUERY_LEN), Some(2));
    assert_eq!(score("tokoi tokoi", "tokio", TYPO_MIN_QUERY_LEN), None);
    assert_eq!(score("tokio tokio", "tokio", TYPO_MIN_QUERY_LEN), None);
}

#[test]
fn an_empty_query_or_an_empty_name_never_matches() {
    assert_eq!(score("", "tokio", TYPO_MIN_QUERY_LEN), None);
    assert_eq!(score("   ", "tokio", TYPO_MIN_QUERY_LEN), None);
    assert_eq!(score("tokio", "", TYPO_MIN_QUERY_LEN), None);
}

#[test]
fn a_one_edit_typo_scores_two() {
    assert_eq!(window_distance("tokoi", "tokio"), 1);
    assert_eq!(score("tokoi", "tokio", TYPO_MIN_QUERY_LEN), Some(2));
    assert_eq!(score("helyx", "helix", TYPO_MIN_QUERY_LEN), Some(2));
}

#[test]
fn an_adjacent_transposition_counts_as_a_single_edit() {
    assert_eq!(distance("ripgrpe", "ripgrep"), 1);
    assert_eq!(score("ripgrpe", "ripgrep", TYPO_MIN_QUERY_LEN), Some(2));
    assert_eq!(distance("zellij", "zellij"), 0);
}

#[test]
fn the_alignment_variant_never_edits_the_same_span_twice() {
    assert_eq!(distance("ca", "abc"), 3);
    assert_eq!(distance("ab", "ba"), 1);
}

#[test]
fn a_distance_of_two_scores_one_and_a_distance_of_three_scores_nothing() {
    assert_eq!(window_distance("meovin", "neovim"), MAX_DISTANCE);
    assert_eq!(score("meovin", "neovim", TYPO_MIN_QUERY_LEN), Some(1));
    assert_eq!(window_distance("zellij", "zelda"), 3);
    assert_eq!(score("zellij", "zelda", TYPO_MIN_QUERY_LEN), None);
}

#[test]
fn the_maximum_distance_depends_on_the_query_length() {
    assert_eq!(LONG_QUERY_MIN_LEN, 6);
    assert_eq!(max_distance(4), SHORT_QUERY_MAX_DISTANCE);
    assert_eq!(max_distance(5), SHORT_QUERY_MAX_DISTANCE);
    assert_eq!(max_distance(6), MAX_DISTANCE);
    assert_eq!(max_distance(10), MAX_DISTANCE);
}

#[test]
fn five_characters_refuse_the_distance_six_characters_accept() {
    assert_eq!(window_distance("tokio", "tokei"), 2);
    assert_eq!(score("tokio", "tokei", TYPO_MIN_QUERY_LEN), None);
    assert_eq!(explain("tokio", "tokei", TYPO_MIN_QUERY_LEN), Some(2));
    assert_eq!(query_max_distance("tokio"), SHORT_QUERY_MAX_DISTANCE);
    assert_eq!(query_max_distance("neovim"), MAX_DISTANCE);
}

#[test]
fn a_short_query_still_accepts_a_single_edit() {
    assert_eq!(score("tokoi", "tokio", TYPO_MIN_QUERY_LEN), Some(2));
    assert_eq!(score("hlix", "helix", TYPO_MIN_QUERY_LEN), Some(2));
    assert_eq!(score("obmi", "ombi", TYPO_MIN_QUERY_LEN), Some(2));
}

#[test]
fn a_four_character_query_refuses_every_two_edit_name() {
    for name in ["outils", "prompts", "toolwindows", "temporaire"] {
        assert_eq!(explain("ombi", name, TYPO_MIN_QUERY_LEN), Some(2), "{name}");
        assert_eq!(score("ombi", name, TYPO_MIN_QUERY_LEN), None, "{name}");
    }
}

#[test]
fn an_accented_query_is_measured_after_normalization() {
    let five = "re\u{301}uni";
    let six = "re\u{301}unio";
    assert_eq!(five.chars().count(), 6);
    assert_eq!(Normalized::new(five).len(), 5);
    assert_eq!(query_max_distance(five), SHORT_QUERY_MAX_DISTANCE);
    assert_eq!(Normalized::new(six).len(), 6);
    assert_eq!(query_max_distance(six), MAX_DISTANCE);
    assert_eq!(explain(five, "rexnu", TYPO_MIN_QUERY_LEN), Some(2));
    assert_eq!(score(five, "rexnu", TYPO_MIN_QUERY_LEN), None);
}

#[test]
fn a_sliding_window_matches_a_fragment_of_a_longer_name() {
    assert_eq!(window_distance("ripgrep", "rip-grep-all"), 1);
    assert_eq!(
        score("ripgrep", "rip-grep-all", TYPO_MIN_QUERY_LEN),
        Some(2)
    );
    assert_eq!(
        score("ripgrep", "ripgrep-all-the-things", TYPO_MIN_QUERY_LEN),
        Some(SCORE_CAP)
    );
}

#[test]
fn an_accented_name_is_normalized_before_the_distance() {
    assert_eq!(score("reunoins", "Réunions", TYPO_MIN_QUERY_LEN), Some(2));
    assert_eq!(score("réunoins", "Reunions", TYPO_MIN_QUERY_LEN), Some(2));
    assert_eq!(
        score("reunoins", "Réunions", TYPO_MIN_QUERY_LEN),
        score("reunoins", "reunions", TYPO_MIN_QUERY_LEN)
    );
}

#[test]
fn explain_reports_the_distance_behind_every_accepted_score() {
    assert_eq!(explain("tokoi", "tokio", TYPO_MIN_QUERY_LEN), Some(1));
    assert_eq!(
        explain("tokio", "tokei", TYPO_MIN_QUERY_LEN),
        Some(MAX_DISTANCE)
    );
    assert_eq!(
        explain("ripgrep", "ripgrep-all-the-things", TYPO_MIN_QUERY_LEN),
        Some(0)
    );
    assert_eq!(explain("hlix", "helix", TYPO_MIN_QUERY_LEN), Some(1));
}

#[test]
fn explain_still_reports_a_distance_score_rejects_as_too_far() {
    assert_eq!(score("zellij", "zelda", TYPO_MIN_QUERY_LEN), None);
    assert_eq!(explain("zellij", "zelda", TYPO_MIN_QUERY_LEN), Some(3));
    assert_eq!(score("tokio", "", TYPO_MIN_QUERY_LEN), None);
    assert_eq!(explain("tokio", "", TYPO_MIN_QUERY_LEN), Some(5));
}

#[test]
fn explain_reports_nothing_when_the_query_is_not_eligible_at_all() {
    assert_eq!(explain("zig", "zib", TYPO_MIN_QUERY_LEN), None);
    assert_eq!(explain("hli", "helix", TYPO_MIN_QUERY_LEN), None);
    assert_eq!(explain("tokoi tokoi", "tokio", TYPO_MIN_QUERY_LEN), None);
    assert_eq!(explain("", "tokio", TYPO_MIN_QUERY_LEN), None);
    assert_eq!(explain("   ", "tokio", TYPO_MIN_QUERY_LEN), None);
}


/// A small deterministic generator standing in for random sampling.
struct Lcg(u64);

impl Lcg {
    fn next(&mut self, bound: usize) -> usize {
        self.0 = self.0.wrapping_mul(6364136223846793005).wrapping_add(1442695040888963407);
        ((self.0 >> 33) as usize) % bound
    }

    fn text(&mut self, alphabet: &[char], max_len: usize) -> String {
        let length = self.next(max_len + 1);
        (0..length).map(|_| alphabet[self.next(alphabet.len())]).collect()
    }
}

static ALPHABET: &[char] = &['a', 'b', 'c', 'k', 'o', 't', 'i', 'R', 'é', '-', '_', '.'];

static SPACED: &[char] = &['a', 'b', 'c', 'k', 'o', 't', 'i', 'R', 'é', '-', '_', '.', ' '];

fn pairs(seed: u64, count: usize, query_alphabet: &[char], query_len: usize) -> Vec<(String, String)> {
    let mut gen = Lcg(seed);
    (0..count)
        .map(|_| (gen.text(query_alphabet, query_len), gen.text(SPACED, 16)))
        .collect()
}

fn names_and_queries_within_two_deletions(seed: u64, count: usize) -> Vec<(String, String)> {
    let mut gen = Lcg(seed);
    (0..count)
        .map(|_| {
            let length = LONG_QUERY_MIN_LEN + MAX_DISTANCE + gen.next(14 - (LONG_QUERY_MIN_LEN + MAX_DISTANCE));
            let characters: Vec<char> = (0..length).map(|_| ALPHABET[gen.next(ALPHABET.len())]).collect();
            let dropped: Vec<usize> = (0..gen.next(MAX_DISTANCE + 1)).map(|_| gen.next(length)).collect();
            let name: String = characters.iter().collect();
            let query: String = characters
                .iter()
                .enumerate()
                .filter(|(index, _)| !dropped.contains(index))
                .map(|(_, character)| *character)
                .collect();
            (name, query)
        })
        .collect()
}

#[test]
fn a_stage_one_score_always_beats_a_stage_two_score() {
    for (query, name) in pairs(11, 400, SPACED, 12) {
        if let (Some(first), Some(second)) =
            (stage1::score(&query, &name, None), score(&query, &name, TYPO_MIN_QUERY_LEN))
        {
            assert!(first > second);
        }
    }
}

#[test]
fn a_near_miss_scoring_in_both_stages_still_ranks_stage_one_first() {
    for (name, query) in names_and_queries_within_two_deletions(12, 300) {
        let first = stage1::score(&query, &name, None);
        let second = score(&query, &name, TYPO_MIN_QUERY_LEN);
        assert!(first.is_some(), "{query:?} {name:?}");
        assert!(second.is_some(), "{query:?} {name:?}");
        assert!(first.unwrap_or(0) >= stage1::SCORE_FLOOR);
        assert!(first.unwrap_or(0) > second.unwrap_or(u32::MAX));
    }
}

#[test]
fn a_stage_two_score_always_lies_between_one_and_the_cap() {
    for (query, name) in pairs(13, 400, SPACED, 12) {
        if let Some(found) = score(&query, &name, TYPO_MIN_QUERY_LEN) {
            assert!((1..=SCORE_CAP).contains(&found));
            assert!(found < stage1::SCORE_FLOOR);
        }
    }
}

#[test]
fn explain_reports_the_distance_every_accepted_score_encodes() {
    for (query, name) in pairs(14, 400, SPACED, 12) {
        if let Some(found) = score(&query, &name, TYPO_MIN_QUERY_LEN) {
            let distance = usize::try_from(SCORE_CAP - found).unwrap_or(usize::MAX);
            assert_eq!(explain(&query, &name, TYPO_MIN_QUERY_LEN), Some(distance));
            assert!(distance <= query_max_distance(&query));
        }
    }
}

#[test]
fn a_query_shorter_than_six_characters_never_accepts_two_edits() {
    for (query, name) in pairs(15, 400, ALPHABET, 5) {
        if score(&query, &name, TYPO_MIN_QUERY_LEN).is_some() {
            assert!(Normalized::new(&query).len() < LONG_QUERY_MIN_LEN);
            let distance = explain(&query, &name, TYPO_MIN_QUERY_LEN);
            assert!(
                matches!(distance, Some(found) if found <= SHORT_QUERY_MAX_DISTANCE),
                "{distance:?}"
            );
        }
    }
}

#[test]
fn explain_and_score_agree_on_eligibility_and_on_the_threshold() {
    for (query, name) in pairs(16, 400, SPACED, 12) {
        let ceiling = query_max_distance(&query);
        match explain(&query, &name, TYPO_MIN_QUERY_LEN) {
            None => assert_eq!(score(&query, &name, TYPO_MIN_QUERY_LEN), None),
            Some(distance) if distance > ceiling => {
                assert_eq!(score(&query, &name, TYPO_MIN_QUERY_LEN), None);
            }
            Some(distance) => {
                let expected = SCORE_CAP - u32::try_from(distance).unwrap_or(u32::MAX);
                assert_eq!(score(&query, &name, TYPO_MIN_QUERY_LEN), Some(expected));
            }
        }
    }
}

#[test]
fn the_same_pair_always_produces_the_same_stage_two_score() {
    for (query, name) in pairs(17, 200, SPACED, 12) {
        assert_eq!(score(&query, &name, TYPO_MIN_QUERY_LEN), score(&query, &name, TYPO_MIN_QUERY_LEN));
    }
}
