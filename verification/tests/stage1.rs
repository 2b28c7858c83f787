use furet::normalize::Normalized;
use furet::stage1::{best_placement, explain, is_subsequence, match_token, score, TokenMatch, SCORE_FLOOR};

fn matched(query: &str, name: &str) -> TokenMatch {
    match_token(&Normalized::new(query), &Normalized::new(name))
        .expect("the fixture query is a subsequence of the fixture name")
}

fn placement(query: &str, name: &str) -> (i128, usize) {
    let found = best_placement(&Normalized::new(query), &Normalized::new(name))
        .expect("the fixture query is a subsequence of the fixture name");
    (found.score, found.start)
}

#[test]
fn an_exact_name_match_collects_every_bonus() {
    assert_eq!(score("tokio", "tokio", None), Some(90));
}

#[test]
fn rejects_a_token_that_is_not_a_subsequence() {
    assert_eq!(score("zig", "tokio", None), None);
    assert_eq!(score("oot", "tokio", None), None);
    assert_eq!(score("helix", "", None), None);
}

#[test]
fn an_empty_query_matches_nothing() {
    assert_eq!(score("", "tokio", None), None);
    assert_eq!(score("   ", "tokio", None), None);
}

#[test]
fn a_consecutive_run_outscores_a_gapped_placement() {
    assert_eq!(score("to", "tokio", None), Some(57));
    assert_eq!(score("tk", "tokio", None), Some(38));
}

#[test]
fn the_gap_penalty_removes_one_point_per_skipped_character() {
    assert_eq!(placement("tz", "txz").0, 17);
    assert_eq!(placement("tz", "txxz").0, 16);
    assert_eq!(placement("tz", "txxxz").0, 15);
}

#[test]
fn the_consecutive_bonus_adds_eight_per_adjacent_character() {
    assert_eq!(placement("t", "tokio").0, 18);
    assert_eq!(placement("to", "tokio").0, 26);
    assert_eq!(placement("tok", "tokio").0, 34);
}

#[test]
fn a_word_start_after_a_separator_adds_ten() {
    assert_eq!(placement("rg", "rip-grep").0, 25);
    assert_eq!(placement("rg", "ripxgrep").0, 15);
}

#[test]
fn a_camel_hump_read_on_the_original_string_adds_ten() {
    assert_eq!(placement("rg", "ripGrep").0, 26);
    assert_eq!(placement("rg", "ripgrep").0, 16);
}

#[test]
fn the_name_start_bonus_needs_the_first_character_at_index_zero() {
    assert_eq!(placement("ab", "ab-").0, 26);
    assert_eq!(placement("ab", "-ab").0, 18);
}

#[test]
fn the_prefix_bonus_needs_a_whole_string_prefix() {
    assert_eq!(matched("to", "tokio").prefix, 10);
    assert_eq!(matched("tokio", "tokio").prefix, 10);
    assert_eq!(matched("tk", "tokio").prefix, 0);
    assert_eq!(matched("ok", "tokio").prefix, 0);
}

#[test]
fn the_density_bonus_uses_truncating_division() {
    assert_eq!(matched("tokio", "tokio").density, 10);
    assert_eq!(matched("to", "tokio").density, 4);
    assert_eq!(matched("neo", "neovim").density, 5);
    assert_eq!(matched("t", "tokei").density, 2);
}

#[test]
fn the_optimal_placement_beats_the_first_greedy_one() {
    assert_eq!(placement("ab", "a-ab"), (18, 2));
}

#[test]
fn every_token_must_match_the_name() {
    assert!(score("neo vim", "neovim", None).is_some());
    assert_eq!(score("neo zig", "neovim", None), None);
}

#[test]
fn the_order_bonus_needs_strictly_increasing_token_starts() {
    assert_eq!(score("neo vim", "neovim", None), Some(101));
    assert_eq!(score("vim neo", "neovim", None), Some(96));
}

#[test]
fn the_score_is_floored_at_four() {
    let name = format!("a{}z", "b".repeat(50));
    assert_eq!(score("az", &name, None), Some(SCORE_FLOOR));
}

#[test]
fn the_folder_bonus_is_added_on_top_of_the_floor() {
    let name = format!("a{}z", "b".repeat(50));
    assert_eq!(score("az", &name, Some("azure")), Some(SCORE_FLOOR + 2));
}

#[test]
fn the_folder_bonus_adds_two_when_the_query_also_matches_the_folder() {
    assert_eq!(score("tk", "tokei", None), Some(38));
    assert_eq!(score("tk", "tokei", Some("dev\\toolkit")), Some(40));
    assert_eq!(score("tk", "tokei", Some("dev\\helix")), Some(38));
}

#[test]
fn an_accented_name_matches_its_unaccented_query() {
    assert_eq!(score("reunions", "Réunions", None), Some(117));
    assert_eq!(
        score("reunions", "Réunions", None),
        score("reunions", "reunions", None)
    );
    assert_eq!(score("réunions", "Reunions", None), Some(117));
}

#[test]
fn explain_reports_the_same_total_as_score_on_an_exact_match() {
    let breakdown = explain("tokio", "tokio", None).expect("the exact match is explained");
    assert_eq!(breakdown.total, 90);
    assert_eq!(Some(breakdown.total), score("tokio", "tokio", None));
    assert_eq!(breakdown.tokens.len(), 1);
    let token = &breakdown.tokens[0];
    assert_eq!(token.token, "tokio");
    assert_eq!(
        (
            token.base,
            token.length,
            token.placement,
            token.prefix,
            token.density
        ),
        (10, 5, 50, 10, 10)
    );
    assert_eq!(breakdown.order_bonus, 5);
    assert_eq!(breakdown.folder_bonus, 0);
}

#[test]
fn explain_reports_the_order_and_folder_bonuses_separately() {
    let ordered = explain("neo vim", "neovim", None).expect("both tokens match");
    assert_eq!(ordered.total, 101);
    assert_eq!(ordered.order_bonus, 5);
    let reversed = explain("vim neo", "neovim", None).expect("both tokens still match");
    assert_eq!(reversed.total, 96);
    assert_eq!(reversed.order_bonus, 0);
    let foldered = explain("tk", "tokei", Some("dev\\toolkit")).expect("the token matches");
    assert_eq!(foldered.total, 40);
    assert_eq!(foldered.folder_bonus, 2);
    let plain = explain("tk", "tokei", Some("dev\\helix")).expect("the token matches");
    assert_eq!(plain.total, 38);
    assert_eq!(plain.folder_bonus, 0);
}

#[test]
fn explain_rejects_exactly_what_score_rejects() {
    assert!(explain("zig", "tokio", None).is_none());
    assert!(explain("", "tokio", None).is_none());
    assert!(explain("   ", "tokio", None).is_none());
    assert!(explain("neo zig", "neovim", None).is_none());
}


/// A small deterministic generator standing in for random sampling.
struct Lcg(u64);

impl Lcg {
    fn next(&mut self, bound: usize) -> usize {
        self.0 = self.0.wrapping_mul(6364136223846793005).wrapping_add(1442695040888963407);
        ((self.0 >> 33) as usize) % bound
    }

    fn text(&mut self, alphabet: &[char], max_len: usize) -> String {
        let length = self.next(max_len + 1);
        (0..length).map(|_| alphabet[self.next(alphabet.len())]).collect()
    }
}

static ALPHABET: &[char] = &[
    'a', 'b', 'c', 'k', 'o', 't', 'i', 'R', 'é', '-', '_', '.', ' ',
];

static FOLDER_ALPHABET: &[char] = &[
    'a', 'b', 'c', 'k', 'o', 't', 'i', 'R', 'é', '-', '_', '.', ' ', '\\',
];

fn triples(seed: u64, count: usize) -> Vec<(String, String, String)> {
    let mut gen = Lcg(seed);
    (0..count)
        .map(|_| (gen.text(ALPHABET, 12), gen.text(ALPHABET, 16), gen.text(FOLDER_ALPHABET, 16)))
        .collect()
}

fn subsequence_pairs(seed: u64, count: usize) -> Vec<(String, String)> {
    let mut gen = Lcg(seed);
    (0..count)
        .map(|_| {
            let length = 1 + gen.next(15);
            let characters: Vec<char> = (0..length).map(|_| ALPHABET[gen.next(ALPHABET.len())]).collect();
            let name: String = characters.iter().collect();
            let query: String = characters.iter().filter(|_| gen.next(2) == 1).collect();
            (name, query)
        })
        .collect()
}

#[test]
fn a_stage_one_score_never_falls_below_the_floor() {
    for (query, name, folder) in triples(1, 300) {
        if let Some(found) = score(&query, &name, Some(&folder)) {
            assert!(found >= SCORE_FLOOR);
        }
        if let Some(found) = score(&query, &name, None) {
            assert!(found >= SCORE_FLOOR);
        }
    }
}

#[test]
fn a_subsequence_query_always_matches_and_respects_the_floor() {
    for (name, query) in subsequence_pairs(2, 300) {
        if query.trim().is_empty() {
            continue;
        }
        let found = score(&query, &name, None);
        assert!(found.is_some(), "{query:?} in {name:?}");
        assert!(found.unwrap_or(0) >= SCORE_FLOOR);
    }
}

#[test]
fn the_same_pair_always_produces_the_same_score() {
    for (query, name, folder) in triples(3, 200) {
        let first = score(&query, &name, Some(&folder));
        let second = score(&query, &name, Some(&folder));
        assert_eq!(first, second);
        assert_eq!(score(&query, &name, None), score(&query, &name, None));
    }
}

#[test]
fn explain_always_agrees_with_score() {
    for (query, name, folder) in triples(4, 300) {
        assert_eq!(
            explain(&query, &name, Some(&folder)).map(|found| found.total),
            score(&query, &name, Some(&folder))
        );
        assert_eq!(
            explain(&query, &name, None).map(|found| found.total),
            score(&query, &name, None)
        );
    }
}

#[test]
fn explain_agrees_with_score_on_every_subsequence_pair() {
    for (name, query) in subsequence_pairs(5, 300) {
        let breakdown = explain(&query, &name, None);
        assert_eq!(
            breakdown.as_ref().map(|found| found.total),
            score(&query, &name, None)
        );
        if let Some(found) = breakdown {
            assert_eq!(found.tokens.len(), query.split_whitespace().count());
        }
    }
}

#[test]
fn greedy_rejection_agrees_with_the_dynamic_program() {
    let mut gen = Lcg(6);
    for _ in 0..300 {
        let query = gen.text(ALPHABET, 10);
        let name = gen.text(ALPHABET, 14);
        let token = Normalized::new(&query);
        let candidate = Normalized::new(&name);
        if token.is_empty() || candidate.is_empty() {
            continue;
        }
        assert_eq!(
            is_subsequence(token.chars(), candidate.chars()),
            best_placement(&token, &candidate).is_some()
        );
    }
}
