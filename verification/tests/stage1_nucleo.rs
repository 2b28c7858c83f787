use furet::stage1::{self, SCORE_FLOOR};
use furet::stage1_nucleo::{floored_total, NucleoScorer};
use furet::stage2;

fn score(query: &str, name: &str, folder: Option<&str>) -> Option<u32> {
    NucleoScorer::new().score(query, name, folder)
}

#[test]
fn a_token_missing_from_the_name_fails_the_whole_query() {
    assert!(score("neo vim", "neovim", None).is_some());
    assert_eq!(score("neo zig", "neovim", None), None);
    assert_eq!(score("zig", "neovim", None), None);
    assert_eq!(score("", "neovim", None), None);
    assert_eq!(score("   ", "neovim", None), None);
}

#[test]
fn pattern_syntax_characters_are_matched_literally() {
    assert_eq!(score("^a", "abc", None), None);
    assert!(score("^a", "^abc", None).is_some());
    assert_eq!(score("a$", "ba", None), None);
    assert!(score("a$", "ba$", None).is_some());
    assert_eq!(score("!x", "abc", None), None);
    assert!(score("!x", "a!x", None).is_some());
    assert_eq!(score("'x", "ax", None), None);
    assert!(score("'x", "a'x", None).is_some());
}

#[test]
fn case_is_ignored_on_both_sides() {
    let plain = score("tokio", "tokio", None);
    assert!(plain.is_some());
    assert_eq!(score("TOKIO", "tokio", None), plain);
    assert_eq!(score("tokio", "TOKIO", None), plain);
}

#[test]
fn an_accented_name_matches_a_plain_query_and_the_reverse() {
    assert!(score("reunions", "Réunions", None).is_some());
    assert!(score("réunions", "Reunions", None).is_some());
    assert_eq!(
        score("réunions", "Reunions", None),
        score("reunions", "Reunions", None)
    );
    assert_eq!(
        score("RÉUNIONS", "Réunions", None),
        score("reunions", "Réunions", None)
    );
}

#[test]
fn the_folder_bonus_is_added_after_the_floor() {
    assert_eq!(floored_total(0, 0), SCORE_FLOOR);
    assert_eq!(floored_total(0, 2), SCORE_FLOOR + 2);
    assert_eq!(floored_total(3, 2), SCORE_FLOOR + 2);
    assert_eq!(floored_total(40, 2), 42);
    let plain = score("tk", "tokei", Some("dev\\helix")).expect("the token matches");
    assert_eq!(score("tk", "tokei", None), Some(plain));
    assert_eq!(score("tk", "tokei", Some("dev\\toolkit")), Some(plain + 2));
}

#[test]
fn a_greek_name_with_a_tonos_is_not_matched_even_by_its_own_spelling() {
    assert_eq!(score("αθηνα", "Αθήνα", None), None);
    assert_eq!(score("Αθήνα", "Αθήνα", None), None);
    assert!(score("αθηνα", "Αθηνα", None).is_some());
    assert!(stage1::score("αθηνα", "Αθήνα", None).is_some());
}

#[test]
fn a_cyrillic_short_i_name_is_not_matched_even_by_its_own_spelling() {
    assert_eq!(score("й", "й", None), None);
    assert_eq!(score("и", "й", None), None);
    assert!(score("й", "и", None).is_some());
    assert!(stage1::score("й", "й", None).is_some());
}

#[test]
fn an_nfd_decomposed_name_matches_with_a_lower_score_than_its_composed_form() {
    let decomposed = "Re\u{301}unions";
    let composed = score("reunions", "Réunions", None).expect("the composed name matches");
    let found = score("reunions", decomposed, None).expect("the decomposed name matches");
    assert!(found < composed);
    assert_eq!(score("réunions", decomposed, None), Some(found));
}

#[test]
fn sharp_s_folds_to_its_capital_but_never_to_ss() {
    assert!(score("ß", "ẞ", None).is_some());
    assert!(score("ẞ", "ß", None).is_some());
    assert_eq!(score("strasse", "Straße", None), None);
    assert_eq!(score("straße", "Strasse", None), None);
}

#[test]
fn a_dotted_capital_i_name_matches_a_plain_i_query() {
    assert!(score("istanbul", "İstanbul", None).is_some());
    assert!(score("İstanbul", "istanbul", None).is_some());
}

#[test]
fn a_plain_o_query_matches_o_with_stroke_unlike_the_reference() {
    assert!(score("o", "ø", None).is_some());
    assert_eq!(stage1::score("o", "ø", None), None);
}

#[test]
fn explain_reports_each_token_the_sum_and_the_folder_bonus() {
    let mut scorer = NucleoScorer::new();
    let breakdown = scorer
        .explain("Neo VIM", "neovim", Some("dev\\neovim-src"))
        .expect("both tokens match");
    let tokens: Vec<&str> = breakdown
        .tokens
        .iter()
        .map(|token| token.token.as_str())
        .collect();
    assert_eq!(tokens, ["neo", "vim"]);
    let sum: u32 = breakdown.tokens.iter().map(|token| token.score).sum();
    assert_eq!(breakdown.sum, sum);
    assert_eq!(breakdown.floored, sum.max(SCORE_FLOOR));
    assert_eq!(breakdown.folder_bonus, 2);
    assert_eq!(breakdown.total, breakdown.floored + 2);
    assert_eq!(
        Some(breakdown.total),
        scorer.score("Neo VIM", "neovim", Some("dev\\neovim-src"))
    );
}

/// A small deterministic generator standing in for random sampling.
struct Lcg(u64);

impl Lcg {
    fn next(&mut self, bound: usize) -> usize {
        self.0 = self.0.wrapping_mul(6364136223846793005).wrapping_add(1442695040888963407);
        ((self.0 >> 33) as usize) % bound
    }

    fn text(&mut self, alphabet: &[char], max_len: usize) -> String {
        let length = self.next(max_len + 1);
        (0..length).map(|_| alphabet[self.next(alphabet.len())]).collect()
    }
}

static ALPHABET: &[char] = &['a', 'e', 'i', 'n', 'o', 't', 'v', 'm', 'R', 'é', 'É', '^', '$', '!', '\'', '.', '_', ' ', '-'];

static FOLDER_ALPHABET: &[char] = &['a', 'e', 'i', 'n', 'o', 't', 'v', 'm', 'R', 'é', '.', '_', '\\', ' ', '-'];

fn triples(seed: u64, count: usize) -> Vec<(String, String, String)> {
    let mut gen = Lcg(seed);
    (0..count)
        .map(|_| (gen.text(ALPHABET, 12), gen.text(ALPHABET, 16), gen.text(FOLDER_ALPHABET, 16)))
        .collect()
}

#[test]
fn a_nucleo_score_never_falls_below_the_floor_nor_into_stage_two_range() {
    let mut scorer = NucleoScorer::new();
    for (query, name, folder) in triples(21, 300) {
        for found in [
            scorer.score(&query, &name, Some(&folder)),
            scorer.score(&query, &name, None),
        ]
        .into_iter()
        .flatten()
        {
            assert!(found >= SCORE_FLOOR);
            assert!(found > stage2::SCORE_CAP);
        }
    }
}

#[test]
fn nucleo_explain_always_agrees_with_score() {
    for (query, name, folder) in triples(22, 300) {
        let mut scorer = NucleoScorer::new();
        let breakdown = scorer.explain(&query, &name, Some(&folder));
        assert_eq!(
            breakdown.as_ref().map(|found| found.total),
            scorer.score(&query, &name, Some(&folder))
        );
        assert_eq!(
            breakdown.as_ref().map(|found| found.total),
            NucleoScorer::new().score(&query, &name, Some(&folder))
        );
        if let Some(found) = breakdown {
            assert_eq!(found.tokens.len(), query.split_whitespace().count());
        }
    }
}

#[test]
fn a_default_scorer_scores_like_a_new_one() {
    let mut fresh = NucleoScorer::new();
    let mut default = NucleoScorer::default();
    assert_eq!(
        default.score("tokio", "tokio", Some("/dev")),
        fresh.score("tokio", "tokio", Some("/dev"))
    );
    assert!(default.score("tokio", "tokio", None).is_some());
}
