use furet::remove::{exclusion_target, is_path_pattern, lexical_target, wildcard_match, Target};

#[test]
fn a_star_matches_any_suffix_including_none() {
    assert!(wildcard_match("ombi*", "ombi"));
    assert!(wildcard_match("ombi*", "ombi-v4"));
    assert!(!wildcard_match("ombi*", "xombi"));
}

#[test]
fn a_question_mark_matches_exactly_one_character() {
    assert!(wildcard_match("ombi-?", "ombi-v"));
    assert!(!wildcard_match("ombi-?", "ombi-v4"));
    assert!(!wildcard_match("ombi-?", "ombi-"));
}

#[test]
fn matching_ignores_case() {
    assert!(wildcard_match("OMBI", "ombi"));
    assert!(wildcard_match("ombi", "Ombi"));
    assert!(furet::remove::matches(
        &Target::Key("c:\\apps\\ombi".to_owned()),
        "C:\\Apps\\Ombi"
    ));
}

#[test]
fn brackets_and_dots_are_literal() {
    assert!(wildcard_match("[a]pp.json", "[a]pp.json"));
    assert!(!wildcard_match("[a]pp.json", "app.json"));
    assert!(!wildcard_match("[a]pp.json", "bpp.json"));
    assert!(wildcard_match("ombi.", "ombi."));
    assert!(!wildcard_match("ombi.", "ombix"));
}

#[test]
fn a_star_crosses_separators() {
    assert!(wildcard_match("c:\\apps\\*", "c:\\apps\\a\\b"));
    assert!(!wildcard_match("c:\\apps\\*", "c:\\apps"));
}

#[test]
fn many_stars_still_match_in_linear_time() {
    let pattern = "*".repeat(30) + "x";
    let text = "y".repeat(2_000);
    assert!(!wildcard_match(&pattern, &text));
    assert!(wildcard_match(
        &(pattern.clone() + "*"),
        &format!("{text}x")
    ));
}

#[test]
fn a_separator_a_colon_or_a_dot_form_selects_path_mode() {
    for pattern in ["a\\b", "a/b", "c:", ".", ".."] {
        assert!(is_path_pattern(pattern), "{pattern} must select path mode");
    }
    for pattern in ["ombi*", ".git"] {
        assert!(!is_path_pattern(pattern), "{pattern} must select name mode");
    }
}

#[test]
fn name_targets_compare_the_last_segment_only() {
    let name = Target::Name("src".to_owned());
    assert!(furet::remove::matches(&name, "c:\\dev\\proj\\src"));
    assert!(furet::remove::matches(&name, "c:\\dev\\proj\\Src"));
    assert!(!furet::remove::matches(&name, "c:\\dev\\proj\\src\\bin"));
    assert!(!furet::remove::matches(&name, "c:\\dev\\src\\bin"));
}

#[test]
fn a_star_in_the_text_is_never_taken_for_a_pattern_star() {
    assert!(wildcard_match("*", "*x"));
    assert!(wildcard_match("a*", "a*b"));
    assert!(!wildcard_match("a", "*"));
}

#[test]
fn a_lone_star_matches_everything_and_a_literal_only_itself() {
    for text in ["", "x", "c:\\a\\b", "ÉTÉ"] {
        assert!(wildcard_match("*", text), "{text}");
    }
    assert!(wildcard_match("abc", "ABC"));
    assert!(!wildcard_match("abc", "abcd"));
    assert!(!wildcard_match("abc", "ab"));
}

#[test]
fn exclusion_targets_read_names_rooted_patterns_and_absolute_paths() {
    assert_eq!(exclusion_target("node_modules"), Some(Target::Name("node_modules".to_owned())));
    assert_eq!(exclusion_target("C:\\Windows\\*"), Some(Target::KeyPattern("c:\\windows\\*".to_owned())));
    assert_eq!(exclusion_target("*/Target/*"), Some(Target::KeyPattern("*\\target\\*".to_owned())));
    assert_eq!(exclusion_target("C:\\Dev\\Cache\\"), Some(Target::Key("c:\\dev\\cache".to_owned())));
    assert_eq!(exclusion_target("a\\b"), None);
    assert_eq!(exclusion_target(".."), None);
}

#[test]
fn lexical_targets_anchor_relative_wildcards_and_defer_plain_paths() {
    assert_eq!(lexical_target("ombi*", "c:\\apps"), Some(Target::Name("ombi*".to_owned())));
    assert_eq!(lexical_target("*\\cache\\*", "c:\\apps"), Some(Target::KeyPattern("*\\cache\\*".to_owned())));
    assert_eq!(lexical_target("Sub/*", "C:\\Apps"), Some(Target::KeyPattern("c:\\apps\\sub\\*".to_owned())));
    assert_eq!(lexical_target("d:\\x\\?", "c:\\apps"), Some(Target::KeyPattern("d:\\x\\?".to_owned())));
    assert_eq!(lexical_target("c:\\apps\\ombi", "c:\\"), None);
}
