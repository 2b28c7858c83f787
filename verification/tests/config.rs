use furet::config::{parse, settings_from, FallbackSettings, Settings, TomlValue};
use furet::rank::Engine;
use furet::remove::Target;

#[test]
fn empty_text_yields_every_default_and_no_warning() {
    let (settings, warnings) = parse("");
    assert_eq!(settings, Settings::default());
    assert!(warnings.is_empty());
}

#[test]
fn a_valid_typo_min_length_overrides_the_default() {
    let (settings, warnings) = parse("typo_min_length = 6");
    assert_eq!(settings.typo_min_length, 6);
    assert!(warnings.is_empty());
}

#[test]
fn a_wrong_type_typo_min_length_warns_and_keeps_the_default() {
    let (settings, warnings) = parse("typo_min_length = \"six\"");
    assert_eq!(
        settings.typo_min_length,
        Settings::default().typo_min_length
    );
    assert_eq!(warnings.len(), 1);
    assert!(warnings[0].contains("typo_min_length"));
}

#[test]
fn an_out_of_range_typo_min_length_warns_and_keeps_the_default() {
    let (settings, warnings) = parse("typo_min_length = 0");
    assert_eq!(
        settings.typo_min_length,
        Settings::default().typo_min_length
    );
    assert_eq!(warnings.len(), 1);
    assert!(warnings[0].contains("typo_min_length"));
}

#[test]
fn retention_days_defaults_to_one_year() {
    assert_eq!(Settings::default().retention_days, 365);
}

#[test]
fn a_valid_retention_days_overrides_the_default() {
    let (settings, warnings) = parse("retention_days = 30");
    assert_eq!(settings.retention_days, 30);
    assert!(warnings.is_empty());
}

#[test]
fn a_zero_retention_days_is_accepted_and_disables_the_purge() {
    let (settings, warnings) = parse("retention_days = 0");
    assert_eq!(settings.retention_days, 0);
    assert!(warnings.is_empty());
}

#[test]
fn a_negative_or_wrong_type_retention_days_warns_and_keeps_the_default() {
    for text in ["retention_days = -1", "retention_days = \"year\""] {
        let (settings, warnings) = parse(text);
        assert_eq!(settings.retention_days, 365, "{text}");
        assert_eq!(warnings.len(), 1, "{text}");
        assert!(warnings[0].contains("retention_days"), "{text}");
    }
}

#[test]
fn a_valid_fallback_depth_overrides_the_default() {
    let (settings, warnings) = parse("[fallback]\ndepth = 3");
    assert_eq!(settings.fallback.depth, 3);
    assert!(warnings.is_empty());
}

#[test]
fn a_wrong_type_fallback_depth_warns_and_keeps_the_default() {
    let (settings, warnings) = parse("[fallback]\ndepth = \"deep\"");
    assert_eq!(settings.fallback.depth, Settings::default().fallback.depth);
    assert_eq!(warnings.len(), 1);
    assert!(warnings[0].contains("fallback.depth"));
}

#[test]
fn an_out_of_range_fallback_depth_warns_and_keeps_the_default() {
    let (settings, warnings) = parse("[fallback]\ndepth = 0");
    assert_eq!(settings.fallback.depth, Settings::default().fallback.depth);
    assert_eq!(warnings.len(), 1);
    assert!(warnings[0].contains("fallback.depth"));
}

#[test]
fn a_fallback_depth_at_the_maximum_of_five_is_accepted() {
    let (settings, warnings) = parse("[fallback]\ndepth = 5");
    assert_eq!(settings.fallback.depth, 5);
    assert!(warnings.is_empty());
}

#[test]
fn a_fallback_depth_above_the_maximum_warns_and_keeps_the_default() {
    let (settings, warnings) = parse("[fallback]\ndepth = 6");
    assert_eq!(settings.fallback.depth, Settings::default().fallback.depth);
    assert_eq!(warnings.len(), 1);
    assert!(warnings[0].contains("fallback.depth"));
}

#[test]
fn a_huge_fallback_depth_warns_and_keeps_the_default() {
    let (settings, warnings) = parse("[fallback]\ndepth = 1000000");
    assert_eq!(settings.fallback.depth, Settings::default().fallback.depth);
    assert_eq!(warnings.len(), 1);
    assert!(warnings[0].contains("fallback.depth"));
}

#[test]
fn a_valid_fallback_up_overrides_the_default() {
    let (settings, warnings) = parse("[fallback]\nup = 0");
    assert_eq!(settings.fallback.up, 0);
    assert!(warnings.is_empty());
}

#[test]
fn a_wrong_type_fallback_up_warns_and_keeps_the_default() {
    let (settings, warnings) = parse("[fallback]\nup = \"one\"");
    assert_eq!(settings.fallback.up, Settings::default().fallback.up);
    assert_eq!(warnings.len(), 1);
    assert!(warnings[0].contains("fallback.up"));
}

#[test]
fn an_out_of_range_fallback_up_warns_and_keeps_the_default() {
    let (settings, warnings) = parse("[fallback]\nup = -1");
    assert_eq!(settings.fallback.up, Settings::default().fallback.up);
    assert_eq!(warnings.len(), 1);
    assert!(warnings[0].contains("fallback.up"));
}

#[test]
fn a_fallback_up_at_the_maximum_of_five_is_accepted() {
    let (settings, warnings) = parse("[fallback]\nup = 5");
    assert_eq!(settings.fallback.up, 5);
    assert!(warnings.is_empty());
}

#[test]
fn a_fallback_up_above_the_maximum_warns_and_keeps_the_default() {
    let (settings, warnings) = parse("[fallback]\nup = 6");
    assert_eq!(settings.fallback.up, Settings::default().fallback.up);
    assert_eq!(warnings.len(), 1);
    assert!(warnings[0].contains("fallback.up"));
}

#[test]
fn a_valid_fallback_no_ignore_overrides_the_default() {
    let (settings, warnings) = parse("[fallback]\nno_ignore = true");
    assert!(settings.fallback.no_ignore);
    assert!(warnings.is_empty());
}

#[test]
fn a_wrong_type_fallback_no_ignore_warns_and_keeps_the_default() {
    let (settings, warnings) = parse("[fallback]\nno_ignore = \"yes\"");
    assert_eq!(
        settings.fallback.no_ignore,
        Settings::default().fallback.no_ignore
    );
    assert_eq!(warnings.len(), 1);
    assert!(warnings[0].contains("fallback.no_ignore"));
}

#[test]
fn exclude_replaces_the_defaults_rather_than_extending_them() {
    let (settings, warnings) = parse("[fallback]\nexclude = [\"foo\", \"bar\"]");
    assert_eq!(
        settings.fallback.exclude,
        vec!["foo".to_owned(), "bar".to_owned()]
    );
    assert!(warnings.is_empty());
}

#[test]
fn an_empty_exclude_list_disables_every_exclusion() {
    let (settings, warnings) = parse("[fallback]\nexclude = []");
    assert_eq!(settings.fallback.exclude, Vec::<String>::new());
    assert!(warnings.is_empty());
}

#[test]
fn a_wrong_type_fallback_exclude_warns_and_keeps_the_default() {
    let (settings, warnings) = parse("[fallback]\nexclude = \"foo\"");
    assert_eq!(
        settings.fallback.exclude,
        Settings::default().fallback.exclude
    );
    assert_eq!(warnings.len(), 1);
    assert!(warnings[0].contains("fallback.exclude"));
}

#[test]
fn a_fallback_exclude_with_an_empty_string_warns_and_keeps_the_default() {
    let (settings, warnings) = parse("[fallback]\nexclude = [\"\"]");
    assert_eq!(
        settings.fallback.exclude,
        Settings::default().fallback.exclude
    );
    assert_eq!(warnings.len(), 1);
    assert!(warnings[0].contains("fallback.exclude"));
}

#[test]
fn home_absent_yields_none() {
    let (settings, warnings) = parse("");
    assert_eq!(settings.home, None);
    assert!(warnings.is_empty());
}

#[test]
fn a_valid_home_string_overrides_the_default() {
    let (settings, warnings) = parse("home = \"C:/Users/dev\"");
    assert_eq!(settings.home.as_deref(), Some("C:/Users/dev"));
    assert!(warnings.is_empty());
}

#[test]
fn a_wrong_type_home_warns_and_keeps_none() {
    let (settings, warnings) = parse("home = 5");
    assert_eq!(settings.home, None);
    assert_eq!(warnings.len(), 1);
    assert!(warnings[0].contains("home"));
}

#[test]
fn an_empty_home_string_warns_and_keeps_none() {
    let (settings, warnings) = parse("home = \"\"");
    assert_eq!(settings.home, None);
    assert_eq!(warnings.len(), 1);
    assert!(warnings[0].contains("home"));
}

#[test]
fn an_unknown_top_level_key_warns_and_is_ignored() {
    let (settings, warnings) = parse("mystery = 1");
    assert_eq!(settings, Settings::default());
    assert_eq!(warnings.len(), 1);
    assert!(warnings[0].contains("mystery"));
}

#[test]
fn an_unknown_fallback_key_warns_and_is_ignored() {
    let (settings, warnings) = parse("[fallback]\nmystery = 1");
    assert_eq!(settings.fallback, Settings::default().fallback);
    assert_eq!(warnings.len(), 1);
    assert!(warnings[0].contains("fallback.mystery"));
}

#[test]
fn the_unsupported_keys_each_warn_not_supported_yet() {
    for key in ["ambiguity", "keyboard_layout"] {
        let (settings, warnings) = parse(&format!("{key} = 1"));
        assert_eq!(settings, Settings::default());
        assert_eq!(warnings.len(), 1);
        assert!(warnings[0].contains(key));
        assert!(warnings[0].contains("not supported yet"));
    }
}

#[test]
fn engine_defaults_to_the_reference_engine() {
    assert_eq!(Settings::default().engine, Engine::Reference);
    assert_eq!(parse("").0.engine, Engine::Reference);
}

#[test]
fn engine_nucleo_is_accepted() {
    let (settings, warnings) = parse("engine = \"nucleo\"");
    assert_eq!(settings.engine, Engine::Nucleo);
    assert!(warnings.is_empty());
    let (settings, warnings) = parse("engine = \"reference\"");
    assert_eq!(settings.engine, Engine::Reference);
    assert!(warnings.is_empty());
}

#[test]
fn an_unknown_engine_name_warns_and_keeps_the_reference_engine() {
    let (settings, warnings) = parse("engine = \"fast\"");
    assert_eq!(settings.engine, Engine::Reference);
    assert_eq!(
        warnings,
        ["engine must be \"reference\" or \"nucleo\"; using \"reference\""]
    );
}

#[test]
fn a_wrong_type_engine_warns_and_keeps_the_reference_engine() {
    let (settings, warnings) = parse("engine = 3");
    assert_eq!(settings.engine, Engine::Reference);
    assert_eq!(
        warnings,
        ["engine must be \"reference\" or \"nucleo\"; using \"reference\""]
    );
}

#[test]
fn malformed_toml_yields_every_default_and_one_warning() {
    let (settings, warnings) = parse("this is not [ toml");
    assert_eq!(settings, Settings::default());
    assert_eq!(warnings.len(), 1);
}

#[test]
fn exclude_dirs_defaults_to_empty() {
    let (settings, warnings) = parse("");
    assert!(settings.exclude_dirs.is_empty());
    assert!(warnings.is_empty());
}

#[test]
fn exclude_dirs_parses_each_entry_through_exclusion_target() {
    let (settings, warnings) = parse("exclude_dirs = ['node_modules', 'C:\\Windows\\*']");
    assert_eq!(
        settings.exclude_dirs,
        vec![
            Target::Name("node_modules".to_owned()),
            Target::KeyPattern("c:\\windows\\*".to_owned()),
        ]
    );
    assert!(warnings.is_empty());
}

#[test]
fn a_relative_exclude_dirs_entry_is_ignored_with_a_warning() {
    let (settings, warnings) = parse("exclude_dirs = ['a\\b', 'ok']");
    assert_eq!(settings.exclude_dirs, vec![Target::Name("ok".to_owned())]);
    assert_eq!(warnings.len(), 1);
    assert!(warnings[0].contains("a\\b"));
}

#[test]
fn exclude_dirs_must_be_an_array_of_non_empty_strings() {
    for text in [
        "exclude_dirs = \"x\"",
        "exclude_dirs = [1]",
        "exclude_dirs = ['']",
    ] {
        let (settings, warnings) = parse(text);
        assert!(settings.exclude_dirs.is_empty(), "{text}");
        assert_eq!(warnings.len(), 1, "{text}");
        assert!(warnings[0].contains("exclude_dirs"), "{text}");
    }
}

#[test]
fn the_defaults_are_the_documented_values() {
    let settings = Settings::default();
    assert_eq!(settings.typo_min_length, 4);
    assert_eq!(settings.fallback, FallbackSettings::default());
    assert_eq!(settings.fallback.depth, 1);
    assert_eq!(settings.fallback.up, 1);
    assert!(!settings.fallback.no_ignore);
    assert_eq!(
        settings.fallback.exclude,
        ["node_modules", "bin", "obj", ".git", "target"]
    );
    assert_eq!(settings.home, None);
    assert!(settings.exclude_dirs.is_empty());
}

#[test]
fn keys_are_applied_in_document_order_with_one_warning_each() {
    let (settings, warnings) = settings_from(Some(vec![
        ("retention_days".to_owned(), TomlValue::Integer(7)),
        ("zeta".to_owned(), TomlValue::Boolean(true)),
        ("typo_min_length".to_owned(), TomlValue::Integer(0)),
        ("exclude_dirs".to_owned(), TomlValue::Array(vec![TomlValue::Text("rel\\x".to_owned()), TomlValue::Text("cache".to_owned())])),
    ]));
    assert_eq!(settings.retention_days, 7);
    assert_eq!(settings.typo_min_length, 4);
    assert_eq!(settings.exclude_dirs, vec![Target::Name("cache".to_owned())]);
    assert_eq!(
        warnings,
        [
            "unknown config key 'zeta'; ignored",
            "typo_min_length must be an integer >= 1; using the default",
            "exclude_dirs entry 'rel\\x' is a relative path; ignored",
        ]
    );
    let (defaults, malformed) = settings_from(None);
    assert_eq!(defaults, Settings::default());
    assert_eq!(malformed, ["config.toml is malformed TOML; using every default"]);
}
