use furet::normalize::Normalized;

#[test]
fn lowercases_ascii_and_keeps_every_index_aligned() {
    let normalized = Normalized::new("RipGrep");
    assert_eq!(normalized.text(), "ripgrep");
    assert_eq!(normalized.len(), 7);
    for index in 0..normalized.len() {
        assert_eq!(normalized.source_index(index), Some(index));
    }
}

#[test]
fn strips_accents_from_a_precomposed_letter() {
    let normalized = Normalized::new("Réunions");
    assert_eq!(normalized.text(), "reunions");
}

#[test]
fn maps_indices_back_through_a_multibyte_source_character() {
    let normalized = Normalized::new("Réunions");
    assert_eq!(normalized.source_index(1), Some(1));
    assert_eq!(normalized.source_index(2), Some(2));
    let source: Vec<char> = "Réunions".chars().collect();
    assert_eq!(source.get(1), Some(&'é'));
}

#[test]
fn maps_indices_back_after_dropping_a_standalone_combining_mark() {
    let normalized = Normalized::new("Re\u{301}unions");
    assert_eq!(normalized.text(), "reunions");
    assert_eq!(normalized.len(), 8);
    assert_eq!(normalized.source_index(0), Some(0));
    assert_eq!(normalized.source_index(1), Some(1));
    assert_eq!(normalized.source_index(2), Some(3));
    assert_eq!(normalized.source_index(7), Some(8));
}

#[test]
fn an_empty_string_normalizes_to_nothing() {
    let normalized = Normalized::new("");
    assert!(normalized.is_empty());
    assert_eq!(normalized.source_index(0), None);
    assert!(!normalized.is_word_start(0));
}

#[test]
fn detects_camel_humps_on_the_source_string() {
    let normalized = Normalized::new("ripGrep");
    assert!(normalized.is_camel_hump(3));
    assert!(!normalized.is_camel_hump(0));
    assert!(!normalized.is_camel_hump(4));
    assert!(!Normalized::new("ripgrep").is_camel_hump(3));
}

#[test]
fn treats_index_zero_and_post_separator_positions_as_word_starts() {
    let normalized = Normalized::new("rip-grep");
    assert!(normalized.is_word_start(0));
    assert!(normalized.is_word_start(4));
    assert!(!normalized.is_word_start(1));
    assert!(!normalized.is_word_start(8));
    for separator in ['.', '-', '_', '/', '\\', ' ', ':', '('] {
        let text = format!("a{separator}b");
        assert!(Normalized::new(&text).is_word_start(2));
    }
}

#[test]
fn normalizing_a_concatenation_normalizes_each_part() {
    let whole = Normalized::new("ÉtéRéunions").text();
    let parts = Normalized::new("Été").text() + &Normalized::new("Réunions").text();
    assert_eq!(whole, parts);
    assert_eq!(whole, "etereunions");
}
