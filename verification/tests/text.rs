use furet::text::split_whitespace;

#[test]
fn whitespace_is_exactly_what_std_reports_for_every_char() {
    for code in 0..=0x10FFFFu32 {
        if let Some(c) = char::from_u32(code) {
            assert_eq!(split_whitespace(&[c]).is_empty(), c.is_whitespace(), "U+{code:04X}");
        }
    }
}
