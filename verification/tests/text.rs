use text_toolkit::text::is_whitespace;

#[test]
fn whitespace_list_matches_the_standard_library() {
    for c in (0u32..=0x10FFFF).filter_map(char::from_u32) {
        assert_eq!(is_whitespace(c), c.is_whitespace(), "{:#x}", c as u32);
    }
}
