use tilth::read::view::{binary_header, file_header, number_lines, ViewMode};
use tilth::search::result::{request_pattern, search_content_raw, search_regex_raw, search_symbol_raw};

#[test]
fn headers_tell_what_is_shown() {
    assert_eq!(
        file_header("src/auth.ts", 13_600, 258, ViewMode::Outline),
        "# src/auth.ts (258 lines, ~3.4k tokens) [outline]"
    );
    assert_eq!(file_header("a", 0, 0, ViewMode::Empty), "# a (0 lines, ~0 tokens) [empty]");
    assert_eq!(binary_header("a.png", 7, "image/png"), "# a.png (7 bytes, image/png) [skipped]");
}

#[test]
fn lines_have_numbers() {
    assert_eq!(number_lines("a\n\nb\n", 44), "  44 │ a\n  45 │ \n  46 │ b");
    assert_eq!(number_lines("x", 12_345), "12345 │ x");
    assert_eq!(number_lines("", 1), "");
}

#[test]
fn patterns_of_searches() {
    assert_eq!(request_pattern(&search_symbol_raw("a.b")), r"\ba\.b\b");
    assert_eq!(request_pattern(&search_content_raw("a.b")), r"a\.b");
    assert_eq!(request_pattern(&search_content_raw("/a.b/")), "a.b");
    assert_eq!(request_pattern(&search_regex_raw("a+")), "a+");
}
