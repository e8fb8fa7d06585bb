use tilth::paths::{
    ancestors_of, components_of, equal_paths, extension_of, file_name_of, file_stem_of, join_path, key_of,
    parent_of, paths_ordered, starts_with, strip_prefix,
};
use tilth::search::pagination::{paginate, take_page};
use tilth::session::Session;
use tilth::text::{
    byte_count, chars_of, decimal, join_strings, lines_of, lower_ascii, parse_i64, parse_u64, split_on,
    string_of, text_len, text_ordered, trim_of, truncate_chars, words_of,
};
use tilth::types::{estimate_tokens, format_tokens, Match, SearchResult};

fn pieces(v: Vec<&[char]>) -> Vec<String> {
    v.iter().map(|s| s.iter().collect()).collect()
}

#[test]
fn numbers_go_both_ways() {
    for n in [0u64, 7, 10, 999, 4_294_967_296, u64::MAX] {
        let s = decimal(n as u128);
        assert_eq!(s, n.to_string());
        assert_eq!(parse_u64(&chars_of(&s), u64::MAX), Some(n));
    }
    assert_eq!(parse_u64(&chars_of("18446744073709551616"), u64::MAX), None);
    assert_eq!(parse_u64(&chars_of("+5"), 9), Some(5));
    assert_eq!(parse_u64(&chars_of("10"), 9), None);
    assert_eq!(parse_u64(&chars_of(""), 9), None);
    assert_eq!(parse_u64(&chars_of("1 "), 9), None);
    assert_eq!(parse_i64(&chars_of("-42")), Some(-42));
    assert_eq!(parse_i64(&chars_of("x")), None);
}

#[test]
fn texts_are_taken_apart() {
    let c = chars_of("a,b,,c");
    assert_eq!(pieces(split_on(&c, ',')), vec!["a", "b", "", "c"]);
    let c = chars_of("a\r\nb\n\nc\n");
    assert_eq!(pieces(lines_of(&c)), "a\r\nb\n\nc\n".lines().collect::<Vec<_>>());
    let c = chars_of("  a \u{3000}b\tc ");
    assert_eq!(pieces(words_of(&c)), vec!["a", "b", "c"]);
    let c = chars_of(" \u{a0}x y\n");
    assert_eq!(string_of(trim_of(&c)), " \u{a0}x y\n".trim());
    assert_eq!(join_strings(&["a".to_string(), "b".to_string()], "--"), "a--b");
    assert_eq!(lower_ascii("ÄbC"), "Äbc");
}

#[test]
fn lengths_are_in_bytes() {
    assert_eq!(text_len("aé→😀"), "aé→😀".len());
    let c = chars_of("aé→😀");
    assert_eq!(byte_count(&c), 10);
    // A character that does not fit is left out whole.
    assert_eq!(string_of(truncate_chars(&c, 5)), "aé");
    assert_eq!(string_of(truncate_chars(&c, 6)), "aé→");
    assert!(text_ordered("a", "b"));
    assert!(text_ordered("a", "ab"));
    assert!(!text_ordered("b", "ab"));
}

#[test]
fn paths_are_taken_apart() {
    assert_eq!(components_of("/a//b/./c/"), vec!["/", "a", "b", "c"]);
    assert_eq!(file_name_of("a/b.tar.gz").as_deref(), Some("b.tar.gz"));
    assert_eq!(file_name_of("a/.."), None);
    assert_eq!(extension_of("a/b.tar.gz").as_deref(), Some("gz"));
    assert_eq!(extension_of("a/.hidden"), None);
    assert_eq!(file_stem_of("a/b.tar.gz").as_deref(), Some("b.tar"));
    assert_eq!(parent_of("a/b").as_deref(), Some("a"));
    assert_eq!(parent_of("a").as_deref(), Some(""));
    assert_eq!(parent_of("/"), None);
    assert_eq!(join_path("a", "b/c"), "a/b/c");
    assert_eq!(join_path("a", "/b"), "/b");
    assert!(starts_with("a/b/c", "a/b"));
    assert!(!starts_with("a/bc", "a/b"));
    assert_eq!(strip_prefix("a/b/c", "a").as_deref(), Some("b/c"));
    assert_eq!(strip_prefix("a/b", "x"), None);
    assert!(equal_paths("a//b/", "a/./b"));
    assert!(paths_ordered("a/b", "a/c"));
    assert!(!paths_ordered("a-b", "a/b"));
    assert_eq!(ancestors_of("a/b"), vec!["a/b", "a", ""]);
    assert_eq!(key_of("a//./b"), "a/b");
}

#[test]
fn tokens_are_estimated() {
    assert_eq!(estimate_tokens(0), 0);
    assert_eq!(estimate_tokens(1), 1);
    assert_eq!(estimate_tokens(4), 1);
    assert_eq!(estimate_tokens(5), 2);
    assert_eq!(format_tokens(999), "~999");
    assert_eq!(format_tokens(3_400), "~3.4k");
}

#[test]
fn pages_tile_the_results() {
    let all: Vec<u32> = (0..7).collect();
    assert_eq!(take_page(all.clone(), Some(3), 0), vec![0, 1, 2]);
    assert_eq!(take_page(all.clone(), Some(3), 3), vec![3, 4, 5]);
    assert_eq!(take_page(all.clone(), Some(3), 6), vec![6]);
    assert_eq!(take_page(all.clone(), Some(3), 9), Vec::<u32>::new());
    assert_eq!(take_page(all.clone(), None, 5), vec![5, 6]);
    assert_eq!(take_page(all.clone(), None, 0), all);
}

#[test]
fn pages_tell_whether_there_is_more() {
    let result = || SearchResult {
        query: "q".to_string(),
        scope: "s".to_string(),
        matches: (1..4)
            .map(|line| Match {
                path: "a".to_string(),
                line,
                text: String::new(),
                is_definition: false,
                exact: true,
                file_lines: 1,
                mtime: 0,
                def_range: None,
                def_name: None,
                def_weight: 0,
                impl_target: None,
            })
            .collect(),
        total_found: 3,
        definitions: 0,
        usages: 3,
        has_more: false,
        offset: 0,
    };
    let mut first = result();
    paginate(&mut first, Some(2), 0);
    assert_eq!((first.matches.len(), first.has_more, first.offset), (2, true, 0));
    let mut last = result();
    paginate(&mut last, Some(2), 2);
    assert_eq!((last.matches[0].line, last.has_more, last.offset), (3, false, 2));
    assert_eq!(last.total_found, 3);
    let mut beyond = result();
    paginate(&mut beyond, None, 5);
    assert!(beyond.matches.is_empty());
}

#[test]
fn sessions_remember_places() {
    let mut session = Session::new();
    assert!(!session.is_expanded("a.rs", 1));
    session.record_expand("a.rs", 1);
    assert!(session.is_expanded("a.rs", 1));
    assert!(!session.is_expanded("a.rs", 11));
    assert!(!session.is_expanded("b.rs", 1));
    assert!(!Session::default().is_expanded("a.rs", 1));
}
