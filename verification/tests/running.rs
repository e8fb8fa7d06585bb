use tilth::classify::{
    classify, has_regex_metachar, is_dotted_symbol, looks_like_exact_symbol, looks_like_filename, QueryType,
};
use tilth::cli::{
    callers_as_json, deps_path, effective_limit, hubs_to_skip, json_output, needs_pager, terminal_height,
    thread_count, walk_bounds, WalkBounds,
};
use tilth::json::{get, JsonValue};
use tilth::search::bfs::parse_hubs;
use tilth::run::{
    multi_word_concept_search, plan, relaxed_pattern, several_symbols, single_query_search, suggested_for, PhraseStep,
    Plan, WordStep,
};

#[test]
fn plans_follow_queries() {
    assert!(matches!(plan(classify("src/a.rs", "/p", true)), Plan::Read(p) if p == "/p/src/a.rs"));
    assert!(matches!(plan(classify("*.rs", ".", false)), Plan::Files(_)));
    assert!(matches!(plan(classify("handleAuth", ".", false)), Plan::Symbol(_)));
    assert!(matches!(plan(classify("cli mode", ".", false)), Plan::Phrase(_)));
    assert!(matches!(
        plan(classify("alias", ".", false)),
        Plan::Word { prefer_definitions: true, .. }
    ));
    assert!(matches!(
        plan(classify("src/gone.rs", ".", false)),
        Plan::Word { prefer_definitions: false, .. }
    ));
    assert!(matches!(plan(classify("404", ".", false)), Plan::Content(_)));
    assert!(matches!(plan(classify("/a+/", ".", false)), Plan::Regex(p) if p == "a+"));
}

#[test]
fn queries_that_name_files() {
    assert!(matches!(classify(".gitignore", "/p", true), QueryType::FilePath(p) if p == "/p/.gitignore"));
    assert!(matches!(classify("README", "/p", true), QueryType::FilePath(_)));
    assert!(matches!(classify("../x", "/p", false), QueryType::Fallthrough(q) if q == "../x"));
    assert!(matches!(classify("", ".", false), QueryType::Content(q) if q.is_empty()));
    // What follows the dot is too long for an extension.
    assert!(matches!(classify("Auth.check", ".", false), QueryType::Symbol(_)));
    assert!(matches!(classify("Auth.java", ".", false), QueryType::Glob(g) if g == "**/Auth.java"));
    // Five words are no phrase.
    assert!(matches!(classify("a b c d", ".", false), QueryType::Concept(_)));
    assert!(matches!(classify("a b c d e", ".", false), QueryType::Content(_)));
}

#[test]
fn words_are_searched_step_by_step() {
    assert_eq!(single_query_search(1, 3, None, true), WordStep::ShowSymbol);
    assert_eq!(single_query_search(0, 3, None, true), WordStep::SearchContent);
    assert_eq!(single_query_search(0, 3, None, false), WordStep::ShowSymbol);
    assert_eq!(single_query_search(0, 3, Some(1), true), WordStep::ShowContent);
    assert_eq!(single_query_search(0, 3, Some(0), true), WordStep::ShowSymbol);
    assert_eq!(single_query_search(0, 0, Some(0), true), WordStep::NotFound);
    assert_eq!(single_query_search(0, 0, Some(0), false), WordStep::NotFound);
}

#[test]
fn phrases_are_searched_step_by_step() {
    assert_eq!(multi_word_concept_search(1, None), PhraseStep::ShowExact);
    assert_eq!(multi_word_concept_search(0, None), PhraseStep::SearchRelaxed);
    assert_eq!(multi_word_concept_search(0, Some(2)), PhraseStep::ShowRelaxed);
    assert_eq!(multi_word_concept_search(0, Some(0)), PhraseStep::NotFound);
    assert_eq!(relaxed_pattern("a.b c"), r"a\.b.*c|c.*a\.b");
    assert_eq!(relaxed_pattern("a b+ c"), r"a|b\+|c");
    assert_eq!(suggested_for("  cli mode"), "cli");
    assert_eq!(suggested_for(" "), " ");
}

#[test]
fn several_symbols_in_one_query() {
    assert_eq!(
        several_symbols("ServeHTTP, HandlersChain, Next"),
        Some(vec!["ServeHTTP".to_string(), "HandlersChain".to_string(), "Next".to_string()])
    );
    assert_eq!(several_symbols("one"), None);
    assert_eq!(several_symbols("a,b,c,d,e,f"), None);
    assert_eq!(several_symbols("a, not one"), None);
}

#[test]
fn options_of_the_command_line() {
    assert_eq!(effective_limit(Some(3), true, true), Some(3));
    assert_eq!(effective_limit(None, true, false), Some(50));
    assert_eq!(effective_limit(None, true, true), None);
    assert_eq!(effective_limit(None, false, false), None);
    assert!(callers_as_json(true, Some(2)));
    assert!(!callers_as_json(true, Some(1)));
    assert!(!callers_as_json(true, None));
    assert!(!callers_as_json(false, Some(3)));
    assert_eq!(deps_path("/x/a.rs", "/s", "/c", true, true), "/x/a.rs");
    assert_eq!(deps_path("a.rs", "/s", "/c", true, true), "/s/a.rs");
    assert_eq!(deps_path("a.rs", "/s", "/c", false, true), "/c/a.rs");
    assert_eq!(deps_path("a.rs", "/s", "/c", false, false), "/s/a.rs");
    assert!(needs_pager("a\nb\nc\n", true, 2));
    assert!(!needs_pager("a\nb\n", true, 2));
    assert!(!needs_pager("a\nb\nc\n", false, 2));
    assert_eq!(terminal_height(None), 24);
    assert_eq!(terminal_height(Some("50")), 50);
    assert_eq!(terminal_height(Some("-1")), 24);
    assert_eq!(thread_count(Some("9"), Some(2)), 9);
    assert_eq!(thread_count(None, None), 4);
    assert_eq!(thread_count(None, Some(1)), 0);
    assert_eq!(thread_count(None, Some(2)), 1);
    assert_eq!(thread_count(None, Some(8)), 4);
    assert_eq!(thread_count(Some("x"), Some(64)), 6);
    match get(&json_output("q", "o"), "output") {
        Some(JsonValue::Text(s)) => assert_eq!(s, "o"),
        other => panic!("expected a text, got {other:?}"),
    }
}

#[test]
fn bounds_of_walks() {
    assert_eq!(walk_bounds(None, None, None), None);
    assert_eq!(walk_bounds(Some(1), Some(3), None), None);
    assert_eq!(
        walk_bounds(Some(2), None, None),
        Some(WalkBounds { depth: 2, frontier: 50, edges: 500 })
    );
    assert_eq!(
        walk_bounds(Some(9), Some(7), Some(8)),
        Some(WalkBounds { depth: 5, frontier: 7, edges: 8 })
    );
}

#[test]
fn shapes_of_words() {
    assert!(looks_like_exact_symbol("std::path"));
    assert!(looks_like_exact_symbol("getElementById"));
    assert!(!looks_like_exact_symbol("thinking"));
    assert!(!looks_like_exact_symbol(""));
    assert!(looks_like_filename("server.go"));
    assert!(looks_like_filename("CODEOWNERS"));
    assert!(!looks_like_filename(".gitignore"));
    assert!(!looks_like_filename("a."));
    assert!(!looks_like_filename("src/a.rs"));
    assert!(is_dotted_symbol("Auth.validate"));
    assert!(!is_dotted_symbol("server.go"));
    assert!(!is_dotted_symbol("1x.validate"));
    assert!(has_regex_metachar("a|b"));
    assert!(!has_regex_metachar("src/lib.rs"));
}

#[test]
fn hubs_that_are_left_out() {
    assert_eq!(
        parse_hubs(Some(&hubs_to_skip(None))),
        vec!["new", "clone", "from", "into", "to_string", "drop", "fmt", "default"]
    );
    assert!(parse_hubs(Some(&hubs_to_skip(Some("")))).is_empty());
    assert_eq!(parse_hubs(Some(&hubs_to_skip(Some("a, b,a")))), vec!["a", "b"]);
    assert!(parse_hubs(None).is_empty());
}
