use std::sync::Arc;

use tilth::search::callers_format::impact_search_stops;
use tilth::search::callers::{find_callers, find_callers_treesitter_batch, rank_callers, CallerMatch};
use tilth::search::expand::{
    expand_match, extract_line_range, filter_code_lines, find_enclosing_outline_idx, format_line_list,
    outline_context_for_match,
};
use tilth::search::facets::{facet_matches, facets_of, is_same_package, is_test_match, Facet};
use tilth::search::format::{format_matches, format_single_match, group_matches, ExpandState, MatchContext};
use tilth::search::io::{
    any_target, candidate_file, count_byte, estimate_lines, hit_mask, is_minified_filename, is_skipped_dir,
    looks_minified, parse_pattern, word_pattern, words_pattern,
};
use tilth::search::result::{
    basename_query, find_basename_fallback, format_glob_result, format_search_result, search_content_raw,
    search_regex_raw, search_symbol_raw, shared_expand_budget, source_priority, GlobFile, GlobResult,
};
use tilth::search::symbol::{
    definitions_in_batch, find_definitions, grammar_for_path, has_word, is_definition_line, merge_matches,
    FileFacts,
};
use tilth::search::usages::{find_usages, find_usages_batch, usages_in_lines};
use tilth::session::Session;
use tilth::types::{Lang, Match};

fn facts(path: &str) -> FileFacts {
    FileFacts {
        path: path.to_string(),
        file_lines: 10,
        mtime: 1,
    }
}

fn found(path: &str, line: u32, text: &str, is_definition: bool) -> Match {
    Match {
        path: path.to_string(),
        line,
        text: text.to_string(),
        is_definition,
        exact: true,
        file_lines: 10,
        mtime: 1,
        def_range: None,
        def_name: None,
        def_weight: 0,
        impl_target: None,
    }
}

fn bare() -> MatchContext {
    MatchContext {
        outline: None,
        content: None,
        noise: vec![],
        keep: None,
        callees: vec![],
    }
}

fn strings(v: &[&str]) -> Vec<String> {
    v.iter().map(|s| s.to_string()).collect()
}

fn chars(s: &str) -> Vec<char> {
    s.chars().collect()
}

#[test]
fn files_that_are_searched() {
    assert!(is_skipped_dir("node_modules"));
    assert!(is_skipped_dir(".git"));
    assert!(!is_skipped_dir("src"));
    assert!(is_minified_filename("a/jquery.min.js"));
    assert!(!is_minified_filename("a/jquery.js"));
    assert!(candidate_file("a.rs", 500_000));
    assert!(!candidate_file("a.rs", 500_001));
    assert!(!candidate_file("a.min.js", 10));
    assert_eq!(count_byte(b'a', b"banana"), 3);
    assert_eq!(estimate_lines(0), 1);
    assert_eq!(estimate_lines(400), 10);
}

#[test]
fn patterns_are_found_in_bytes() {
    assert_eq!(
        hit_mask(&strings(&["alpha", "beta", "xx"]), b"xx alpha xx"),
        Some(vec![true, false, true])
    );
    // What lies inside another match is not met.
    assert_eq!(
        hit_mask(&strings(&["alpha", "pha"]), b"xx alpha xx"),
        Some(vec![true, false])
    );
    assert!(any_target(&strings(&["alpha", "beta"]), b"a beta"));
    assert!(!any_target(&strings(&["alpha", "beta"]), b"a bet"));
    assert!(looks_minified("x".repeat(200_000).as_bytes()));
    assert!(!looks_minified("x\n".repeat(50_000).as_bytes()));
    assert_eq!(word_pattern("a.b"), r"\ba\.b\b");
    assert_eq!(words_pattern(&strings(&["a+", "b"])), r"\b(?:a\+|b)\b");
    assert_eq!(parse_pattern("/a+/"), ("a+".to_string(), true));
    assert_eq!(parse_pattern("a+"), ("a+".to_string(), false));
    assert!(has_word("let foo = 1;", "foo"));
    assert!(!has_word("let foobar = 1;", "foo"));
    assert!(has_word("foobar foo", "foo"));
    assert!(!has_word("afoo", "foo"));
}

#[test]
fn usages_are_lines_with_the_word() {
    let bytes = b"fn foo() {}\n  foo();\nfoobar();\n";
    let usages = find_usages(&facts("a.rs"), "foo", bytes.len() as u64, bytes).unwrap();
    let lines: Vec<(u32, &str)> = usages.iter().map(|m| (m.line, m.text.as_str())).collect();
    assert_eq!(lines, vec![(1, "fn foo() {}"), (2, "  foo();")]);
    assert!(usages.iter().all(|m| m.exact && !m.is_definition && m.path == "a.rs"));
    // A large file is not searched.
    assert_eq!(find_usages(&facts("a.rs"), "foo", 500_001, bytes).unwrap().len(), 0);
    let both = find_usages_batch(&facts("a.rs"), &strings(&["foo", "foobar"]), 10, bytes).unwrap();
    assert_eq!(both[0].len(), 2);
    assert_eq!(both[1].len(), 1);
    assert_eq!(both[1][0].line, 3);
    let given = vec![(4_294_967_298u64, "a foo\n".to_string())];
    let one = usages_in_lines(&facts("a.rs"), "bar", &given);
    assert_eq!((one[0].line, one[0].text.as_str(), one[0].exact), (2, "a foo", false));
}

#[test]
fn definitions_come_from_the_syntax() {
    let code = b"struct Foo;\nimpl Clone for Foo {\n    fn clone(&self) -> Foo { Foo }\n}\n";
    let defs = find_definitions(&facts("a.rs"), "Foo", code.len() as u64, code);
    assert!(defs.iter().any(|m| m.line == 1 && m.impl_target.is_none()));
    let impls = find_definitions(&facts("a.rs"), "Clone", code.len() as u64, code);
    assert!(impls.iter().any(|m| m.line == 2 && m.impl_target.is_some()));
    // Without a grammar the shape of the line decides.
    let heuristic = find_definitions(&facts("a.unknown"), "go", 20, b"function go() {}\ncall go();\n");
    assert_eq!(heuristic.len(), 1);
    assert_eq!(heuristic[0].line, 1);
    assert!(is_definition_line(&chars("pub fn x() {")));
    assert!(!is_definition_line(&chars("x();")));
    assert_eq!(grammar_for_path("a.py"), Some(Lang::Python));
    assert_eq!(grammar_for_path("a.txt"), None);
    let batch = definitions_in_batch(
        &facts("a.rs"),
        &strings(&["Foo", "clone"]),
        &[false, true],
        "struct Foo;\nfn clone() {}\n",
    );
    assert_eq!(batch[0].len(), 0);
    assert_eq!(batch[1].len(), 1);
}

#[test]
fn definitions_stay_first() {
    let defs = vec![found("p/a.rs", 1, "fn f", true)];
    let usages = vec![
        found("p/./a.rs", 1, "fn f", false),
        found("p/a.rs", 2, "f()", false),
    ];
    let r = merge_matches("f", "src", defs, usages);
    assert_eq!((r.definitions, r.usages, r.total_found), (1, 1, 2));
    assert!(r.matches[0].is_definition);
    assert_eq!(r.matches[1].line, 2);
    assert!(!r.has_more);
}

#[test]
fn callers_in_a_file() {
    let code = "fn a() {\n    target(1);\n}\nstruct S;\nimpl S {\n    fn m(&self) { target(2); }\n}\ntarget!(3);\n";
    let callers = find_callers("a.rs", "target", code.len() as u64, code.as_bytes());
    let names: Vec<(u32, &str)> = callers.iter().map(|c| (c.line, c.calling_function.as_str())).collect();
    assert!(names.contains(&(2, "a")));
    assert!(names.iter().any(|(line, name)| *line == 6 && name.contains('m')));
    assert!(find_callers("a.txt", "target", 10, b"target()").is_empty());
}

#[test]
fn callers_near_the_context_come_first() {
    let caller = |path: &str, line: u32| CallerMatch {
        path: path.to_string(),
        line,
        calling_function: "f".to_string(),
        call_text: "t()".to_string(),
        caller_range: None,
        content: Arc::new(String::new()),
    };
    let mut callers = vec![caller("src/z.rs", 1), caller("src/a.rs", 2), caller("src/m.rs", 3)];
    rank_callers(&mut callers, "src", Some("src/m.rs"));
    assert_eq!(callers[0].path, "src/m.rs");
    assert_eq!(callers.len(), 3);
}

#[test]
fn facets_part_the_matches() {
    let mut implementation = found("p/a.rs", 3, "impl T for S", true);
    implementation.impl_target = Some("T".to_string());
    let matches = vec![
        found("p/a.rs", 1, "struct S", true),
        implementation,
        found("p/tests/t.rs", 1, "S", false),
        found("p/b.rs", 9, "#[test]", false),
        found("p/b.rs", 5, "S", false),
        found("q/c.rs", 5, "S", false),
    ];
    let manifests = strings(&["p/Cargo.toml", "q/Cargo.toml"]);
    assert_eq!(
        facets_of(&matches, &manifests),
        vec![
            Facet::Definition,
            Facet::Implementation,
            Facet::Test,
            Facet::Test,
            Facet::LocalUsage,
            Facet::OtherUsage,
        ]
    );
    let f = facet_matches(matches, &manifests);
    let sizes = (
        f.definitions.len(),
        f.implementations.len(),
        f.tests.len(),
        f.usages_local.len(),
        f.usages_cross.len(),
    );
    assert_eq!(sizes, (1, 1, 2, 1, 1));
    assert!(is_same_package("p/x/y.rs", &Some("p".to_string()), &manifests));
    assert!(!is_same_package("p/x/y.rs", &None, &manifests));
    assert!(is_test_match(&found("a_test.go", 1, "", false)));
}

#[test]
fn outlines_give_context() {
    assert_eq!(extract_line_range(&chars("[3-9]        fn run")), Some((3, 9)));
    assert_eq!(extract_line_range(&chars("  [7]  fn x")), Some((7, 7)));
    assert_eq!(extract_line_range(&chars("no range")), None);
    let outline = Some("[1-2]  fn a\n[4-9]  fn b\n[11]  fn c".to_string());
    assert_eq!(find_enclosing_outline_idx(&outline, 5), Some(1));
    assert_eq!(find_enclosing_outline_idx(&outline, 10), None);
    let context = outline_context_for_match(&outline, 5).unwrap();
    assert!(context.contains("fn b"));
    assert_eq!(outline_context_for_match(&None, 5), None);
}

#[test]
fn lines_are_listed_in_runs() {
    assert_eq!(format_line_list(&[50, 55, 56, 57, 58, 63]), "50,55-58,63");
    assert_eq!(format_line_list(&[1, 2]), "1,2");
    assert_eq!(format_line_list(&[7]), "7");
    assert_eq!(format_line_list(&[]), "");
}

#[test]
fn source_is_shown_with_numbers() {
    let mut m = found("src/a.rs", 7, "fn f() {", true);
    m.def_range = Some((7, 9));
    let content = "1\n2\n3\n4\n5\n6\nfn f() {\n    g();\n}\n";
    let block = expand_match(&m, content, "src");
    // A small file is shown whole.
    assert_eq!(
        block,
        "\n```a.rs:1-9\n   1 │ 1\n   2 │ 2\n   3 │ 3\n   4 │ 4\n   5 │ 5\n   6 │ 6\n   7 │ fn f() {\n   8 │     g();\n   9 │ }\n```"
    );
    let long = format!("{}fn f() {{\n    g();\n}}\n", "// one line of a long file\n".repeat(2000));
    m.line = 2001;
    m.def_range = Some((2001, 2003));
    assert_eq!(
        expand_match(&m, &long, "src"),
        "\n```a.rs:2001-2003\n2001 │ fn f() {\n2002 │     g();\n2003 │ }\n```"
    );
    let filtered = filter_code_lines("\n   7 │ a\n   8 │ b\n   9 │ c", &vec![8]);
    assert!(filtered.contains("   7 │ a"));
    assert!(!filtered.contains("   8 │ b"));
}

#[test]
fn bodies_are_shown_once_in_a_session() {
    let mut m = found("src/a.rs", 7, "fn f() {", true);
    m.def_range = Some((7, 9));
    m.def_name = Some("f".to_string());
    let content = "1\n2\n3\n4\n5\n6\nfn f() {\n    g();\n}\n";
    let context = || MatchContext {
        outline: None,
        content: Some(content.to_string()),
        noise: vec![],
        keep: None,
        callees: vec![],
    };
    let mut state = ExpandState {
        remaining: 2,
        files: vec![],
        session: Some(Session::new()),
    };
    let mut first = String::new();
    format_single_match(&m, &context(), "src", false, &mut state, &mut first);
    assert!(first.contains("g();"));
    assert_eq!(state.remaining, 1);
    let mut second = String::new();
    format_single_match(&m, &context(), "src", false, &mut state, &mut second);
    assert!(second.contains("[shown earlier]"));
    assert!(!second.contains("g();"));
}

#[test]
fn usages_in_one_function_are_grouped() {
    let outline = Some("[1-9]  fn f".to_string());
    let mut matches: Vec<Match> = (2..7).map(|i| found("src/a.rs", i, "x()", false)).collect();
    for m in &mut matches {
        m.file_lines = 50;
    }
    let contexts: Vec<MatchContext> = matches
        .iter()
        .map(|_| MatchContext {
            outline: outline.clone(),
            content: None,
            noise: vec![],
            keep: None,
            callees: vec![],
        })
        .collect();
    let groups = group_matches(&matches, &contexts, &[0, 1, 2, 3, 4]);
    let members: usize = groups.iter().map(|g| g.len()).sum();
    assert_eq!(members, 5);
    assert_eq!(groups.len(), 1);
    let mut state = ExpandState {
        remaining: 0,
        files: vec![],
        session: None,
    };
    let mut out = String::new();
    format_matches(&matches, &contexts, &[0, 1, 2, 3, 4], "src", &mut state, &mut out);
    assert!(out.contains("2-6"));
}

#[test]
fn results_end_with_their_size() {
    let r = merge_matches("f", "src", vec![found("src/a.rs", 1, "fn f", true)], vec![]);
    let mut state = ExpandState {
        remaining: 0,
        files: vec![],
        session: None,
    };
    let text = format_search_result(&r, "# header", &None, &[bare()], &[], &mut state);
    assert!(text.starts_with("# header"));
    assert!(text.contains("a.rs:1"));
    assert!(text.contains("tokens"));
}

#[test]
fn searches_are_prepared() {
    assert_eq!(
        format!("{:?}", search_symbol_raw("a.b")),
        "Symbol { query: \"a.b\", pattern: \"\\\\ba\\\\.b\\\\b\" }"
    );
    assert_ne!(format!("{:?}", search_content_raw("/a+/")), format!("{:?}", search_content_raw("a+")));
    assert!(format!("{:?}", search_regex_raw("a+")).contains("a+"));
    assert_eq!(shared_expand_budget(0, 3), 0);
    assert!(shared_expand_budget(2, 3) >= 2);
}

#[test]
fn files_named_like_the_query() {
    assert_eq!(basename_query("Config").as_deref(), Some("config"));
    assert_eq!(basename_query("two words"), None);
    assert_eq!(basename_query("a::b"), None);
    assert_eq!(basename_query(""), None);
    assert!(source_priority("a.ts") != source_priority("a.js"));
    assert_eq!(
        find_basename_fallback(&strings(&["src/other.rs", "src/config.rs"]), "config").as_deref(),
        Some("src/config.rs")
    );
    assert_eq!(find_basename_fallback(&strings(&["src/other.rs"]), "config"), None);
}

#[test]
fn globs_list_their_files() {
    let result = GlobResult {
        pattern: "*.rs".to_string(),
        files: vec![GlobFile {
            path: "src/a.rs".to_string(),
            preview: Some("~3 tokens".to_string()),
        }],
        total_found: 1,
        available_extensions: vec![],
    };
    let text = format_glob_result(&result, "src");
    assert!(text.contains("*.rs"));
    assert!(text.contains("a.rs"));
    assert!(text.contains("~3 tokens"));
}

#[test]
fn constructing_a_value_is_a_call() {
    let cases = [
        ("a.rs", "struct Foo { a: u8 }\nfn main() { let x = Foo { a: 1 }; }\n", 2),
        ("a.rs", "fn main() {\n    m::Foo { a: 1 };\n}\n", 2),
        ("a.rs", "fn main() {\n    Foo::<u8> { a: 1 };\n}\n", 2),
        ("a.ts", "function main() {\n  new Foo(1);\n}\n", 2),
        ("a.ts", "function main() {\n  new ns.Foo();\n}\n", 2),
        ("a.tsx", "function main() {\n  new Foo(1);\n}\n", 2),
        ("a.js", "function main() {\n  new Foo(1);\n}\n", 2),
        ("a.py", "def main():\n    Foo(1)\n", 2),
        ("a.go", "package p\nfunc main() {\n\tx := Foo{A: 1}\n}\n", 3),
        ("a.go", "package p\nfunc main() {\n\tx := &pkg.Foo{}\n}\n", 3),
        ("A.java", "class A {\n  void main() {\n    new Foo();\n  }\n}\n", 3),
        ("A.java", "class A {\n  void main() {\n    new Foo<String>();\n  }\n}\n", 3),
        ("A.java", "class A {\n  void main() {\n    new p.Foo();\n  }\n}\n", 3),
        ("a.scala", "object A {\n  def main() = {\n    val x = new Foo(1)\n  }\n}\n", 3),
        ("a.scala", "object A {\n  def main() = {\n    val x = new Foo[Int](1)\n  }\n}\n", 3),
        ("a.c", "void main(void) {\n  x = (Foo){ 1 };\n}\n", 2),
        ("a.c", "void main(void) {\n  x = (struct Foo){ 1 };\n}\n", 2),
        ("a.cpp", "void main() {\n  auto x = new Foo(1);\n}\n", 2),
        ("a.cpp", "void main() {\n  auto x = new ns::Foo(1);\n}\n", 2),
        ("a.cpp", "void main() {\n  auto x = new Foo<int>(1);\n}\n", 2),
        ("a.cpp", "void main() {\n  auto x = Foo{1};\n}\n", 2),
        ("a.rb", "def main\n  Foo.new(1)\nend\n", 2),
        ("a.rb", "def main\n  M::Foo.new(1)\nend\n", 2),
        ("a.php", "<?php\nfunction main() {\n  $x = new Foo(1);\n}\n", 3),
        ("a.php", "<?php\nfunction main() {\n  $x = new \\N\\Foo(1);\n}\n", 3),
        ("a.swift", "func main() {\n  let x = Foo(1)\n}\n", 2),
        ("a.swift", "func main() {\n  let x = Foo<Int>(1)\n}\n", 2),
        ("a.kt", "fun main() {\n  val x = Foo(1)\n}\n", 2),
        ("a.cs", "class A {\n  void Main() {\n    var x = new Foo(1);\n  }\n}\n", 3),
        ("a.cs", "class A {\n  void Main() {\n    var x = new N.Foo();\n  }\n}\n", 3),
        ("a.cs", "class A {\n  void Main() {\n    var x = new Foo<int>();\n  }\n}\n", 3),
    ];
    let mut missed = Vec::new();
    for (path, code, line) in cases {
        let callers = find_callers(path, "Foo", code.len() as u64, code.as_bytes());
        let lines: Vec<u32> = callers.iter().map(|c| c.line).collect();
        if lines != vec![line] {
            missed.push((path, code, lines));
        }
    }
    assert_eq!(missed, vec![]);
    let elixir = "defmodule A do\n  def main do\n    %Foo{a: 1}\n  end\nend\n";
    let callers = find_callers_treesitter_batch("a.ex", &strings(&["Foo"]), elixir, Lang::Elixir);
    assert_eq!(callers.len(), 1);
    assert_eq!(callers[0].1.line, 3);
    assert_eq!(callers[0].1.calling_function, "A.main");
    let code = cases[0].1;
    let callers = find_callers("a.rs", "Foo", code.len() as u64, code.as_bytes());
    assert_eq!(callers[0].calling_function, "main");
    assert_eq!(callers[0].call_text, "fn main() { let x = Foo { a: 1 }; }");
}

#[test]
fn elixir_callers_have_their_function() {
    let code = "defmodule MyApp.Cart do\n  use GenServer\n\n  def total(items) do\n    target(items)\n  end\n\n  defp check(x) when x > 0, do: target(x)\n\n  def plain, do: target()\n\n  target()\nend\n\ntarget()\n";
    let callers = find_callers_treesitter_batch("cart.ex", &strings(&["target"]), code, Lang::Elixir);
    let found: Vec<(u32, &str, Option<(u32, u32)>)> = callers
        .iter()
        .map(|(_, c)| (c.line, c.calling_function.as_str(), c.caller_range))
        .collect();
    assert_eq!(
        found,
        vec![
            (5, "MyApp.Cart.total", Some((4, 6))),
            (8, "MyApp.Cart.check", Some((8, 8))),
            (10, "MyApp.Cart.plain", Some((10, 10))),
            (12, "MyApp.Cart", Some((1, 13))),
            (15, "<top-level>", None),
        ]
    );
}

#[test]
fn search_for_impact_stops_early() {
    assert!(!impact_search_stops(49));
    assert!(impact_search_stops(50));
}
