use tilth::search::callees::{callee_query_str, extract_callee_names};
use tilth::syntax::lang_cache_key;
use tilth::types::Lang;

#[test]
fn grammar_cache_keys_unique() {
    // Verify that (node_kind_count, field_count) is unique across all shipped grammars.
    // A collision would cause one language to serve another's cached query.
    let grammars: Vec<(&str, tree_sitter::Language)> = vec![
        ("rust", tree_sitter_rust::LANGUAGE.into()),
        (
            "typescript",
            tree_sitter_typescript::LANGUAGE_TYPESCRIPT.into(),
        ),
        ("tsx", tree_sitter_typescript::LANGUAGE_TSX.into()),
        ("javascript", tree_sitter_javascript::LANGUAGE.into()),
        ("python", tree_sitter_python::LANGUAGE.into()),
        ("go", tree_sitter_go::LANGUAGE.into()),
        ("java", tree_sitter_java::LANGUAGE.into()),
        ("c", tree_sitter_c::LANGUAGE.into()),
        ("cpp", tree_sitter_cpp::LANGUAGE.into()),
        ("ruby", tree_sitter_ruby::LANGUAGE.into()),
        ("php", tree_sitter_php::LANGUAGE_PHP.into()),
        ("scala", tree_sitter_scala::LANGUAGE.into()),
        ("csharp", tree_sitter_c_sharp::LANGUAGE.into()),
        ("swift", tree_sitter_swift::LANGUAGE.into()),
        ("kotlin", tree_sitter_kotlin_ng::LANGUAGE.into()),
        ("elixir", tree_sitter_elixir::LANGUAGE.into()),
    ];
    let mut seen = std::collections::HashMap::new();
    for (name, lang) in &grammars {
        let key = lang_cache_key(lang);
        if let Some(prev) = seen.insert(key, name) {
            panic!("cache key collision: {prev} and {name} both produce {key:?}");
        }
    }
}

#[test]
fn kotlin_callee_query_compiles() {
    let lang: tree_sitter::Language = tree_sitter_kotlin_ng::LANGUAGE.into();
    let query_str = callee_query_str(Lang::Kotlin).unwrap();
    tree_sitter::Query::new(&lang, query_str).expect("kotlin callee query should compile");
}

#[test]
fn extract_kotlin_callee_names() {
    let kotlin = r#"fun example() {
    println("hello")
    val x = listOf(1, 2, 3)
    x.forEach { it.toString() }
}
"#;
    let names = extract_callee_names(kotlin, Lang::Kotlin, None);

    assert!(
        names.contains(&"println".to_string()),
        "expected println, got: {names:?}"
    );
    assert!(
        names.contains(&"listOf".to_string()),
        "expected listOf, got: {names:?}"
    );
    assert!(
        names.contains(&"forEach".to_string()),
        "expected forEach, got: {names:?}"
    );
    assert!(
        names.contains(&"toString".to_string()),
        "expected toString, got: {names:?}"
    );
}

#[test]
fn extract_php_callee_names() {
    let php = r#"<?php
function run($svc): void {
    local_helper();
    Foo\Bar::staticCall();
    $svc->methodCall();
    $svc?->nullableCall();
}
"#;

    let names = extract_callee_names(php, Lang::Php, None);

    assert!(names.contains(&"local_helper".to_string()));
    assert!(names.contains(&"staticCall".to_string()));
    assert!(names.contains(&"methodCall".to_string()));
    assert!(names.contains(&"nullableCall".to_string()));
}

#[test]
fn elixir_callee_query_compiles() {
    let lang: tree_sitter::Language = tree_sitter_elixir::LANGUAGE.into();
    let query_str = callee_query_str(Lang::Elixir).unwrap();
    tree_sitter::Query::new(&lang, query_str).expect("elixir callee query should compile");
}

#[test]
fn extract_elixir_callee_names() {
    let elixir = r#"defmodule Example do
  def run(conn) do
    result = query(conn, "SELECT 1")
    Enum.map(result, &to_string/1)
    IO.puts("done")
    local_func()
  end
end
"#;
    let names = extract_callee_names(elixir, Lang::Elixir, None);

    assert!(
        names.contains(&"query".to_string()),
        "expected query, got: {names:?}"
    );
    assert!(
        names.contains(&"map".to_string()),
        "expected map (from Enum.map), got: {names:?}"
    );
    assert!(
        names.contains(&"puts".to_string()),
        "expected puts (from IO.puts), got: {names:?}"
    );
    assert!(
        names.contains(&"local_func".to_string()),
        "expected local_func, got: {names:?}"
    );

    // Definition keywords must NOT appear as callees
    assert!(
        !names.contains(&"def".to_string()),
        "definition keyword 'def' should be filtered, got: {names:?}"
    );
    assert!(
        !names.contains(&"defmodule".to_string()),
        "definition keyword 'defmodule' should be filtered, got: {names:?}"
    );
}

#[test]
fn extract_elixir_callee_names_pipes() {
    let elixir = r#"defmodule Pipes do
  def run(conn) do
    conn
    |> prepare("sql")
    |> execute()
    |> Enum.map(&transform/1)
  end
end
"#;
    let names = extract_callee_names(elixir, Lang::Elixir, None);

    // Pipe targets are regular call nodes — the callee query should find them
    assert!(
        names.contains(&"prepare".to_string()),
        "expected prepare from pipe, got: {names:?}"
    );
    assert!(
        names.contains(&"execute".to_string()),
        "expected execute from pipe, got: {names:?}"
    );
    assert!(
        names.contains(&"map".to_string()),
        "expected map from Enum.map pipe, got: {names:?}"
    );
}
