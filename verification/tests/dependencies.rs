use std::sync::Arc;

use tilth::search::callees::ResolvedCallee;
use tilth::search::callers::CallerMatch;
use tilth::search::deps::{
    analyze_deps, collect_symbol_names, exported_symbols, is_placeholder_name, is_stdlib, is_valid_module_path,
    searched_symbols, Dependent, ImportLine, LocalDep,
};
use tilth::search::deps_format::{apply_budget_truncation, assemble, format_deps};
use tilth::types::{Lang, OutlineEntry, OutlineKind};

fn strings(v: &[&str]) -> Vec<String> {
    v.iter().map(|s| s.to_string()).collect()
}

const CONTENT: &str = "use serde::Value;\nuse std::fs;\nuse crate::util;\n\npub fn alpha() {\n    help();\n}\n\npub struct Beta;\n";

fn call(target: &str, path: &str, line: u32) -> (String, CallerMatch) {
    (
        target.to_string(),
        CallerMatch {
            path: path.to_string(),
            line,
            calling_function: "user".to_string(),
            call_text: format!("{target}()"),
            caller_range: None,
            content: Arc::new(String::new()),
        },
    )
}

#[test]
fn exported_names() {
    let names = exported_symbols(CONTENT, Lang::Rust);
    assert!(names.contains(&"alpha".to_string()));
    assert!(names.contains(&"Beta".to_string()));
    let e = OutlineEntry {
        kind: OutlineKind::Class,
        name: "C".to_string(),
        start_line: 1,
        end_line: 2,
        signature: None,
        children: vec![],
        doc: None,
    };
    let mut out = Vec::new();
    collect_symbol_names(&e, &mut out);
    assert_eq!(out, vec!["C"]);
    assert!(is_placeholder_name("<anonymous>"));
    assert!(!is_placeholder_name("alpha"));
    let many: Vec<String> = (0..1000).map(|i| format!("symbol_{i}")).collect();
    assert!(searched_symbols(many).len() < 1000);
}

#[test]
fn modules_by_language() {
    assert!(is_stdlib("std::fs", Lang::Rust));
    assert!(!is_stdlib("serde::Value", Lang::Rust));
    assert!(is_stdlib("os.path", Lang::Python));
    assert!(!is_stdlib("numpy", Lang::Python));
    assert!(is_valid_module_path("@scope/x"));
    assert!(is_valid_module_path("é"));
    assert!(!is_valid_module_path("a b"));
    assert!(!is_valid_module_path("{x"));
    assert!(!is_valid_module_path(""));
}

#[test]
fn dependencies_of_a_file() {
    let resolved = vec![
        ResolvedCallee {
            name: "help".to_string(),
            file: "src/util.rs".to_string(),
            start_line: 1,
            end_line: 2,
            signature: None,
        },
        ResolvedCallee {
            name: "own".to_string(),
            file: "src/a.rs".to_string(),
            start_line: 1,
            end_line: 2,
            signature: None,
        },
    ];
    let imports = vec![
        ImportLine {
            line: "use serde::Value;".to_string(),
            external: true,
        },
        ImportLine {
            line: "use std::fs;".to_string(),
            external: true,
        },
        ImportLine {
            line: "use crate::util;".to_string(),
            external: false,
        },
    ];
    let callers = vec![
        call("alpha", "src/user.rs", 3),
        call("alpha", "src/user.rs", 9),
        call("alpha", "tests/t.rs", 1),
        call("alpha", "src/a.rs", 2),
    ];
    let r = analyze_deps(
        "src/a.rs",
        CONTENT,
        &resolved,
        &strings(&["src/util.rs", "src/other.rs"]),
        &imports,
        &callers,
        &strings(&["tests/t.rs"]),
        None,
        0,
    );
    assert_eq!(r.target, "src/a.rs");
    let local: Vec<(&str, usize)> = r.uses_local.iter().map(|d| (d.path.as_str(), d.symbols.len())).collect();
    assert_eq!(local, vec![("src/other.rs", 0), ("src/util.rs", 1)]);
    assert_eq!(r.uses_external.len(), 1);
    assert!(r.uses_external[0].starts_with("serde"));
    let users: Vec<(&str, bool)> = r.used_by.iter().map(|d| (d.path.as_str(), d.is_test)).collect();
    assert_eq!(users, vec![("src/user.rs", false), ("tests/t.rs", true)]);
    assert_eq!(r.total_dependents, 2);
    let text = format_deps(&r, "", None);
    assert!(text.contains("src/util.rs"));
    assert!(text.contains("src/user.rs"));
    assert!(text.ends_with(" tokens]"));
    // A tight budget leaves the dependents out before the header.
    let tight = format_deps(&r, "", Some(1));
    assert!(tight.contains("src/a.rs"));
    assert!(tight.len() < text.len());
    assert_eq!(
        analyze_deps("notes.txt", "", &vec![], &vec![], &vec![], &vec![], &vec![], None, 0).exported_count,
        0
    );
}

#[test]
fn parts_are_assembled() {
    assert_eq!(assemble(&strings(&["a", " ", "b", ""])), "a\n\nb");
}

#[test]
fn paths_with_a_blank_stay_whole() {
    let local = [LocalDep {
        path: "my dir/a.rs".to_string(),
        symbols: strings(&["a_rather_long_name", "another_rather_long_name"]),
    }];
    let none: [&Dependent; 0] = [];
    assert_eq!(
        apply_budget_truncation("# Deps: x", &local, "", &none, "", "", 12),
        "# Deps: x\n\n## Uses (local)\nmy dir/a.rs"
    );
    assert_eq!(
        apply_budget_truncation("# Deps: x", &local, "", &none, "", "", 100),
        "# Deps: x\n\n## Uses (local)\nmy dir/a.rs                    a_rather_long_name, another_rather_long_name"
    );
    assert_eq!(apply_budget_truncation("# Deps: x", &local, "", &none, "", "", 5), "# Deps: x");
}

#[test]
fn dependents_come_page_by_page() {
    let callers: Vec<(String, CallerMatch)> = (10..40).map(|i| call("alpha", &format!("src/user{i}.rs"), 1)).collect();
    let page = |limit: Option<usize>, offset: usize| {
        let r = analyze_deps(
            "src/a.rs",
            CONTENT,
            &vec![],
            &vec![],
            &vec![],
            &callers,
            &vec![],
            limit,
            offset,
        );
        assert_eq!(r.total_dependents, 30);
        let shown: Vec<String> = r.used_by.iter().map(|d| d.path.clone()).collect();
        (shown, format_deps(&r, "", None))
    };
    let (first, text) = page(None, 0);
    assert_eq!(first.len(), 15);
    assert!(text.contains("\n\n... and 15 more dependents"));
    let (second, text) = page(None, 15);
    assert_eq!(second.len(), 15);
    assert!(!text.contains("more dependents"));
    assert_eq!(first[14], "src/user24.rs");
    assert_eq!(second[0], "src/user25.rs");
    let (some, text) = page(Some(4), 20);
    assert_eq!(some, strings(&["src/user30.rs", "src/user31.rs", "src/user32.rs", "src/user33.rs"]));
    assert!(text.contains("\n\n... and 6 more dependents"));
    assert!(page(None, 30).0.is_empty());
    assert!(page(Some(5), usize::MAX).0.is_empty());
}
