use tilth::lang::detection::is_generated_by_name;
use tilth::lang::outline::{extract_import_source, get_outline_entries, outline_language};
use tilth::lang::treesitter::{definition_weight, is_definition_kind};
use tilth::lang::{detect_file_type, file_type_from_name, manifest_candidates, package_root};
use tilth::search::callees::{extract_callee_names, go_package_files, is_elixir_keyword, DirFile, ResolvedCallee};
use tilth::search::resolve::{resolve_callees, resolve_callees_transitive, SourceFile};
use tilth::search::siblings::{
    extract_go_receiver_name, extract_sibling_references, find_parent_entry, resolve_siblings, sibling_query_str,
};
use tilth::syntax::query_is_valid;
use tilth::types::{FileType, Lang, OutlineKind};

fn strings(v: &[&str]) -> Vec<String> {
    v.iter().map(|s| s.to_string()).collect()
}

#[test]
fn types_of_files() {
    assert_eq!(detect_file_type("a/b.rs"), FileType::Code(Lang::Rust));
    assert_eq!(detect_file_type("b.tsx"), FileType::Code(Lang::Tsx));
    assert_eq!(detect_file_type("b.md"), FileType::Markdown);
    assert_eq!(detect_file_type("b.json"), FileType::StructuredData);
    assert_eq!(detect_file_type("b.csv"), FileType::Tabular);
    assert_eq!(detect_file_type("b.log"), FileType::Log);
    assert_eq!(detect_file_type("b.zzz"), FileType::Other);
    assert_eq!(detect_file_type("Dockerfile"), FileType::Code(Lang::Dockerfile));
    assert_eq!(file_type_from_name("x/Makefile"), FileType::Code(Lang::Make));
    assert!(is_generated_by_name("package-lock.json"));
    assert!(!is_generated_by_name("main.rs"));
}

#[test]
fn packages_are_found_by_their_manifests() {
    let candidates = manifest_candidates("a/b");
    assert!(candidates.contains(&"a/b/Cargo.toml".to_string()));
    assert!(candidates.contains(&"a/package.json".to_string()));
    assert_eq!(package_root("a/b", &strings(&["a/Cargo.toml"])).as_deref(), Some("a"));
    assert_eq!(
        package_root("a/b", &strings(&["a/Cargo.toml", "a/b/go.mod"])).as_deref(),
        Some("a/b")
    );
    assert_eq!(package_root("a/b", &[]), None);
}

#[test]
fn outlines_have_children() {
    let entries = get_outline_entries("struct S;\nimpl S {\n    /// Does it.\n    fn m(&self) {}\n}\n", Lang::Rust);
    assert_eq!(entries.len(), 2);
    assert_eq!(entries[0].kind, OutlineKind::Struct);
    assert_eq!(entries[1].children.len(), 1);
    assert_eq!(entries[1].children[0].name, "m");
    assert_eq!((entries[1].start_line, entries[1].end_line), (2, 5));
    assert!(get_outline_entries("anything", Lang::Dockerfile).is_empty());
    assert!(outline_language(Lang::Make).is_none());
}

#[test]
fn sources_of_imports() {
    assert_eq!(extract_import_source("import { a } from 'react';"), "react");
    assert_eq!(extract_import_source("import x from \"./y\""), "./y");
}

#[test]
fn definitions_by_kind() {
    assert!(is_definition_kind("function_item"));
    assert!(!is_definition_kind("identifier"));
    assert!(definition_weight("struct_item") > definition_weight("const_item"));
}

#[test]
fn queries_fit_their_grammars() {
    for lang in [Lang::Rust, Lang::TypeScript, Lang::Python, Lang::Go, Lang::Java, Lang::Scala] {
        let grammar = outline_language(lang).unwrap();
        if let Some(q) = sibling_query_str(lang) {
            assert!(query_is_valid(&grammar, q), "{lang:?}");
        }
    }
    let rust = outline_language(Lang::Rust).unwrap();
    assert!(!query_is_valid(&rust, "(no_such_node) @x"));
    assert!(is_elixir_keyword("defmodule"));
    assert!(!is_elixir_keyword("run"));
}

#[test]
fn callees_of_a_range() {
    let code = "fn a() {\n    one();\n}\nfn b() {\n    two();\n    x.three();\n}\n";
    assert_eq!(extract_callee_names(code, Lang::Rust, None), vec!["one", "three", "two"]);
    assert_eq!(extract_callee_names(code, Lang::Rust, Some((4, 7))), vec!["three", "two"]);
    assert!(extract_callee_names(code, Lang::Dockerfile, None).is_empty());
}

fn source(path: &str, content: &str) -> SourceFile {
    SourceFile {
        path: path.to_string(),
        content: content.to_string(),
    }
}

#[test]
fn callees_are_resolved_near_to_far() {
    let names = strings(&["own", "near", "own", "nowhere"]);
    let imported = vec![
        source("notes.md", "fn near() {}"),
        source("b.rs", "fn near() {}\nfn own() {}\n"),
    ];
    let resolved = resolve_callees(&names, "a.rs", "fn own() {}\n", &imported, &[]);
    let places: Vec<(&str, &str)> = resolved.iter().map(|c| (c.name.as_str(), c.file.as_str())).collect();
    assert_eq!(places, vec![("own", "a.rs"), ("near", "b.rs")]);
    // Only Go has packages of files that need no import.
    let package = vec![source("utils.go", "package p\nfunc far() {}\n")];
    let far = strings(&["far"]);
    assert_eq!(resolve_callees(&far, "a.go", "package p\n", &[], &package).len(), 1);
    assert_eq!(resolve_callees(&far, "a.rs", "", &[], &package).len(), 0);
    assert_eq!(resolve_callees(&far, "a.txt", "far", &[], &package).len(), 0);
}

#[test]
fn files_of_a_go_package() {
    let file = |path: &str, size: u64| DirFile {
        path: path.to_string(),
        size,
    };
    let files = vec![
        file("p/z.go", 1),
        file("p/a_test.go", 1),
        file("p/own.go", 1),
        file("p/big.go", 100_001),
        file("p/b.go", 100_000),
        file("p/c.rs", 1),
    ];
    assert_eq!(go_package_files(&files, "p/./own.go"), vec!["p/b.go", "p/z.go"]);
    let many: Vec<DirFile> = (10..40).map(|i| file(&format!("p/f{i}.go"), 1)).collect();
    assert_eq!(go_package_files(&many, "p/own.go").len(), 20);
}

#[test]
fn callees_of_callees() {
    let callee = |name: &str, line: u32| ResolvedCallee {
        name: name.to_string(),
        file: "a.rs".to_string(),
        start_line: line,
        end_line: line,
        signature: None,
    };
    let first = || vec![callee("f", 1), callee("g", 2)];
    // `f` calls itself, `g`, and `h` and `i`; `g` calls `h` and `j`.
    let second = || {
        vec![
            vec![callee("f", 1), callee("g", 2), callee("h", 3), callee("i", 4)],
            vec![callee("h", 3), callee("j", 5)],
        ]
    };
    let names = |budget: usize, depth: u32| -> Vec<(String, Vec<String>)> {
        resolve_callees_transitive(first(), second(), depth, budget)
            .into_iter()
            .map(|n| (n.callee.name, n.children.into_iter().map(|c| c.name).collect()))
            .collect()
    };
    assert_eq!(
        names(10, 2),
        vec![
            ("f".to_string(), strings(&["h", "i"])),
            ("g".to_string(), strings(&["j"])),
        ]
    );
    assert_eq!(
        names(1, 2),
        vec![("f".to_string(), strings(&["h"])), ("g".to_string(), vec![])]
    );
    assert_eq!(
        names(10, 1),
        vec![("f".to_string(), vec![]), ("g".to_string(), vec![])]
    );
}

#[test]
fn siblings_of_a_method() {
    let code = "struct S { n: u8 }\nimpl S {\n    fn a(&self) -> u8 { self.b() + self.n }\n    fn b(&self) -> u8 { 1 }\n}\n";
    let refs = extract_sibling_references(code, Lang::Rust, (3, 3));
    assert_eq!(refs, vec!["b", "n"]);
    let entries = get_outline_entries(code, Lang::Rust);
    let parent = find_parent_entry(&entries, 3).unwrap();
    let siblings = resolve_siblings(&refs, &parent.children);
    assert_eq!(siblings.len(), 1);
    assert_eq!(siblings[0].name, "b");
    assert_eq!(siblings[0].start_line, 4);
    assert!(find_parent_entry(&entries, 9).is_none());
    assert_eq!(extract_go_receiver_name("func (s *Server) Run() {}").as_deref(), Some("s"));
    assert_eq!(extract_go_receiver_name("func Run() {}"), None);
}
