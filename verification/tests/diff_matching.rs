use tilth::diff::matching::{build_diff_symbols, compute_structural_hash, hash_string, match_symbols};
use tilth::diff::{ChangeType, DiffSymbol, MatchConfidence, SymbolIdentity};
use tilth::lang::outline::get_outline_entries;
use tilth::types::{Lang, OutlineEntry, OutlineKind};

fn make_sym(
    kind: OutlineKind,
    name: &str,
    parent: &str,
    source: &str,
    sig: Option<&str>,
) -> DiffSymbol {
    let content_hash = hash_string(source);
    let structural_hash = compute_structural_hash(source, name, Lang::Rust);
    DiffSymbol {
        entry: OutlineEntry {
            kind,
            name: name.to_string(),
            start_line: 1,
            end_line: 1,
            signature: sig.map(|s| s.to_string()),
            children: Vec::new(),
            doc: None,
        },
        identity: SymbolIdentity {
            kind,
            parent_path: parent.to_string(),
            name: name.to_string(),
        },
        content_hash,
        structural_hash,
        source_text: source.to_string(),
    }
}

// 1. identity_match_body_changed
#[test]
fn identity_match_body_changed() {
    let old = vec![make_sym(
        OutlineKind::Function,
        "foo",
        "",
        "fn foo() { 1 }",
        Some("fn foo()"),
    )];
    let new = vec![make_sym(
        OutlineKind::Function,
        "foo",
        "",
        "fn foo() { 2 }",
        Some("fn foo()"),
    )];
    let changes = match_symbols(&old, &new);
    assert_eq!(changes.len(), 1);
    assert!(matches!(changes[0].change, ChangeType::BodyChanged));
    assert!(matches!(
        changes[0].match_confidence,
        MatchConfidence::Exact
    ));
}

// 2. identity_match_signature_changed
#[test]
fn identity_match_signature_changed() {
    let old = vec![make_sym(
        OutlineKind::Function,
        "foo",
        "",
        "fn foo(x: i32) { x }",
        Some("fn foo(x: i32)"),
    )];
    let new = vec![make_sym(
        OutlineKind::Function,
        "foo",
        "",
        "fn foo(x: i32, y: i32) { x + y }",
        Some("fn foo(x: i32, y: i32)"),
    )];
    let changes = match_symbols(&old, &new);
    assert_eq!(changes.len(), 1);
    assert!(matches!(changes[0].change, ChangeType::SignatureChanged));
    assert_eq!(changes[0].old_sig.as_deref(), Some("fn foo(x: i32)"));
    assert_eq!(
        changes[0].new_sig.as_deref(),
        Some("fn foo(x: i32, y: i32)")
    );
}

// 3. unchanged_symbol
#[test]
fn unchanged_symbol() {
    let src = "fn foo() { 42 }";
    let old = vec![make_sym(
        OutlineKind::Function,
        "foo",
        "",
        src,
        Some("fn foo()"),
    )];
    let new = vec![make_sym(
        OutlineKind::Function,
        "foo",
        "",
        src,
        Some("fn foo()"),
    )];
    let changes = match_symbols(&old, &new);
    assert_eq!(changes.len(), 1, "Unchanged symbols must be in the output");
    assert!(matches!(changes[0].change, ChangeType::Unchanged));
}

// 4. overloaded_methods
#[test]
fn overloaded_methods() {
    let old = vec![
        make_sym(
            OutlineKind::Function,
            "process",
            "",
            "fn process() { a }",
            Some("fn process()"),
        ),
        make_sym(
            OutlineKind::Function,
            "process",
            "",
            "fn process() { b }",
            Some("fn process()"),
        ),
    ];
    let new = vec![
        make_sym(
            OutlineKind::Function,
            "process",
            "",
            "fn process() { a_new }",
            Some("fn process()"),
        ),
        make_sym(
            OutlineKind::Function,
            "process",
            "",
            "fn process() { b_new }",
            Some("fn process()"),
        ),
    ];
    let changes = match_symbols(&old, &new);
    // Both should be matched (by position order) — both changed
    let body_changes: Vec<_> = changes
        .iter()
        .filter(|c| matches!(c.change, ChangeType::BodyChanged))
        .collect();
    assert_eq!(body_changes.len(), 2);
}

// 5. rename_detection_structural_hash
#[test]
fn rename_detection_structural_hash() {
    let old = vec![make_sym(
        OutlineKind::Function,
        "foo",
        "",
        "fn foo(x: i32) -> i32 { x + 1 }",
        Some("fn foo(x: i32) -> i32"),
    )];
    let new = vec![make_sym(
        OutlineKind::Function,
        "bar",
        "",
        "fn bar(x: i32) -> i32 { x + 1 }",
        Some("fn bar(x: i32) -> i32"),
    )];
    let changes = match_symbols(&old, &new);
    assert_eq!(changes.len(), 1);
    assert!(
        matches!(&changes[0].change, ChangeType::Renamed { old_name } if old_name == "foo")
    );
    assert!(matches!(
        changes[0].match_confidence,
        MatchConfidence::Structure
    ));
}

// 6. structural_hash_excludes_name
#[test]
fn structural_hash_excludes_name() {
    let hash_a = compute_structural_hash("fn foo(x: i32) -> i32 { x + 1 }", "foo", Lang::Rust);
    let hash_b = compute_structural_hash("fn bar(x: i32) -> i32 { x + 1 }", "bar", Lang::Rust);
    assert_eq!(hash_a, hash_b, "structural hash should exclude symbol name");
}

// 7. structural_hash_differs_for_bodies
#[test]
fn structural_hash_differs_for_bodies() {
    let hash_a = compute_structural_hash("fn foo() { 1 + 2 }", "foo", Lang::Rust);
    let hash_b = compute_structural_hash("fn foo() { 3 * 4 }", "foo", Lang::Rust);
    assert_ne!(
        hash_a, hash_b,
        "different bodies should produce different hashes"
    );
}

// 8. structural_hash_skips_comments
#[test]
fn structural_hash_skips_comments() {
    let hash_a = compute_structural_hash("fn foo() { x + 1 }", "foo", Lang::Rust);
    let hash_b = compute_structural_hash(
        "// this is a comment\nfn foo() { x + 1 }",
        "foo",
        Lang::Rust,
    );
    assert_eq!(hash_a, hash_b, "comments should not affect structural hash");
}

// 9. ambiguity_multiple_structural
#[test]
fn ambiguity_multiple_structural() {
    // Two old and two new with same structural hash
    let old = vec![
        make_sym(
            OutlineKind::Function,
            "alpha",
            "",
            "fn alpha(x: i32) -> i32 { x + 1 }",
            None,
        ),
        make_sym(
            OutlineKind::Function,
            "beta",
            "",
            "fn beta(x: i32) -> i32 { x + 1 }",
            None,
        ),
    ];
    let new = vec![
        make_sym(
            OutlineKind::Function,
            "gamma",
            "",
            "fn gamma(x: i32) -> i32 { x + 1 }",
            None,
        ),
        make_sym(
            OutlineKind::Function,
            "delta",
            "",
            "fn delta(x: i32) -> i32 { x + 1 }",
            None,
        ),
    ];
    let changes = match_symbols(&old, &new);
    let ambiguous: Vec<_> = changes
        .iter()
        .filter(|c| matches!(c.match_confidence, MatchConfidence::Ambiguous(_)))
        .collect();
    assert!(
        ambiguous.len() >= 2,
        "multiple structural matches should produce Ambiguous entries"
    );
}

// 10. fuzzy_match
#[test]
fn fuzzy_match() {
    // >80% Jaccard similar, different names, same kind, no identity match.
    // Bodies must differ structurally (different AST) so Phase 2 doesn't catch them,
    // but share enough tokens for Jaccard ≥0.8.
    let old = vec![make_sym(
        OutlineKind::Function,
        "handle_request",
        "",
        "fn handle_request(a: i32, b: i32, c: i32) { let x = a + b + c; println!(x); x }",
        None,
    )];
    let new = vec![make_sym(
        OutlineKind::Function,
        "process_request",
        "",
        "fn process_request(a: i32, b: i32, c: i32) { let x = a + b + c; println!(x); x + 0 }",
        None,
    )];
    let changes = match_symbols(&old, &new);
    let fuzzy: Vec<_> = changes
        .iter()
        .filter(|c| matches!(c.match_confidence, MatchConfidence::Fuzzy(_)))
        .collect();
    assert_eq!(fuzzy.len(), 1);
    assert!(matches!(
        &fuzzy[0].change,
        ChangeType::Renamed { old_name } if old_name == "handle_request"
    ));
}

// 11. below_fuzzy_threshold
#[test]
fn below_fuzzy_threshold() {
    let old = vec![make_sym(
        OutlineKind::Function,
        "aaa",
        "",
        "fn aaa() { completely different code here with unique tokens alpha beta gamma }",
        None,
    )];
    let new = vec![make_sym(
        OutlineKind::Function,
        "bbb",
        "",
        "fn bbb() { nothing similar at all with other words delta epsilon zeta }",
        None,
    )];
    let changes = match_symbols(&old, &new);
    let added = changes
        .iter()
        .any(|c| matches!(c.change, ChangeType::Added));
    let deleted = changes
        .iter()
        .any(|c| matches!(c.change, ChangeType::Deleted));
    assert!(added, "unmatched new should be Added");
    assert!(deleted, "unmatched old should be Deleted");
}

// 12. prefilter_token_ratio
#[test]
fn prefilter_token_ratio() {
    let old = vec![make_sym(
        OutlineKind::Function,
        "tiny",
        "",
        "fn tiny() { x }",
        None,
    )];
    let new = vec![make_sym(
        OutlineKind::Function,
        "huge",
        "",
        "fn huge() { a b c d e f g h i j k l m n o p q r s t u v w x y z aa bb cc dd ee ff gg hh ii jj kk ll mm nn oo pp qq rr ss tt uu vv ww xx }",
        None,
    )];
    let changes = match_symbols(&old, &new);
    // Should not fuzzy-match due to size ratio pre-filter
    let fuzzy: Vec<_> = changes
        .iter()
        .filter(|c| matches!(c.match_confidence, MatchConfidence::Fuzzy(_)))
        .collect();
    assert!(
        fuzzy.is_empty(),
        "vastly different sizes should be skipped by pre-filter"
    );
}

// 13. added_and_deleted
#[test]
fn added_and_deleted() {
    let old = vec![make_sym(
        OutlineKind::Function,
        "old_fn",
        "",
        "fn old_fn() { removed }",
        None,
    )];
    let new = vec![make_sym(
        OutlineKind::Function,
        "new_fn",
        "",
        "fn new_fn() { completely brand new unique code that is nothing like the old }",
        None,
    )];
    let changes = match_symbols(&old, &new);
    assert!(changes
        .iter()
        .any(|c| matches!(c.change, ChangeType::Deleted) && c.name == "old_fn"));
    assert!(changes
        .iter()
        .any(|c| matches!(c.change, ChangeType::Added) && c.name == "new_fn"));
}

// 14. empty_inputs
#[test]
fn empty_inputs() {
    assert!(match_symbols(&[], &[]).is_empty());
    // One side empty
    let sym = vec![make_sym(OutlineKind::Function, "f", "", "fn f() {}", None)];
    let del = match_symbols(&sym, &[]);
    assert_eq!(del.len(), 1);
    assert!(matches!(del[0].change, ChangeType::Deleted));
    let add = match_symbols(&[], &sym);
    assert_eq!(add.len(), 1);
    assert!(matches!(add[0].change, ChangeType::Added));
}

// 15. impl_block_parent_path
#[test]
fn impl_block_parent_path() {
    let src = "impl Foo {\n    fn bar(&self) { 1 }\n}";
    let entries = get_outline_entries(src, Lang::Rust);
    let symbols = build_diff_symbols(&entries, src, Lang::Rust);
    let bar = symbols
        .iter()
        .find(|s| s.identity.name == "bar")
        .expect("should find bar method");
    assert!(
        bar.identity.parent_path.contains("impl Foo"),
        "parent_path should contain 'impl Foo', got: {}",
        bar.identity.parent_path
    );
}

// 16. build_diff_symbols_rust
#[test]
fn build_diff_symbols_rust() {
    let src = "fn hello() -> i32 { 42 }\nstruct Point { x: f64, y: f64 }";
    let entries = get_outline_entries(src, Lang::Rust);
    let symbols = build_diff_symbols(&entries, src, Lang::Rust);
    assert!(symbols.len() >= 2);
    let hello = symbols.iter().find(|s| s.identity.name == "hello");
    assert!(hello.is_some());
    let point = symbols.iter().find(|s| s.identity.name == "Point");
    assert!(point.is_some());
}

// 17. build_diff_symbols_impl_children
#[test]
fn build_diff_symbols_impl_children() {
    let src = "impl MyStruct {\n    fn method_a(&self) { }\n    fn method_b(&self) { }\n}";
    let entries = get_outline_entries(src, Lang::Rust);
    let symbols = build_diff_symbols(&entries, src, Lang::Rust);
    let methods: Vec<_> = symbols
        .iter()
        .filter(|s| s.identity.name == "method_a" || s.identity.name == "method_b")
        .collect();
    assert_eq!(methods.len(), 2);
    for m in &methods {
        assert!(
            m.identity.parent_path.contains("impl MyStruct"),
            "method {} should have parent_path containing 'impl MyStruct', got: {}",
            m.identity.name,
            m.identity.parent_path
        );
    }
}
