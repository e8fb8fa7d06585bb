use tilth::classify::classify;
use tilth::disambiguate::{resolution_note, resolve_bare_filename, NamedFile};
use tilth::read::section::read_section;
use tilth::run::{plan, Plan};
use tilth::search::result::{format_glob_result, GlobFile, GlobResult};

fn files(v: &[(&str, bool)]) -> Vec<NamedFile> {
    v.iter()
        .map(|(path, ignored)| NamedFile {
            path: path.to_string(),
            ignored: *ignored,
        })
        .collect()
}

fn run(name: &str, found: &[(&str, bool)]) -> Result<String, String> {
    let f = files(found);
    resolve_bare_filename(name, &f).map(|i| resolution_note(name, &f[i].path, f.len() - 1))
}

#[test]
fn bare_filename_with_section_auto_resolves_to_prod() {
    let out = run(
        "Cart.php",
        &[
            ("classes/Cart.php", false),
            ("tests/Resources/modules_tests/override/classes/Cart.php", false),
            ("vendor/acme/classes/Cart.php", false),
        ],
    )
    .unwrap();
    assert!(out.contains("Resolved 'Cart.php'"), "{out}");
    assert!(out.contains("classes/Cart.php"), "{out}");
    let body = (1..=30).map(|i| format!("// line {i}")).collect::<Vec<_>>().join("\n");
    let s = read_section(body.as_bytes(), "classes/Cart.php", "10-15").unwrap();
    let shown = &body[s.start_byte..s.end_byte];
    assert!(shown.contains("line 10") && shown.contains("line 15"));
    assert!(!shown.contains("line 9") && !shown.contains("line 16"));
}

#[test]
fn bare_filename_no_section_unchanged() {
    assert!(matches!(
        plan(classify("Cart.php", ".", false)),
        Plan::Files(pattern) if pattern == "**/Cart.php"
    ));
    let out = format_glob_result(
        &GlobResult {
            pattern: "**/Cart.php".to_string(),
            files: ["classes/Cart.php", "tests/Resources/modules_tests/override/classes/Cart.php", "vendor/acme/classes/Cart.php"]
                .iter()
                .map(|p| GlobFile {
                    path: p.to_string(),
                    preview: None,
                })
                .collect(),
            total_found: 3,
            available_extensions: vec![],
        },
        ".",
    );
    assert!(out.contains("Glob:") || out.contains("files"), "{out}");
    assert!(!out.contains("Resolved 'Cart.php'"), "{out}");
}

#[test]
fn bare_filename_with_section_ambiguous_prod_fails_loud() {
    let msg = run("Cart.php", &[("src/a/Cart.php", false), ("src/b/Cart.php", false)]).unwrap_err();
    assert!(msg.contains("exactly one"), "{msg}");
    assert!(msg.contains("Cart.php"), "{msg}");
    assert_eq!(
        msg,
        "section needs exactly one file, but 'Cart.php' matches 2:\n  src/a/Cart.php\n  src/b/Cart.php"
    );
}

#[test]
fn bare_filename_respects_gitignore_for_disambig() {
    let out = run("lib.rs", &[("src/lib.rs", false), ("benchmark/nested/lib.rs", true)]).unwrap();
    assert!(out.contains("Resolved 'lib.rs'") && out.contains("src/lib.rs"), "{out}");
    assert!(out.contains("non-primary"), "{out}");
}

#[test]
fn bare_filename_depth_rank_picks_shallowest() {
    let out = run("main.rs", &[("pkg/deep/nested/main.rs", false), ("src/main.rs", false)]).unwrap();
    assert!(out.contains("→ src/main.rs"), "{out}");
}

#[test]
fn no_primary_file_at_all() {
    assert_eq!(
        run("a.rs", &[("tests/a.rs", false)]).unwrap_err(),
        "section needs exactly one file, but 'a.rs' matches 0:\n  "
    );
    assert!(run("a.rs", &[]).is_err());
}
