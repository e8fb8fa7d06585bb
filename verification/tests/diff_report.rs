use tilth::diff::matching::{build_diff_symbols, find_name_range, match_symbols};
use tilth::diff::pairing::jaccard_similarity;
use tilth::diff::{
    changed_signatures, commit_source, compute_blast, diff, diff_command, file_meta, filter_by_search,
    filter_summaries, parse_log_line, relative_time, resolve_source, source_label, ChangeType,
    CommitSummary, DiffCommand, DiffLine, DiffLineKind, DiffReport, DiffSource, FileOverlay,
    MatchConfidence, SymbolChange,
};
use tilth::diff::parse::parse_unified_diff;
use tilth::lang::outline::get_outline_entries;
use tilth::types::{Lang, OutlineKind};

const RAW: &str = "diff --git a/src/a.rs b/src/a.rs\n--- a/src/a.rs\n+++ b/src/a.rs\n@@ -1 +1 @@\n-old\n+new\n";

fn change(name: &str, change: ChangeType) -> SymbolChange {
    SymbolChange {
        name: name.to_string(),
        kind: OutlineKind::Function,
        change,
        match_confidence: MatchConfidence::Exact,
        line: 1,
        old_sig: None,
        new_sig: None,
        size_delta: None,
    }
}

fn overlay(path: &str, changes: Vec<SymbolChange>, hunks: Vec<(&str, &str)>) -> FileOverlay {
    FileOverlay {
        path: path.to_string(),
        symbol_changes: changes,
        attributed_hunks: hunks
            .into_iter()
            .map(|(name, line)| {
                (
                    name.to_string(),
                    vec![DiffLine {
                        kind: DiffLineKind::Added,
                        content: line.to_string(),
                    }],
                )
            })
            .collect(),
        conflicts: vec![],
        new_content: None,
    }
}

fn some_overlays() -> Vec<FileOverlay> {
    vec![
        overlay(
            "src/a.rs",
            vec![
                change("Alpha", ChangeType::SignatureChanged),
                change("beta", ChangeType::BodyChanged),
            ],
            vec![("beta", "let ÄPFEL = 1;"), ("Alpha", "nothing")],
        ),
        overlay("src/b.rs", vec![change("gamma", ChangeType::Added)], vec![]),
    ]
}

#[test]
fn sources_and_commands() {
    assert_eq!(
        resolve_source(None, None, Some("b.rs"), None, None).unwrap_err(),
        "both --a and --b must be provided together"
    );
    assert!(matches!(
        resolve_source(None, Some("a"), None, None, Some("HEAD")).unwrap(),
        DiffSource::Log(_)
    ));
    let git = |source: &DiffSource| match diff_command(source).unwrap() {
        DiffCommand::Git(args) => args,
        other => panic!("expected git, got {other:?}"),
    };
    assert_eq!(git(&DiffSource::GitUncommitted), vec!["diff", "HEAD"]);
    assert_eq!(git(&DiffSource::GitStaged), vec!["diff", "--staged"]);
    assert_eq!(git(&DiffSource::GitRef("x..y".into())), vec!["diff", "x..y"]);
    assert_eq!(
        git(&DiffSource::Files("a".into(), "b".into())),
        vec!["diff", "--no-index", "--", "a", "b"]
    );
    assert!(matches!(
        diff_command(&DiffSource::Patch("p".into())),
        Ok(DiffCommand::ReadPatch(p)) if p == "p"
    ));
    assert_eq!(
        diff_command(&DiffSource::Log("r".into())).unwrap_err(),
        "log mode should not call run_git_diff directly"
    );
    assert_eq!(source_label(&DiffSource::GitUncommitted), "uncommitted");
    assert_eq!(source_label(&DiffSource::Files("a".into(), "b".into())), "a vs b");
    assert_eq!(source_label(&DiffSource::Patch("p".into())), "patch: p");
    assert_eq!(source_label(&DiffSource::Log("r".into())), "log: r");
}

#[test]
fn overlays_are_searched() {
    let mut found = some_overlays();
    // Upper and lower case are the same, beyond ASCII too.
    filter_by_search(&mut found, "äpfel");
    assert_eq!(found.len(), 1);
    let names: Vec<&str> = found[0].symbol_changes.iter().map(|c| c.name.as_str()).collect();
    assert_eq!(names, vec!["beta"]);
    assert_eq!(found[0].attributed_hunks.len(), 1);
    let mut by_name = some_overlays();
    filter_by_search(&mut by_name, "ALPHA");
    assert_eq!(by_name.len(), 1);
    assert_eq!(by_name[0].symbol_changes[0].name, "Alpha");
    let mut nothing = some_overlays();
    filter_by_search(&mut nothing, "delta");
    assert!(nothing.is_empty());
}

#[test]
fn reports_by_scope() {
    let mut overlays = some_overlays();
    assert!(matches!(diff(None, None, RAW, &mut overlays), Ok(DiffReport::Overview)));
    assert!(matches!(
        diff(None, None, "", &mut overlays),
        Ok(DiffReport::Message(m)) if m == "No changes."
    ));
    assert!(matches!(
        diff(None, None, "nothing of a diff\n", &mut overlays),
        Ok(DiffReport::Message(m)) if m == "No changes."
    ));
    assert!(matches!(diff(Some("b.rs"), None, RAW, &mut overlays), Ok(DiffReport::File(1))));
    assert!(matches!(
        diff(Some("a.rs:beta"), None, RAW, &mut overlays),
        Ok(DiffReport::Function(0, f)) if f == "beta"
    ));
    assert_eq!(
        diff(Some("c.rs"), None, RAW, &mut overlays).unwrap_err(),
        "file 'c.rs' not found in diff"
    );
    assert_eq!(
        diff(Some("c.rs:f"), None, RAW, &mut overlays).unwrap_err(),
        "file 'c.rs' not found in diff"
    );
    assert!(matches!(
        diff(None, Some("delta"), RAW, &mut overlays),
        Ok(DiffReport::Message(m)) if m == "No changes matching 'delta'."
    ));
}

#[test]
fn calls_of_changed_signatures() {
    assert_eq!(changed_signatures(&some_overlays()), vec!["Alpha"]);
    let targets: Vec<String> = ["f", "g", "f"].iter().map(|s| s.to_string()).collect();
    let mut warnings = compute_blast(&targets);
    warnings.sort();
    assert_eq!(
        warnings,
        vec![
            "blast: `f` signature changed — 2 callers may need updating",
            "blast: `g` signature changed — 1 caller may need updating",
        ]
    );
    assert!(compute_blast(&[]).is_empty());
}

#[test]
fn files_of_overlays() {
    let raw = "diff --git a/package-lock.json b/package-lock.json\n--- a/package-lock.json\n+++ b/package-lock.json\n@@ -1 +1 @@\n-{}\n+{ }\ndiff --git a/i.png b/i.png\nBinary files a/i.png and b/i.png differ\n";
    let diffs = parse_unified_diff(raw);
    assert_eq!(file_meta(&diffs, "package-lock.json"), (true, false));
    assert_eq!(file_meta(&diffs, "i.png"), (false, true));
    assert_eq!(file_meta(&diffs, "other"), (false, false));
}

#[test]
fn logs_are_read() {
    let line = parse_log_line("abc 1700000000 Fix the thing\0Jane Doe").unwrap();
    assert_eq!(line.hash, "abc");
    assert_eq!(line.timestamp, 1_700_000_000);
    assert_eq!(line.message, "Fix the thing");
    assert_eq!(line.author, "Jane Doe");
    let bare = parse_log_line("abc\0x").unwrap();
    assert_eq!((bare.timestamp, bare.message.as_str()), (0, ""));
    assert!(parse_log_line("abc 1 no author").is_none());
    assert!(parse_log_line("  ").is_none());
    assert!(matches!(commit_source("abc"), DiffSource::GitRef(r) if r == "abc^..abc"));
    let commit = |hash: &str, overlays: Vec<FileOverlay>| CommitSummary {
        hash: hash.to_string(),
        timestamp: 0,
        message: String::new(),
        author: String::new(),
        overlays,
    };
    let mut commits = vec![commit("one", some_overlays()), commit("two", vec![])];
    filter_summaries(&mut commits, "b.rs");
    assert_eq!(commits.len(), 1);
    assert_eq!(commits[0].overlays.len(), 1);
    assert_eq!(commits[0].overlays[0].path, "src/b.rs");
}

#[test]
fn times_are_relative() {
    assert_eq!(relative_time(-5), "0s ago");
    assert_eq!(relative_time(59), "59s ago");
    assert_eq!(relative_time(60), "1m ago");
    assert_eq!(relative_time(3599), "59m ago");
    assert_eq!(relative_time(86_399), "23h ago");
    assert_eq!(relative_time(86_400), "1d ago");
}

#[test]
fn similarity_counts_common_words() {
    let whole: u32 = 1 << 24;
    assert_eq!(jaccard_similarity("a b c", "c b a"), whole);
    assert_eq!(jaccard_similarity("a b", "a c"), 5_592_405);
    assert_eq!(jaccard_similarity("a", "b"), 0);
}

#[test]
fn moved_symbols_are_found() {
    let old = "mod a {\n    fn f(x: i32) -> i32 { x + 41 }\n}\n";
    let new = "mod b {\n    fn f(x: i32) -> i32 { x + 41 }\n}\n";
    let symbols = |src: &str| build_diff_symbols(&get_outline_entries(src, Lang::Rust), src, Lang::Rust);
    let changes = match_symbols(&symbols(old), &symbols(new));
    assert!(!changes.is_empty());
    let same = match_symbols(&symbols(old), &symbols(old));
    assert!(same.iter().all(|c| matches!(c.change, ChangeType::Unchanged)));
    assert_eq!(find_name_range("fn foo() {}", "foo"), Some((3, 6)));
    // A whole word comes first; where there is none, any place will do.
    assert_eq!(find_name_range("fn foobar(foo: u8) {}", "foo"), Some((10, 13)));
    assert_eq!(find_name_range("fn foobar() {}", "foo"), Some((3, 6)));
    assert_eq!(find_name_range("fn f() {}", "foo"), None);
    assert_eq!(find_name_range("fn f() {}", ""), None);
}
