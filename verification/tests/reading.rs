use tilth::cache::OutlineCache;
use tilth::lang::outline::outline_language;
use tilth::read::edit::edit_distance;
use tilth::read::outline::code::{format_entries, format_entry, format_imports, outline};
use tilth::read::section::{
    parse_range, read_section, resolve_heading, resolve_symbol, section_error_reason, suggest_headings,
};
use tilth::read::{
    full_read_size_cap, line_count, list_directory, look_first, mime_from_ext, plan_view, progressive_end,
    progressive_text, suggest_similar, suggest_similar_file, suggestion_dir, under_header, would_outline,
    DirItem, FileView, FirstLook,
};
use tilth::types::{Lang, OutlineEntry, OutlineKind};

fn entry(kind: OutlineKind, name: &str, start: u32, end: u32, children: Vec<OutlineEntry>) -> OutlineEntry {
    OutlineEntry {
        kind,
        name: name.to_string(),
        start_line: start,
        end_line: end,
        signature: None,
        children,
        doc: None,
    }
}

#[test]
fn files_are_looked_at_first() {
    assert_eq!(look_first(true, 0, true), FirstLook::Directory);
    assert_eq!(look_first(false, 0, true), FirstLook::Empty);
    assert_eq!(look_first(false, 1, true), FirstLook::Section);
    assert_eq!(look_first(false, 1, false), FirstLook::Content);
}

#[test]
fn files_are_shown_by_size_and_kind() {
    let cap = full_read_size_cap(None);
    assert_eq!(cap, 2_000_000);
    assert_eq!(full_read_size_cap(Some("100")), 100);
    assert_eq!(full_read_size_cap(Some("much")), 2_000_000);
    assert_eq!(plan_view("a.png", 10, true, false, true, cap), FileView::Binary);
    assert_eq!(plan_view("package-lock.json", 10, false, false, true, cap), FileView::Generated);
    assert_eq!(plan_view("a.rs", 10, false, true, false, cap), FileView::Generated);
    assert_eq!(plan_view("a.rs", 2_000_001, false, false, true, cap), FileView::Progressive);
    assert_eq!(plan_view("a.rs", 2_000_000, false, false, true, cap), FileView::Full);
    // Six thousand tokens are the most that is shown whole.
    assert_eq!(plan_view("a.rs", 24_000, false, false, false, cap), FileView::Full);
    assert_eq!(
        plan_view("a.rs", 24_001, false, false, false, cap),
        FileView::Outline { capped: false }
    );
    assert_eq!(
        plan_view("a.rs", 500_001, false, false, false, cap),
        FileView::Outline { capped: true }
    );
    assert_eq!(
        plan_view("a.json", 24_001, false, false, false, cap),
        FileView::Keys { capped: false }
    );
    assert!(would_outline(false, 24_001));
    assert!(!would_outline(false, 24_000));
    assert!(!would_outline(true, 24_001));
}

#[test]
fn large_files_are_shown_in_part() {
    assert_eq!(line_count(b""), 1);
    assert_eq!(line_count(b"a\nb\n"), 3);
    let long = "x\n".repeat(300);
    assert_eq!(progressive_end(long.as_bytes()), 400);
    assert_eq!(progressive_end(b"a\nb"), 3);
    let text = progressive_text("# f", "3.0", "2.0", 3_000_000, 300, "1 x", "[1] fn f");
    assert_eq!(
        text,
        "# f\n\n> **full=true capped**: file is 3.0MB (cap: 2.0MB). Showing first 200 of 300 lines. Continue with `section=\"201-<end>\"` or set TILTH_FULL_SIZE_CAP=3000000 to override.\n\n1 x\n\n## Outline\n\n[1] fn f"
    );
    assert!(progressive_text("h", "1", "1", 1, 20, "", "").contains("first 20 of 20 lines"));
    assert_eq!(under_header("h", "b"), "h\n\nb");
}

#[test]
fn directories_are_listed() {
    let item = |name: &str, is_dir: bool, is_symlink: bool, size: Option<u64>| DirItem {
        name: name.to_string(),
        is_dir,
        is_symlink,
        size,
    };
    let items = vec![
        item("z", true, false, None),
        item("b.rs", false, false, Some(9)),
        item("link", false, true, Some(4)),
        item("a", false, false, None),
    ];
    assert_eq!(
        list_directory("/p", items),
        "# /p (4 items)\n\n  a\n  b.rs  (3 tokens)\n  link →\n  z/"
    );
    assert_eq!(list_directory("/p", vec![]), "# /p (0 items)\n\n");
}

#[test]
fn similar_names_are_suggested() {
    let names: Vec<String> = ["lib.rs", "main.rs", "mains.rs"].iter().map(|s| s.to_string()).collect();
    assert_eq!(suggest_similar_file("src", "mian.rs", &names).as_deref(), Some("main.rs"));
    assert_eq!(suggest_similar("src/mainss.rs", &names).as_deref(), Some("mains.rs"));
    assert_eq!(suggest_similar("src/quite_different.rs", &names), None);
    assert_eq!(suggest_similar("/", &names), None);
    assert_eq!(suggestion_dir("src", "sub/a.rs").as_deref(), Some("src/sub"));
    assert_eq!(edit_distance("kitten", "sitting"), 3);
    assert_eq!(edit_distance("", "abc"), 3);
    // Bytes are counted, not characters.
    assert_eq!(edit_distance("é", ""), 2);
}

#[test]
fn kinds_of_data() {
    assert_eq!(mime_from_ext("a/b.png"), "image/png");
    assert_eq!(mime_from_ext("b.jpeg"), "image/jpeg");
    assert_eq!(mime_from_ext("b.tgz"), "application/gzip");
    assert_eq!(mime_from_ext("b.otf"), "font/ttf");
    assert_eq!(mime_from_ext("b.PNG"), "application/octet-stream");
    assert_eq!(mime_from_ext("png"), "application/octet-stream");
}

#[test]
fn ranges_are_read() {
    assert_eq!(parse_range("45-89"), Some((45, 89)));
    assert_eq!(parse_range(" 3 - 3 "), Some((3, 3)));
    assert_eq!(parse_range("0-3"), None);
    assert_eq!(parse_range("4-3"), None);
    assert_eq!(parse_range("4"), None);
    assert_eq!(parse_range("a-b"), None);
}

#[test]
fn sections_of_files() {
    let buf = b"fn a() {\n}\nfn b() {\n}\n";
    let whole = read_section(buf, "x.rs", "2-3").unwrap();
    assert_eq!(&buf[whole.start_byte..whole.end_byte], b"}\nfn b() {\n");
    assert_eq!(resolve_symbol(buf, "x.rs", "b"), Some((3, 4)));
    assert_eq!(resolve_symbol(buf, "x.txt", "b"), None);
    let by_name = read_section(buf, "x.rs", "b").unwrap();
    assert_eq!(&buf[by_name.start_byte..by_name.end_byte], b"fn b() {\n}\n");
    let reason = |range: &str, path: &str, b: &[u8]| section_error_reason(&read_section(b, path, range).unwrap_err());
    assert_eq!(
        reason("nothing", "x.rs", buf),
        "not a valid line range (e.g. \"45-89\"), heading (e.g. \"## Foo\"), or symbol name in this file"
    );
    assert_eq!(reason("9-10", "x.rs", buf), "range out of bounds (file has 5 lines)");
    assert_eq!(reason("# Z", "x.rs", buf), "heading not found in file");
    let md = b"# Alpha\ntext\n## Beta {#b}\n```\n# Gamma\n```\n";
    assert_eq!(
        reason("## Bet", "x.md", md),
        "heading not found in file. Closest matches:\n  ## Beta {#b}\n  # Alpha"
    );
    assert_eq!(resolve_heading(md, "## Beta"), Some((3, 6)));
    assert_eq!(suggest_headings(md, "## beta", 1), vec!["## Beta {#b}"]);
    assert_eq!(suggest_headings(md, "##", 5), Vec::<String>::new());
}

#[test]
fn imports_are_gathered() {
    let imports: Vec<String> = [
        "use std::fs;",
        "use std::io;",
        "import { a } from 'react';",
        "import b from 'react';",
    ]
    .iter()
    .map(|s| s.to_string())
    .collect();
    let line = format_imports(&imports, 3);
    assert!(line.starts_with("[3-]   imports: "));
    assert!(line.contains("react(2)"));
    let many: Vec<String> = (0..7).map(|i| format!("import a from 'm{i}';")).collect();
    let line = format_imports(&many, 1);
    assert!(line.ends_with(", ... (7 total)"));
    assert!(!line.contains("m5"));
}

#[test]
fn entries_are_shown_on_lines() {
    let mut e = entry(OutlineKind::Function, "run", 3, 9, vec![]);
    assert_eq!(format_entry(&e, 0, Lang::Rust), "[3-9]        fn run");
    assert_eq!(format_entry(&e, 1, Lang::Scala), "  [3-9]        def run");
    assert_eq!(format_entry(&e, 0, Lang::Kotlin), "[3-9]        fun run");
    e.end_line = 3;
    e.signature = Some("fn run()".to_string());
    e.doc = Some("x".repeat(61));
    assert_eq!(
        format_entry(&e, 1, Lang::Rust),
        format!("  [3]          fn run\n             fn run()  // {}...", "x".repeat(57))
    );
    e.doc = Some("x".repeat(60));
    assert!(format_entry(&e, 0, Lang::Rust).ends_with(&"x".repeat(60)));
}

#[test]
fn outlines_are_bounded() {
    let inner = entry(OutlineKind::Class, "C", 2, 5, vec![entry(OutlineKind::Function, "m", 3, 4, vec![])]);
    let entries = vec![
        entry(OutlineKind::Import, "use a::b;", 1, 1, vec![]),
        entry(OutlineKind::Module, "M", 2, 6, vec![inner]),
        entry(OutlineKind::Function, "last", 7, 8, vec![]),
    ];
    let all = format_entries(&entries, 100, Lang::Rust);
    let lines: Vec<&str> = all.lines().collect();
    assert_eq!(lines.len(), 5);
    assert!(lines[0].starts_with("[1-]   imports: "));
    assert_eq!(lines[1], "[2-6]        mod M");
    assert_eq!(lines[2], "  [2-5]        class C");
    assert_eq!(lines[3], "    [3-4]        fn m");
    assert_eq!(lines[4], "[7-8]        fn last");
    // One entry may be shown beyond the bound.
    assert_eq!(format_entries(&entries, 1, Lang::Rust).lines().count(), 2);
    assert_eq!(format_entries(&entries, 0, Lang::Rust), "");
    assert_eq!(outline("fn a() {}\n", Lang::Rust, 10).as_deref().map(|s| s.contains("fn a")), Some(true));
    assert_eq!(outline("FROM x", Lang::Dockerfile, 10), None);
}

#[test]
fn outlines_are_kept_until_the_file_changes() {
    let mut cache = OutlineCache::new();
    let first = cache.get_or_compute("src/a.rs", 1, || "one".to_string());
    assert_eq!(first, "one");
    assert_eq!(cache.get_or_compute("src/./a.rs", 1, || "two".to_string()), "one");
    assert_eq!(cache.get_or_compute("src/a.rs", 2, || "two".to_string()), "two");
    assert_eq!(cache.get_or_compute("src/b.rs", 1, || "three".to_string()), "three");
}

#[test]
fn trees_are_kept_until_the_file_changes() {
    let mut cache = OutlineCache::default();
    let rust = outline_language(Lang::Rust).unwrap();
    let tree = cache.get_or_parse("a.rs", 1, "fn a() {}", &rust).unwrap();
    assert_eq!(tree.root_node().child_count(), 1);
    // The content is looked at only where nothing is known.
    let again = cache.get_or_parse("a.rs", 1, "fn a() {}\nfn b() {}", &rust).unwrap();
    assert_eq!(again.root_node().child_count(), 1);
    let later = cache.get_or_parse("a.rs", 2, "fn a() {}\nfn b() {}", &rust).unwrap();
    assert_eq!(later.root_node().child_count(), 2);
}

#[test]
fn many_trees_are_kept_for_a_while() {
    let mut cache = OutlineCache::new();
    let rust = outline_language(Lang::Rust).unwrap();
    for i in 0..2001u64 {
        assert!(cache.get_or_parse("a.rs", i, "fn a() {}", &rust).is_some());
    }
    // The first was dropped with the others, so the new content is parsed.
    let first = cache.get_or_parse("a.rs", 0, "fn a() {}\nfn b() {}", &rust).unwrap();
    assert_eq!(first.root_node().child_count(), 2);
    let last = cache.get_or_parse("a.rs", 2000, "fn a() {}\nfn b() {}", &rust).unwrap();
    assert_eq!(last.root_node().child_count(), 1);
}
