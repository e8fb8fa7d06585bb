use tilth::diff::parse::parse_unified_diff;
use tilth::diff::{DiffLineKind, FileStatus};

// ── 1. Basic modified file ────────────────────────────────────────────────
#[test]
fn test_basic_modified_file() {
    let raw = "\
diff --git a/src/main.rs b/src/main.rs
index abc..def 100644
--- a/src/main.rs
+++ b/src/main.rs
@@ -1,3 +1,4 @@
 fn main() {
-    println!(\"hello\");
+    println!(\"world\");
+    println!(\"extra\");
 }
";
    let diffs = parse_unified_diff(raw);
    assert_eq!(diffs.len(), 1);
    let f = &diffs[0];
    assert_eq!(f.path, "src/main.rs".to_string());
    assert_eq!(f.status, FileStatus::Modified);
    assert_eq!(f.hunks.len(), 1);
    let h = &f.hunks[0];
    assert_eq!(h.old_start, 1);
    assert_eq!(h.old_count, 3);
    assert_eq!(h.new_start, 1);
    assert_eq!(h.new_count, 4);
    assert_eq!(h.lines[0].kind, DiffLineKind::Context);
    assert_eq!(h.lines[1].kind, DiffLineKind::Removed);
    assert_eq!(h.lines[2].kind, DiffLineKind::Added);
    assert_eq!(h.lines[3].kind, DiffLineKind::Added);
    assert_eq!(h.lines[4].kind, DiffLineKind::Context);
}

// ── 2. Added file ─────────────────────────────────────────────────────────
#[test]
fn test_added_file() {
    let raw = "\
diff --git a/new.rs b/new.rs
new file mode 100644
--- /dev/null
+++ b/new.rs
@@ -0,0 +1,2 @@
+fn new() {}
+fn other() {}
";
    let diffs = parse_unified_diff(raw);
    assert_eq!(diffs.len(), 1);
    let f = &diffs[0];
    assert_eq!(f.status, FileStatus::Added);
    assert!(f.hunks[0]
        .lines
        .iter()
        .all(|l| l.kind == DiffLineKind::Added));
}

// ── 3. Deleted file ───────────────────────────────────────────────────────
#[test]
fn test_deleted_file() {
    let raw = "\
diff --git a/old.rs b/old.rs
deleted file mode 100644
--- a/old.rs
+++ /dev/null
@@ -1,2 +0,0 @@
-fn gone() {}
-fn also_gone() {}
";
    let diffs = parse_unified_diff(raw);
    assert_eq!(diffs.len(), 1);
    let f = &diffs[0];
    assert_eq!(f.status, FileStatus::Deleted);
    assert!(f.hunks[0]
        .lines
        .iter()
        .all(|l| l.kind == DiffLineKind::Removed));
}

// ── 4. Renamed file ───────────────────────────────────────────────────────
#[test]
fn test_renamed_file() {
    let raw = "\
diff --git a/old_name.rs b/new_name.rs
similarity index 95%
rename from old_name.rs
rename to new_name.rs
--- a/old_name.rs
+++ b/new_name.rs
@@ -1 +1 @@
-fn old() {}
+fn new() {}
";
    let diffs = parse_unified_diff(raw);
    assert_eq!(diffs.len(), 1);
    let f = &diffs[0];
    assert_eq!(f.status, FileStatus::Renamed);
    assert_eq!(f.old_path, Some("old_name.rs".to_string()));
    assert_eq!(f.path, "new_name.rs".to_string());
}

// ── 5. Binary file ────────────────────────────────────────────────────────
#[test]
fn test_binary_file() {
    let raw = "\
diff --git a/image.png b/image.png
index abc..def 100644
Binary files a/image.png and b/image.png differ
";
    let diffs = parse_unified_diff(raw);
    assert_eq!(diffs.len(), 1);
    let f = &diffs[0];
    assert!(f.is_binary);
    assert!(f.hunks.is_empty());
}

// ── 6. Multi-file diff ────────────────────────────────────────────────────
#[test]
fn test_multi_file_diff() {
    let raw = "\
diff --git a/a.rs b/a.rs
--- a/a.rs
+++ b/a.rs
@@ -1 +1 @@
-old a
+new a
diff --git a/b.rs b/b.rs
--- a/b.rs
+++ b/b.rs
@@ -1 +1 @@
-old b
+new b
diff --git a/c.rs b/c.rs
--- a/c.rs
+++ b/c.rs
@@ -1 +1 @@
-old c
+new c
";
    let diffs = parse_unified_diff(raw);
    assert_eq!(diffs.len(), 3);
    let paths: Vec<_> = diffs.iter().map(|d| d.path.as_str()).collect();
    assert!(paths.contains(&"a.rs"));
    assert!(paths.contains(&"b.rs"));
    assert!(paths.contains(&"c.rs"));
}

// ── 7. Multiple hunks ─────────────────────────────────────────────────────
#[test]
fn test_multiple_hunks() {
    let raw = "\
diff --git a/foo.rs b/foo.rs
--- a/foo.rs
+++ b/foo.rs
@@ -1,3 +1,3 @@
 ctx
-old1
+new1
 ctx
@@ -10,3 +10,3 @@
 ctx
-old2
+new2
 ctx
";
    let diffs = parse_unified_diff(raw);
    assert_eq!(diffs.len(), 1);
    let f = &diffs[0];
    assert_eq!(f.hunks.len(), 2);
    assert_eq!(f.hunks[0].old_start, 1);
    assert_eq!(f.hunks[0].old_count, 3);
    assert_eq!(f.hunks[1].old_start, 10);
    assert_eq!(f.hunks[1].old_count, 3);
}

// ── 8. Empty input ────────────────────────────────────────────────────────
#[test]
fn test_empty_input() {
    let diffs = parse_unified_diff("");
    assert!(diffs.is_empty());
}

// ── 9. Omitted hunk count defaults to 1 ──────────────────────────────────
#[test]
fn test_hunk_omitted_count() {
    // `@@ -5 +5 @@` — no comma → count defaults to 1
    let raw = "\
diff --git a/x.rs b/x.rs
--- a/x.rs
+++ b/x.rs
@@ -5 +5 @@
-removed
+added
";
    let diffs = parse_unified_diff(raw);
    assert_eq!(diffs.len(), 1);
    let h = &diffs[0].hunks[0];
    assert_eq!(h.old_start, 5);
    assert_eq!(h.old_count, 1);
    assert_eq!(h.new_start, 5);
    assert_eq!(h.new_count, 1);
}

// ── 10. No-newline marker skipped ─────────────────────────────────────────
#[test]
fn test_no_newline_marker_skipped() {
    let raw = "\
diff --git a/y.rs b/y.rs
--- a/y.rs
+++ b/y.rs
@@ -1,2 +1,2 @@
-old
\\ No newline at end of file
+new
\\ No newline at end of file
";
    let diffs = parse_unified_diff(raw);
    assert_eq!(diffs.len(), 1);
    let lines = &diffs[0].hunks[0].lines;
    // Only the actual diff lines, no backslash marker.
    assert_eq!(lines.len(), 2);
    assert_eq!(lines[0].kind, DiffLineKind::Removed);
    assert_eq!(lines[1].kind, DiffLineKind::Added);
    assert!(lines.iter().all(|l| !l.content.starts_with('\\')));
}

// ── 11. Generated file ────────────────────────────────────────────────────
#[test]
fn parse_test_generated_file() {
    let raw = "\
diff --git a/package-lock.json b/package-lock.json
--- a/package-lock.json
+++ b/package-lock.json
@@ -1 +1 @@
-{}
+{ \"version\": 2 }
";
    let diffs = parse_unified_diff(raw);
    assert_eq!(diffs.len(), 1);
    assert!(diffs[0].is_generated);
}

// ── 12. Context lines ─────────────────────────────────────────────────────
#[test]
fn test_context_lines() {
    let raw = "\
diff --git a/ctx.rs b/ctx.rs
--- a/ctx.rs
+++ b/ctx.rs
@@ -1,3 +1,3 @@
 before
-old
+new
 after
";
    let diffs = parse_unified_diff(raw);
    assert_eq!(diffs.len(), 1);
    let lines = &diffs[0].hunks[0].lines;
    assert_eq!(lines[0].kind, DiffLineKind::Context);
    assert_eq!(lines[0].content, "before");
    assert_eq!(lines[3].kind, DiffLineKind::Context);
    assert_eq!(lines[3].content, "after");
}

// ── 13. Hunk trailing context text ignored ────────────────────────────────
#[test]
fn test_hunk_trailing_context() {
    let raw = "\
diff --git a/lib.rs b/lib.rs
--- a/lib.rs
+++ b/lib.rs
@@ -10,3 +10,3 @@ fn my_function() {
 ctx
-old
+new
 ctx
";
    let diffs = parse_unified_diff(raw);
    assert_eq!(diffs.len(), 1);
    let h = &diffs[0].hunks[0];
    // Ranges parsed correctly regardless of trailing `fn my_function() {`
    assert_eq!(h.old_start, 10);
    assert_eq!(h.old_count, 3);
    assert_eq!(h.new_start, 10);
    assert_eq!(h.new_count, 3);
    assert_eq!(h.lines.len(), 4);
}

#[test]
fn content_that_looks_like_a_file_name() {
    let raw = "diff --git a/q.sql b/q.sql\n--- a/q.sql\n+++ b/q.sql\n@@ -1,2 +1 @@\n--- drop me\n select 1;\n";
    let files = parse_unified_diff(raw);
    assert_eq!(files.len(), 1);
    assert!(matches!(files[0].status, FileStatus::Modified));
    let lines: Vec<(bool, &str)> = files[0].hunks[0]
        .lines
        .iter()
        .map(|l| (matches!(l.kind, DiffLineKind::Removed), l.content.as_str()))
        .collect();
    assert_eq!(lines, vec![(true, "-- drop me"), (false, "select 1;")]);
}

#[test]
fn content_does_not_change_the_status() {
    let raw = "diff --git a/x b/x\n--- a/x\n+++ b/x\n@@ -1,2 +1,2 @@\n--- /dev/null\n+++ /dev/null\n c\ndiff --git a/y b/y\n--- /dev/null\n+++ b/y\n@@ -0,0 +1 @@\n+++ i\n";
    let files = parse_unified_diff(raw);
    assert_eq!(files.len(), 2);
    assert!(matches!(files[0].status, FileStatus::Modified));
    let x: Vec<&str> = files[0].hunks[0].lines.iter().map(|l| l.content.as_str()).collect();
    assert_eq!(x, vec!["-- /dev/null", "++ /dev/null", "c"]);
    assert!(matches!(files[1].status, FileStatus::Added));
    let y: Vec<&str> = files[1].hunks[0].lines.iter().map(|l| l.content.as_str()).collect();
    assert_eq!(y, vec!["++ i"]);
}
