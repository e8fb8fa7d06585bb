use tilth::read::section::resolve_heading;

#[test]
fn heading_found() {
    let input = b"# Title\nSome content\n## Section\nSection content\n";
    let result = resolve_heading(input, "## Section");

    assert_eq!(result, Some((3, 4)));
}

#[test]
fn heading_not_found() {
    let input = b"# Title\nContent\n";
    let result = resolve_heading(input, "## Missing");

    assert_eq!(result, None);
}

#[test]
fn heading_in_code_block() {
    let input = b"# Real\n```\n## Fake\n```\n";
    let result = resolve_heading(input, "## Fake");

    // Heading inside code block should be skipped
    assert_eq!(result, None);
}

#[test]
fn duplicate_headings() {
    let input = b"## First\ntext\n## First\ntext\n";
    let result = resolve_heading(input, "## First");

    // Should return the first occurrence
    assert_eq!(result, Some((1, 2)));
}

#[test]
fn last_heading_to_eof() {
    let input = b"# Start\ntext\n## End\nfinal line\n";
    let result = resolve_heading(input, "## End");

    // Last heading should extend to total_lines (4)
    assert_eq!(result, Some((3, 4)));
}

#[test]
fn nested_sections() {
    let input = b"## A\ncontent\n### B\nmore\n## C\ntext\n";
    let result = resolve_heading(input, "## A");

    // ## A should include ### B, ending when ## C starts (line 5)
    // So range is [1, 4]
    assert_eq!(result, Some((1, 4)));
}

#[test]
fn no_hashes() {
    let input = b"# Heading\ntext\n";

    // Empty string
    assert_eq!(resolve_heading(input, ""), None);

    // String without hashes
    assert_eq!(resolve_heading(input, "hello"), None);
}
