use tilth::diff::{resolve_source, DiffSource};

#[test]
fn test_resolve_source_variants() {
    // Default → uncommitted.
    assert!(matches!(
        resolve_source(None, None, None, None, None).unwrap(),
        DiffSource::GitUncommitted
    ));

    // Staged.
    assert!(matches!(
        resolve_source(Some("staged"), None, None, None, None).unwrap(),
        DiffSource::GitStaged
    ));

    // Working.
    assert!(matches!(
        resolve_source(Some("working"), None, None, None, None).unwrap(),
        DiffSource::GitUncommitted
    ));

    // Ref.
    match resolve_source(Some("HEAD~3..HEAD"), None, None, None, None).unwrap() {
        DiffSource::GitRef(r) => assert_eq!(r, "HEAD~3..HEAD"),
        other => panic!("expected GitRef, got {other:?}"),
    }

    // Files.
    match resolve_source(None, Some("a.rs"), Some("b.rs"), None, None).unwrap() {
        DiffSource::Files(a, b) => {
            assert_eq!(a, "a.rs");
            assert_eq!(b, "b.rs");
        }
        other => panic!("expected Files, got {other:?}"),
    }

    // Error: only one of a/b.
    assert!(resolve_source(None, Some("a.rs"), None, None, None).is_err());

    // Patch.
    match resolve_source(None, None, None, Some("test.patch"), None).unwrap() {
        DiffSource::Patch(p) => assert_eq!(p, "test.patch"),
        other => panic!("expected Patch, got {other:?}"),
    }

    // Log.
    match resolve_source(None, None, None, None, Some("HEAD~5..HEAD")).unwrap() {
        DiffSource::Log(r) => assert_eq!(r, "HEAD~5..HEAD"),
        other => panic!("expected Log, got {other:?}"),
    }

    // Patch takes priority over source.
    assert!(matches!(
        resolve_source(Some("staged"), None, None, Some("x.patch"), None).unwrap(),
        DiffSource::Patch(_)
    ));
}
