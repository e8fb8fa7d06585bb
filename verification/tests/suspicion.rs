use tilth::search::bfs::BfsEdge;
use tilth::search::suspicion::compute_suspicious_hops;


fn edge(hop: usize, file: &str, line: u32, to: &str) -> BfsEdge {
    BfsEdge {
        hop,
        from: "f".into(),
        from_file: file.to_string(),
        from_line: line,
        to: to.into(),
        call_text: String::new(),
    }
}

#[test]
fn callers_ignores_small_hops() {
    // 10 edges, all in distant dirs — below the least number that counts.
    let mut edges = vec![edge(1, "a/root.rs", 1, "x")];
    for i in 0..10 {
        edges.push(edge(2, &format!("z/far{i}.rs"), i, "y"));
    }
    assert!(compute_suspicious_hops(&edges).is_empty());
}

#[test]
fn callers_flags_cross_package_collision() {
    // hop 1 rooted in pkg/a, hop 2 has 60 matches in unrelated dirs.
    let mut edges = vec![edge(1, "pkg/a/root.go", 1, "New")];
    for i in 0..60 {
        edges.push(edge(2, &format!("vendor/errors/err{i}.go"), i, "New"));
    }
    let sus = compute_suspicious_hops(&edges);
    assert_eq!(sus.len(), 1);
    assert_eq!(sus[0].hop, 2);
    assert_eq!(sus[0].total_edges, 60);
    assert_eq!(sus[0].related_edges, 0);
}

#[test]
fn callers_no_flag_when_related_majority() {
    // hop 2 matches all live in same dir as hop 1 callers.
    let mut edges = vec![edge(1, "pkg/a/root.go", 1, "X")];
    for i in 0..60 {
        edges.push(edge(2, &format!("pkg/a/file{i}.go"), i, "Y"));
    }
    assert!(compute_suspicious_hops(&edges).is_empty());
}

#[test]
fn callers_threshold_boundary() {
    // 50 edges, 10 related = 20% = exactly at cutoff (1/5). Should NOT flag.
    let mut edges = vec![edge(1, "pkg/a/root.go", 1, "X")];
    for i in 0..10 {
        edges.push(edge(2, &format!("pkg/a/rel{i}.go"), i, "Y"));
    }
    for i in 0..40 {
        edges.push(edge(2, &format!("far/dir/far{i}.go"), i, "Y"));
    }
    // 10/50 = 0.2, 10*5 = 50 = 50*1 → not strictly less → no flag.
    assert!(compute_suspicious_hops(&edges).is_empty());
    // 9/50 → flag.
    let mut edges = vec![edge(1, "pkg/a/root.go", 1, "X")];
    for i in 0..9 {
        edges.push(edge(2, &format!("pkg/a/rel{i}.go"), i, "Y"));
    }
    for i in 0..41 {
        edges.push(edge(2, &format!("far/dir/far{i}.go"), i, "Y"));
    }
    assert_eq!(compute_suspicious_hops(&edges).len(), 1);
}

#[test]
fn callers_never_flags_hop_1() {
    let mut edges = Vec::new();
    for i in 0..100 {
        edges.push(edge(1, &format!("any/dir{i}/f.go"), i, "X"));
    }
    assert!(compute_suspicious_hops(&edges).is_empty());
}

#[test]
fn bfs_ignores_small_hops() {
    // 10 edges, all in distant dirs — below the least number that counts.
    let mut edges = vec![edge(1, "a/root.rs", 1, "x")];
    for i in 0..10 {
        edges.push(edge(2, &format!("z/far{i}.rs"), i, "y"));
    }
    assert!(compute_suspicious_hops(&edges).is_empty());
}

#[test]
fn bfs_flags_cross_package_collision() {
    // hop 1 rooted in pkg/a, hop 2 has 60 matches in unrelated dirs.
    let mut edges = vec![edge(1, "pkg/a/root.go", 1, "New")];
    for i in 0..60 {
        edges.push(edge(2, &format!("vendor/errors/err{i}.go"), i, "New"));
    }
    let sus = compute_suspicious_hops(&edges);
    assert_eq!(sus.len(), 1);
    assert_eq!(sus[0].hop, 2);
    assert_eq!(sus[0].total_edges, 60);
    assert_eq!(sus[0].related_edges, 0);
}

#[test]
fn bfs_no_flag_when_related_majority() {
    // hop 2 matches all live in same dir as hop 1 callers.
    let mut edges = vec![edge(1, "pkg/a/root.go", 1, "X")];
    for i in 0..60 {
        edges.push(edge(2, &format!("pkg/a/file{i}.go"), i, "Y"));
    }
    assert!(compute_suspicious_hops(&edges).is_empty());
}

#[test]
fn bfs_threshold_boundary() {
    // 50 edges, 10 related = 20% = exactly at cutoff (1/5). Should NOT flag.
    let mut edges = vec![edge(1, "pkg/a/root.go", 1, "X")];
    for i in 0..10 {
        edges.push(edge(2, &format!("pkg/a/rel{i}.go"), i, "Y"));
    }
    for i in 0..40 {
        edges.push(edge(2, &format!("far/dir/far{i}.go"), i, "Y"));
    }
    // 10/50 = 0.2, 10*5 = 50 = 50*1 → not strictly less → no flag.
    assert!(compute_suspicious_hops(&edges).is_empty());
    // 9/50 → flag.
    let mut edges = vec![edge(1, "pkg/a/root.go", 1, "X")];
    for i in 0..9 {
        edges.push(edge(2, &format!("pkg/a/rel{i}.go"), i, "Y"));
    }
    for i in 0..41 {
        edges.push(edge(2, &format!("far/dir/far{i}.go"), i, "Y"));
    }
    assert_eq!(compute_suspicious_hops(&edges).len(), 1);
}

#[test]
fn bfs_never_flags_hop_1() {
    let mut edges = Vec::new();
    for i in 0..100 {
        edges.push(edge(1, &format!("any/dir{i}/f.go"), i, "X"));
    }
    assert!(compute_suspicious_hops(&edges).is_empty());
}

#[test]
fn suspicion_does_not_depend_on_order() {
    let mut edges = vec![edge(1, "pkg/a/root.go", 1, "New")];
    for i in 0..5 {
        edges.push(edge(2, &format!("pkg/a/near{i}.go"), i, "New"));
    }
    for i in 0..60 {
        edges.push(edge(2, &format!("vendor/errors/err{i}.go"), i, "New"));
    }
    edges.reverse();
    let sus = compute_suspicious_hops(&edges);
    assert_eq!(sus.len(), 1);
    assert_eq!((sus[0].hop, sus[0].total_edges, sus[0].related_edges), (2, 65, 5));
}
