use std::collections::HashSet;

use tilth::cli::walk_bounds;
use tilth::json::{get, JsonValue};
use tilth::search::bfs::{Bfs, BfsEdge, BfsStats};
use tilth::search::bfs_format::{format_bfs, format_bfs_json};
use tilth::search::callers::{call_of, find_callers, find_callers_batch, CallerMatch};
use tilth::search::callers_format::{impact_names, search_callers_expanded};

/// A small project: `main` calls `run`, which calls `find_callers_batch` by way of
/// `search` and on its own.
fn project() -> Vec<(String, String)> {
    vec![
        (
            "src/main.rs".to_string(),
            "fn main() {\n    run();\n}\n".to_string(),
        ),
        (
            "src/run.rs".to_string(),
            "pub fn run() {\n    search();\n    find_callers_batch();\n}\n".to_string(),
        ),
        (
            "src/search.rs".to_string(),
            "pub fn search() {\n    find_callers_batch();\n}\n\npub fn again() {\n    search();\n}\n"
                .to_string(),
        ),
        (
            "src/callers.rs".to_string(),
            "pub fn find_callers_batch() {\n    walk();\n}\n\nfn walk() {}\n".to_string(),
        ),
    ]
}

fn batch(files: &[(String, String)], targets: &[String]) -> Vec<(String, CallerMatch)> {
    let mut all = Vec::new();
    for (path, content) in files {
        all.extend(find_callers_batch(
            path,
            targets,
            content.len() as u64,
            content.as_bytes(),
        ));
    }
    all
}

fn walk(files: &[(String, String)], target: &str, depth: usize) -> (Vec<BfsEdge>, BfsStats) {
    let bounds = walk_bounds(Some(depth), None, Some(20_000)).unwrap();
    let mut bfs = Bfs::new(target, bounds.depth, bounds.frontier, bounds.edges, None);
    while let Some(frontier) = bfs.next_frontier() {
        let calls = batch(files, &frontier).iter().map(call_of).collect();
        bfs.absorb(calls);
    }
    bfs.finish(7)
}

fn list(files: &[(String, String)], target: &str) -> String {
    let mut callers = Vec::new();
    for (path, content) in files {
        callers.extend(find_callers(
            path,
            target,
            content.len() as u64,
            content.as_bytes(),
        ));
    }
    let hop = impact_names(&callers).map(|names| batch(files, &names));
    search_callers_expanded(target, "src", callers, hop, 0, None, None, 0)
}

fn run_callers(files: &[(String, String)], target: &str, depth: Option<usize>) -> String {
    match walk_bounds(depth, None, Some(20_000)) {
        None => list(files, target),
        Some(bounds) => {
            let (edges, stats) = walk(files, target, bounds.depth);
            format_bfs(target, "src", &edges, &stats, bounds.depth)
        }
    }
}

type Key = (usize, String, String, u32, String);

fn keys(edges: &[BfsEdge]) -> Vec<Key> {
    edges
        .iter()
        .map(|e| {
            (
                e.hop,
                e.from.clone(),
                e.from_file.clone(),
                e.from_line,
                e.to.clone(),
            )
        })
        .collect()
}

#[test]
fn legacy_equals_depth_1() {
    let files = project();
    let legacy = run_callers(&files, "find_callers_batch", None);
    let depth_1 = run_callers(&files, "find_callers_batch", Some(1));
    assert_eq!(legacy, depth_1);
    assert!(legacy.contains("run"));
    assert!(legacy.contains("search"));
}

#[test]
fn bfs_deterministic_across_runs() {
    let files = project();
    let out1 = run_callers(&files, "find_callers_batch", Some(3));
    let out2 = run_callers(&files, "find_callers_batch", Some(3));
    assert_eq!(out1, out2);
    // The order in which the files are met makes no difference.
    let mut reversed = project();
    reversed.reverse();
    assert_eq!(out1, run_callers(&reversed, "find_callers_batch", Some(3)));
}

#[test]
fn deeper_bfs_superset_of_shallower() {
    let files = project();
    let (e2, _) = walk(&files, "find_callers_batch", 2);
    let (e3, _) = walk(&files, "find_callers_batch", 3);
    let hop1_from_d2: HashSet<Key> = keys(&e2).into_iter().filter(|e| e.0 == 1).collect();
    let hop1_from_d3: HashSet<Key> = keys(&e3).into_iter().filter(|e| e.0 == 1).collect();
    assert_eq!(hop1_from_d2, hop1_from_d3);
    let all_from_d2: HashSet<Key> = keys(&e2).into_iter().collect();
    let all_from_d3: HashSet<Key> = keys(&e3).into_iter().collect();
    assert!(all_from_d2.is_subset(&all_from_d3));
}

#[test]
fn walk_finds_each_call_at_its_hop() {
    let (edges, stats) = walk(&project(), "find_callers_batch", 5);
    let found: Vec<(usize, &str, &str)> = edges
        .iter()
        .map(|e| (e.hop, e.from.as_str(), e.to.as_str()))
        .collect();
    assert_eq!(
        found,
        vec![
            (1, "run", "find_callers_batch"),
            (1, "search", "find_callers_batch"),
            (2, "main", "run"),
            (2, "run", "search"),
            (2, "again", "search"),
        ]
    );
    assert_eq!(stats.edges_total, 5);
    // `main` and `again` are called by nobody.
    assert_eq!(stats.unresolved_symbols, 2);
    assert_eq!(stats.elapsed_ms, 7);
}

#[test]
fn auto_hub_promotes_new_on_self() {
    let mut files = vec![(
        "src/session.rs".to_string(),
        "pub fn new() {\n    Session(1);\n}\n".to_string(),
    )];
    for i in 0..210 {
        files.push((
            format!("src/user{i}.rs"),
            format!("pub fn user{i}() {{\n    new();\n}}\n"),
        ));
    }
    let (_, stats) = walk(&files, "Session", 4);
    let new_entry = stats
        .auto_hubs_promoted
        .iter()
        .find(|(name, _)| name == "new");
    assert_eq!(new_entry, Some(&("new".to_string(), 210)));
}

#[test]
fn json_schema_top_level_keys() {
    let files = project();
    let (edges, stats) = walk(&files, "find_callers_batch", 2);
    let v = format_bfs_json("find_callers_batch", "src", &edges, &stats, 2);
    for key in [
        "root",
        "scope",
        "depth_reached",
        "max_depth",
        "edges_total",
        "elapsed_ms",
        "edges",
        "stats",
        "elided",
        "disclaimer",
    ] {
        assert!(get(&v, key).is_some(), "missing `{key}`");
    }
    let stats = get(&v, "stats").unwrap();
    for key in ["per_hop", "top_level_terminal", "unresolved_symbols"] {
        assert!(get(stats, key).is_some(), "missing stats.{key}");
    }
    let elided = get(&v, "elided").unwrap();
    for key in [
        "edges_cut_at_hop",
        "frontier_cuts",
        "hubs_skipped",
        "auto_hubs_promoted",
        "auto_hub_threshold",
    ] {
        assert!(get(elided, key).is_some(), "missing elided.{key}");
    }
    match get(&v, "edges").unwrap() {
        JsonValue::List(l) => assert_eq!(l.len(), 5),
        other => panic!("expected a list, got {other:?}"),
    }
}

#[test]
fn edges_are_cut_at_the_bound() {
    let files = project();
    let mut bfs = Bfs::new("find_callers_batch", 5, 50, 1, None);
    while let Some(frontier) = bfs.next_frontier() {
        let calls = batch(&files, &frontier).iter().map(call_of).collect();
        bfs.absorb(calls);
    }
    let (edges, stats) = bfs.finish(0);
    assert_eq!(edges.len(), 1);
    assert_eq!(stats.edges_cut_at_hop, Some(1));
}

#[test]
fn hubs_by_choice_are_not_followed() {
    let files = project();
    let mut bfs = Bfs::new("find_callers_batch", 5, 50, 500, Some("run, ,search"));
    while let Some(frontier) = bfs.next_frontier() {
        let calls = batch(&files, &frontier).iter().map(call_of).collect();
        bfs.absorb(calls);
    }
    let (edges, stats) = bfs.finish(0);
    assert_eq!(edges.len(), 2);
    let mut skipped = stats.hubs_skipped;
    skipped.sort();
    assert_eq!(skipped, vec!["run".to_string(), "search".to_string()]);
}

fn bounded(files: &[(String, String)], target: &str, frontier: usize, edges: usize) -> (Vec<BfsEdge>, BfsStats) {
    let mut bfs = Bfs::new(target, 5, frontier, edges, None);
    while let Some(f) = bfs.next_frontier() {
        let calls = batch(files, &f).iter().map(call_of).collect();
        bfs.absorb(calls);
    }
    bfs.finish(0)
}

#[test]
fn no_more_edges_than_the_bound() {
    for bound in 0..4 {
        let (edges, stats) = bounded(&project(), "find_callers_batch", 50, bound);
        assert_eq!(edges.len(), bound);
        assert_eq!(stats.edges_total, bound);
    }
    let (_, stats) = bounded(&project(), "find_callers_batch", 50, 0);
    assert_eq!(stats.edges_cut_at_hop, Some(1));
    assert_eq!(stats.per_hop[0].edges, 0);
}

#[test]
fn what_is_cut_off_the_frontier_becomes_a_hub() {
    let files: Vec<(String, String)> = ["c", "a", "b"]
        .iter()
        .map(|n| (format!("src/{n}.rs"), format!("fn {n}() {{\n    root();\n}}\n")))
        .collect();
    let (_, stats) = bounded(&files, "root", 1, 500);
    assert_eq!(stats.frontier_cut_hops, vec![(2, 3)]);
    assert_eq!(
        stats.auto_hubs_promoted,
        vec![("b".to_string(), 0), ("c".to_string(), 0)]
    );
    assert_eq!(stats.per_hop[1].frontier_size, 1);
}

#[test]
fn calls_on_one_line_keep_their_order() {
    let files = vec![
        ("src/b.rs".to_string(), "fn f() {\n    root(1); root(2);\n}\n".to_string()),
        ("src/a.rs".to_string(), "fn g() {\n    root(3); root(4);\n}\n".to_string()),
    ];
    let mut reversed = files.clone();
    reversed.reverse();
    let out = run_callers(&files, "root", Some(2));
    assert_eq!(out, run_callers(&reversed, "root", Some(2)));
    assert!(out.contains("root(1); root(2);"));
}

#[test]
fn edges_carry_the_first_line_of_the_call() {
    let files = vec![(
        "src/a.rs".to_string(),
        "fn main() {\n    foo(\n    1)\n}\n".to_string(),
    )];
    let (edges, _) = bounded(&files, "foo", 50, 500);
    assert_eq!(edges.len(), 1);
    assert_eq!((edges[0].from.as_str(), edges[0].to.as_str()), ("main", "foo"));
    assert_eq!(edges[0].from_line, 2);
    assert_eq!(edges[0].call_text, "foo(");
}

#[test]
fn edges_of_a_hop_at_every_depth() {
    let deep = walk(&project(), "find_callers_batch", 5).0;
    for depth in 2..5 {
        let shallow = walk(&project(), "find_callers_batch", depth).0;
        for hop in 1..=depth {
            let a: Vec<Key> = keys(&deep).into_iter().filter(|e| e.0 == hop).collect();
            let b: Vec<Key> = keys(&shallow).into_iter().filter(|e| e.0 == hop).collect();
            assert_eq!(a, b);
        }
    }
}
