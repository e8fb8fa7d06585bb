//! Walking the call graph backwards, hop by hop.
use vstd::prelude::*;
use vstd::string::*;

use crate::groups::{add_to_group, grouped, groups_view, occurrences, Key};
use crate::paths::{equal_paths, path_le, paths_ordered, same_path};
use crate::sort::{lemma_sort_map, sort_by, stable_sort};
use crate::text::{
    chars_of, has_string, lines, lines_of, same_text, split, split_on, string_of, strs, text_le,
    text_ordered, trim, trim_of, views,
};

verus! {

/// What stands for the caller where a call is outside of any function.
pub open spec fn top_level() -> Seq<char> {
    "<top-level>"@
}

/// One call: the function `from` contains a call of `to`.
#[derive(Debug)]
pub struct BfsEdge {
    pub hop: usize,
    pub from: String,
    pub from_file: String,
    pub from_line: u32,
    pub to: String,
    /// The first line of the call.
    pub call_text: String,
}

/// What an edge says.
pub struct EdgeView {
    pub hop: int,
    pub from: Seq<char>,
    pub from_file: Seq<char>,
    pub from_line: u32,
    pub to: Seq<char>,
    pub call_text: Seq<char>,
}

impl View for BfsEdge {
    type V = EdgeView;

    open spec fn view(&self) -> EdgeView {
        EdgeView {
            hop: self.hop as int,
            from: self.from@,
            from_file: self.from_file@,
            from_line: self.from_line,
            to: self.to@,
            call_text: self.call_text@,
        }
    }
}

/// What the edges of a list say.
pub open spec fn edges_view(v: Seq<BfsEdge>) -> Seq<EdgeView> {
    v.map_values(|e: BfsEdge| e@)
}

/// What one hop did.
#[derive(Debug, Clone, Copy)]
pub struct HopStats {
    pub hop: usize,
    pub frontier_size: usize,
    pub edges: usize,
}

/// What a walk did.
#[derive(Debug)]
pub struct BfsStats {
    pub depth_reached: usize,
    pub edges_total: usize,
    /// Each hop whose frontier was cut, with its size before.
    pub frontier_cut_hops: Vec<(usize, usize)>,
    pub edges_cut_at_hop: Option<usize>,
    pub top_level_terminal: usize,
    /// Symbols of a frontier without callers.
    pub unresolved_symbols: usize,
    pub hubs_skipped: Vec<String>,
    pub auto_hubs_skipped: Vec<String>,
    /// Each symbol that became a hub, with the number of its edges: none where it was
    /// cut off the frontier.
    pub auto_hubs_promoted: Vec<(String, usize)>,
    pub per_hop: Vec<HopStats>,
    pub elapsed_ms: u128,
}

/// What the statistics say.
pub struct StatsView {
    pub depth_reached: int,
    pub edges_total: int,
    pub frontier_cut_hops: Seq<(usize, usize)>,
    pub edges_cut_at_hop: Option<usize>,
    pub top_level_terminal: int,
    pub unresolved_symbols: int,
    pub hubs_skipped: Seq<Seq<char>>,
    pub auto_hubs_skipped: Seq<Seq<char>>,
    pub auto_hubs_promoted: Seq<(Seq<char>, int)>,
    pub per_hop: Seq<HopStats>,
    pub elapsed_ms: int,
}

/// What promoted hubs say.
pub open spec fn promoted_view(v: Seq<(String, usize)>) -> Seq<(Seq<char>, int)> {
    v.map_values(|p: (String, usize)| (p.0@, p.1 as int))
}

impl View for BfsStats {
    type V = StatsView;

    open spec fn view(&self) -> StatsView {
        StatsView {
            depth_reached: self.depth_reached as int,
            edges_total: self.edges_total as int,
            frontier_cut_hops: self.frontier_cut_hops@,
            edges_cut_at_hop: self.edges_cut_at_hop,
            top_level_terminal: self.top_level_terminal as int,
            unresolved_symbols: self.unresolved_symbols as int,
            hubs_skipped: strs(self.hubs_skipped@),
            auto_hubs_skipped: strs(self.auto_hubs_skipped@),
            auto_hubs_promoted: promoted_view(self.auto_hubs_promoted@),
            per_hop: self.per_hop@,
            elapsed_ms: self.elapsed_ms as int,
        }
    }
}

/// A call that a hop found: what is called, from where.
#[derive(Debug)]
pub struct Call {
    pub to: String,
    pub path: String,
    pub line: u32,
    pub from: String,
    pub call_text: String,
}

/// What a call says.
pub struct CallView {
    pub to: Seq<char>,
    pub path: Seq<char>,
    pub line: u32,
    pub from: Seq<char>,
    pub call_text: Seq<char>,
}

impl View for Call {
    type V = CallView;

    open spec fn view(&self) -> CallView {
        CallView {
            to: self.to@,
            path: self.path@,
            line: self.line,
            from: self.from@,
            call_text: self.call_text@,
        }
    }
}

/// What the calls of a list say.
pub open spec fn calls_view(v: Seq<Call>) -> Seq<CallView> {
    v.map_values(|c: Call| c@)
}

// ---------------------------------------------------------------------------
// Order
// ---------------------------------------------------------------------------

/// The order of places: by path, line, what is called and from where.
pub open spec fn place_le(
    p1: Seq<char>,
    l1: u32,
    t1: Seq<char>,
    f1: Seq<char>,
    p2: Seq<char>,
    l2: u32,
    t2: Seq<char>,
    f2: Seq<char>,
) -> bool {
    if !same_path(p1, p2) {
        path_le(p1, p2)
    } else if l1 != l2 {
        l1 < l2
    } else if t1 != t2 {
        text_le(t1, t2)
    } else {
        text_le(f1, f2)
    }
}

/// The order of calls.
pub open spec fn call_order() -> spec_fn(CallView, CallView) -> bool {
    |a: CallView, b: CallView|
        place_le(a.path, a.line, a.to, a.from, b.path, b.line, b.to, b.from)
}

/// The order of edges: by hop, then by place.
pub open spec fn edge_order() -> spec_fn(EdgeView, EdgeView) -> bool {
    |a: EdgeView, b: EdgeView|
        if a.hop != b.hop {
            a.hop < b.hop
        } else {
            place_le(
                a.from_file,
                a.from_line,
                a.to,
                a.from,
                b.from_file,
                b.from_line,
                b.to,
                b.from,
            )
        }
}

/// The order of names.
pub open spec fn name_order() -> spec_fn(Seq<char>, Seq<char>) -> bool {
    |a: Seq<char>, b: Seq<char>| text_le(a, b)
}

fn places_ordered(
    p1: &str,
    l1: u32,
    t1: &str,
    f1: &str,
    p2: &str,
    l2: u32,
    t2: &str,
    f2: &str,
) -> (r: bool)
    ensures
        r == place_le(p1@, l1, t1@, f1@, p2@, l2, t2@, f2@),
{
    if !equal_paths(p1, p2) {
        paths_ordered(p1, p2)
    } else if l1 != l2 {
        l1 < l2
    } else if !same_text(t1, t2) {
        text_ordered(t1, t2)
    } else {
        text_ordered(f1, f2)
    }
}

spec fn call_le() -> spec_fn(Call, Call) -> bool {
    |a: Call, b: Call| call_order()(a@, b@)
}

fn calls_ordered(a: &Call, b: &Call) -> (r: bool)
    ensures
        r == call_le()(*a, *b),
{
    places_ordered(
        a.path.as_str(),
        a.line,
        a.to.as_str(),
        a.from.as_str(),
        b.path.as_str(),
        b.line,
        b.to.as_str(),
        b.from.as_str(),
    )
}

spec fn edge_le() -> spec_fn(BfsEdge, BfsEdge) -> bool {
    |a: BfsEdge, b: BfsEdge| edge_order()(a@, b@)
}

fn edges_ordered(a: &BfsEdge, b: &BfsEdge) -> (r: bool)
    ensures
        r == edge_le()(*a, *b),
{
    if a.hop != b.hop {
        a.hop < b.hop
    } else {
        places_ordered(
            a.from_file.as_str(),
            a.from_line,
            a.to.as_str(),
            a.from.as_str(),
            b.from_file.as_str(),
            b.from_line,
            b.to.as_str(),
            b.from.as_str(),
        )
    }
}

/// Sorts edges.
pub fn sort_edges(v: &mut Vec<BfsEdge>)
    ensures
        edges_view(final(v)@) == stable_sort(edges_view(old(v)@), edge_order()),
{
    proof {
        lemma_sort_map(v@, |e: BfsEdge| e@, edge_le(), edge_order());
    }
    sort_by(v, edges_ordered, Ghost(edge_le()));
}

pub open spec fn string_le() -> spec_fn(String, String) -> bool {
    |a: String, b: String| text_le(a@, b@)
}

pub fn strings_ordered(a: &String, b: &String) -> (r: bool)
    ensures
        r == string_le()(*a, *b),
{
    text_ordered(a.as_str(), b.as_str())
}

/// Sorts names.
pub fn sort_strings(v: &mut Vec<String>)
    ensures
        strs(final(v)@) == stable_sort(strs(old(v)@), name_order()),
{
    proof {
        lemma_sort_map(v@, |s: String| s@, string_le(), name_order());
    }
    sort_by(v, strings_ordered, Ghost(string_le()));
}

// ---------------------------------------------------------------------------
// The walk
// ---------------------------------------------------------------------------

/// The number of edges in one hop that makes a symbol a hub. A symbol that is cut off a
/// frontier that is too large becomes one too.
pub const AUTO_HUB_THRESHOLD: usize = 200;

/// A function of a file.
pub struct SiteView {
    pub name: Seq<char>,
    pub path: Seq<char>,
}

/// The function of the file is among the sites.
pub open spec fn visited(v: Seq<SiteView>, name: Seq<char>, path: Seq<char>) -> bool {
    exists|i: int|
        0 <= i < v.len() && (#[trigger] v[i]).name == name && same_path(v[i].path, path)
}

/// Where a walk stands.
pub struct WalkView {
    pub hop: int,
    pub over: bool,
    pub frontier: Seq<Seq<char>>,
    pub visited: Seq<SiteView>,
    pub auto_hubs: Seq<Seq<char>>,
    pub edges: Seq<EdgeView>,
    pub stats: StatsView,
}

/// The statistics before a walk.
pub open spec fn no_stats() -> StatsView {
    StatsView {
        depth_reached: 0,
        edges_total: 0,
        frontier_cut_hops: Seq::empty(),
        edges_cut_at_hop: None,
        top_level_terminal: 0,
        unresolved_symbols: 0,
        hubs_skipped: Seq::empty(),
        auto_hubs_skipped: Seq::empty(),
        auto_hubs_promoted: Seq::empty(),
        per_hop: Seq::empty(),
        elapsed_ms: 0,
    }
}

/// A walk from the target that has not begun.
pub open spec fn start(target: Seq<char>) -> WalkView {
    WalkView {
        hop: 0,
        over: false,
        frontier: seq![target],
        visited: Seq::empty(),
        auto_hubs: Seq::empty(),
        edges: Seq::empty(),
        stats: no_stats(),
    }
}

/// The names that are hubs by choice.
pub open spec fn named_hubs(f: Seq<Seq<char>>, hubs: Seq<Seq<char>>) -> Seq<Seq<char>> {
    f.filter(|s: Seq<char>| hubs.contains(s))
}

/// The names that are hubs only by the number of their edges.
pub open spec fn grown_hubs(
    f: Seq<Seq<char>>,
    hubs: Seq<Seq<char>>,
    auto: Seq<Seq<char>>,
) -> Seq<Seq<char>> {
    f.filter(|s: Seq<char>| !hubs.contains(s) && auto.contains(s))
}

/// The names that are no hubs.
pub open spec fn no_hubs(
    f: Seq<Seq<char>>,
    hubs: Seq<Seq<char>>,
    auto: Seq<Seq<char>>,
) -> Seq<Seq<char>> {
    f.filter(|s: Seq<char>| !hubs.contains(s) && !auto.contains(s))
}

/// The symbols that the next hop is to explore, in order: from the second hop on,
/// hubs leave the frontier.
pub open spec fn candidates(w: WalkView, hubs: Seq<Seq<char>>) -> Seq<Seq<char>> {
    stable_sort(
        if w.hop == 0 {
            w.frontier
        } else {
            no_hubs(w.frontier, hubs, w.auto_hubs)
        },
        name_order(),
    )
}

/// The names that are no hubs yet, each once.
pub open spec fn fresh_hubs(names: Seq<Seq<char>>, auto: Seq<Seq<char>>) -> Seq<Seq<char>>
    decreases names.len(),
{
    if names.len() == 0 {
        Seq::empty()
    } else {
        let r = fresh_hubs(names.drop_last(), auto);
        if auto.contains(names.last()) || r.contains(names.last()) {
            r
        } else {
            r.push(names.last())
        }
    }
}

/// Symbols that became hubs without an edge of theirs having been found.
pub open spec fn unexplored(names: Seq<Seq<char>>) -> Seq<(Seq<char>, int)> {
    names.map_values(|n: Seq<char>| (n, 0int))
}

/// The walk at the begin of its next hop. From the second hop on, hubs leave the
/// frontier; it is sorted, and cut if it is too large. The symbols that are cut off
/// become hubs. Without a frontier the walk is over.
pub open spec fn begin_hop(w: WalkView, hubs: Seq<Seq<char>>, max_frontier: int) -> WalkView {
    let hop = w.hop + 1;
    if w.frontier.len() == 0 {
        WalkView { over: true, ..w }
    } else {
        let first = w.hop == 0;
        let kept = candidates(w, hubs);
        let cut = kept.len() > max_frontier;
        let f = if cut {
            kept.take(max_frontier)
        } else {
            kept
        };
        let fresh = if cut {
            fresh_hubs(kept.skip(max_frontier), w.auto_hubs)
        } else {
            Seq::empty()
        };
        WalkView {
            hop,
            over: f.len() == 0,
            frontier: f,
            auto_hubs: w.auto_hubs + fresh,
            stats: StatsView {
                auto_hubs_promoted: w.stats.auto_hubs_promoted + unexplored(fresh),
                hubs_skipped: if first {
                    w.stats.hubs_skipped
                } else {
                    w.stats.hubs_skipped + named_hubs(w.frontier, hubs)
                },
                auto_hubs_skipped: if first {
                    w.stats.auto_hubs_skipped
                } else {
                    w.stats.auto_hubs_skipped + grown_hubs(w.frontier, hubs, w.auto_hubs)
                },
                frontier_cut_hops: if cut {
                    w.stats.frontier_cut_hops.push((hop as usize, kept.len() as usize))
                } else {
                    w.stats.frontier_cut_hops
                },
                ..w.stats
            },
            ..w
        }
    }
}

/// What a hop has taken in so far.
pub struct HopView {
    pub edges: Seq<EdgeView>,
    pub visited: Seq<SiteView>,
    pub next: Seq<Seq<char>>,
    pub hits: Seq<Seq<char>>,
    pub terminal: int,
    pub cut: bool,
}

/// The first line of a call, trimmed.
pub open spec fn one_line(text: Seq<char>) -> Seq<char> {
    if lines(text).len() > 0 {
        trim(lines(text)[0])
    } else {
        trim(Seq::empty())
    }
}

/// One more, as far as it can be counted.
pub open spec fn counted(n: int) -> int {
    if n < usize::MAX {
        n + 1
    } else {
        n
    }
}

/// The hop after one more call: an edge, and the caller in the next frontier if it
/// is a function that was not visited. The edge that reaches the bound is the last;
/// where the bound leaves no room, there is none.
pub open spec fn take_call(h: HopView, hop: int, c: CallView, max_edges: int) -> HopView {
    if h.cut {
        h
    } else if h.edges.len() >= max_edges {
        HopView { cut: true, ..h }
    } else {
        let top = c.from == top_level();
        let seen = visited(h.visited, c.from, c.path);
        let edges = h.edges.push(
            EdgeView {
                hop,
                from: c.from,
                from_file: c.path,
                from_line: c.line,
                to: c.to,
                call_text: one_line(c.call_text),
            },
        );
        HopView {
            edges,
            visited: if top || seen {
                h.visited
            } else {
                h.visited.push(SiteView { name: c.from, path: c.path })
            },
            next: if top || seen || h.next.contains(c.from) {
                h.next
            } else {
                h.next.push(c.from)
            },
            hits: h.hits.push(c.to),
            terminal: if top {
                counted(h.terminal)
            } else {
                h.terminal
            },
            cut: edges.len() >= max_edges,
        }
    }
}

/// The hop after the calls.
pub open spec fn take_calls(h: HopView, hop: int, calls: Seq<CallView>, max_edges: int) -> HopView
    decreases calls.len(),
{
    if calls.len() == 0 {
        h
    } else {
        take_call(take_calls(h, hop, calls.drop_last(), max_edges), hop, calls.last(), max_edges)
    }
}

/// Every position is picked.
pub open spec fn all_of(n: int) -> Seq<bool> {
    Seq::new(n as nat, |i: int| true)
}

/// The hits by what was hit.
pub open spec fn by_callee(hits: Seq<Seq<char>>) -> Seq<(Seq<char>, Seq<int>)> {
    grouped(hits, all_of(hits.len() as int), hits.len() as int)
}

/// The symbols among the first `n` groups that become hubs.
pub open spec fn new_hubs(
    groups: Seq<(Seq<char>, Seq<int>)>,
    auto: Seq<Seq<char>>,
    n: int,
) -> Seq<(Seq<char>, int)>
    decreases n,
{
    if n <= 0 {
        Seq::empty()
    } else {
        let r = new_hubs(groups, auto, n - 1);
        let g = groups[n - 1];
        if g.1.len() >= AUTO_HUB_THRESHOLD && !auto.contains(g.0) {
            r.push((g.0, g.1.len() as int))
        } else {
            r
        }
    }
}

/// The number of names among the first `n` that were not hit, added to `from` as
/// far as it can be counted.
pub open spec fn missed(f: Seq<Seq<char>>, hits: Seq<Seq<char>>, from: int, n: int) -> int
    decreases n,
{
    if n <= 0 {
        from
    } else if hits.contains(f[n - 1]) {
        missed(f, hits, from, n - 1)
    } else {
        counted(missed(f, hits, from, n - 1))
    }
}

/// What a hop starts with.
pub open spec fn open_hop(w: WalkView) -> HopView {
    HopView {
        edges: w.edges,
        visited: w.visited,
        next: Seq::empty(),
        hits: Seq::empty(),
        terminal: w.stats.top_level_terminal,
        cut: false,
    }
}

/// The walk after the calls that its hop found, in whatever order they came. When
/// the edges reach the bound the walk is over.
pub open spec fn end_hop(w: WalkView, calls: Seq<CallView>, max_edges: int) -> WalkView {
    let h = take_calls(open_hop(w), w.hop, stable_sort(calls, call_order()), max_edges);
    let hop = HopStats {
        hop: w.hop as usize,
        frontier_size: w.frontier.len() as usize,
        edges: (h.edges.len() - w.edges.len()) as usize,
    };
    let groups = by_callee(h.hits);
    let hubs = new_hubs(groups, w.auto_hubs, groups.len() as int);
    if h.cut {
        WalkView {
            over: true,
            edges: h.edges,
            visited: h.visited,
            stats: StatsView {
                edges_cut_at_hop: Some(w.hop as usize),
                depth_reached: w.hop,
                per_hop: w.stats.per_hop.push(hop),
                top_level_terminal: h.terminal,
                ..w.stats
            },
            ..w
        }
    } else {
        WalkView {
            frontier: h.next,
            edges: h.edges,
            visited: h.visited,
            auto_hubs: w.auto_hubs + hubs.map_values(|p: (Seq<char>, int)| p.0),
            stats: StatsView {
                depth_reached: w.hop,
                per_hop: w.stats.per_hop.push(hop),
                top_level_terminal: h.terminal,
                auto_hubs_promoted: w.stats.auto_hubs_promoted + hubs,
                unresolved_symbols: missed(
                    w.frontier,
                    h.hits,
                    w.stats.unresolved_symbols,
                    w.frontier.len() as int,
                ),
                ..w.stats
            },
            ..w
        }
    }
}

/// The edges that a walk found, in order.
pub open spec fn found_edges(w: WalkView) -> Seq<EdgeView> {
    stable_sort(w.edges, edge_order())
}

/// What a walk did, when it is done.
pub open spec fn final_stats(w: WalkView, elapsed_ms: int) -> StatsView {
    StatsView { edges_total: w.edges.len() as int, elapsed_ms, ..w.stats }
}

/// The names in a list separated by commas.
pub open spec fn hub_names(pieces: Seq<Seq<char>>) -> Seq<Seq<char>>
    decreases pieces.len(),
{
    if pieces.len() == 0 {
        Seq::empty()
    } else {
        let r = hub_names(pieces.drop_last());
        let s = trim(pieces.last());
        if s.len() > 0 && !r.contains(s) {
            r.push(s)
        } else {
            r
        }
    }
}

/// The hubs that an argument names.
pub open spec fn hubs_in(arg: Option<Seq<char>>) -> Seq<Seq<char>> {
    match arg {
        Some(s) => hub_names(split(s, ',')),
        None => Seq::empty(),
    }
}

/// The hubs that an argument names.
pub fn parse_hubs(skip_hubs: Option<&str>) -> (r: Vec<String>)
    ensures
        strs(r@) == hubs_in(
            match skip_hubs {
                Some(s) => Some(s@),
                None => None,
            },
        ),
{
    broadcast use crate::text::lemma_strs_push;

    let mut r: Vec<String> = Vec::new();
    assert(strs(r@) =~= Seq::<Seq<char>>::empty());
    let csv = match skip_hubs {
        Some(s) => s,
        None => {
            return r;
        },
    };
    let text = chars_of(csv);
    let pieces = split_on(text.as_slice(), ',');
    let ghost p = views(pieces@);
    let mut i: usize = 0;
    assert(strs(r@) =~= hub_names(p.take(0)));
    while i < pieces.len()
        invariant
            i <= pieces@.len(),
            p == views(pieces@),
            strs(r@) == hub_names(p.take(i as int)),
        decreases pieces@.len() - i,
    {
        assert(p.take(i + 1).drop_last() =~= p.take(i as int));
        assert(p.take(i + 1).last() == pieces@[i as int]@);
        let s = trim_of(pieces[i]);
        if s.len() > 0 {
            let name = string_of(s);
            if !has_string(r.as_slice(), name.as_str()) {
                r.push(name);
            }
        }
        i = i + 1;
    }
    assert(p.take(pieces@.len() as int) =~= p);
    r
}

/// A function of a file.
#[derive(Debug)]
pub struct Site {
    pub name: String,
    pub path: String,
}

impl View for Site {
    type V = SiteView;

    open spec fn view(&self) -> SiteView {
        SiteView { name: self.name@, path: self.path@ }
    }
}

/// What the sites of a list say.
pub open spec fn sites_view(v: Seq<Site>) -> Seq<SiteView> {
    v.map_values(|s: Site| s@)
}

/// A walk over the call graph. Each hop has two parts: `next_frontier` tells which
/// symbols to find the callers of, `absorb` takes in what was found.
#[derive(Debug)]
pub struct Bfs {
    max_depth: usize,
    max_frontier: usize,
    max_edges: usize,
    hubs: Vec<String>,
    hop: usize,
    over: bool,
    frontier: Vec<String>,
    visited: Vec<Site>,
    auto_hubs: Vec<String>,
    edges: Vec<BfsEdge>,
    stats: BfsStats,
}

impl View for Bfs {
    type V = WalkView;

    closed spec fn view(&self) -> WalkView {
        WalkView {
            hop: self.hop as int,
            over: self.over,
            frontier: strs(self.frontier@),
            visited: sites_view(self.visited@),
            auto_hubs: strs(self.auto_hubs@),
            edges: edges_view(self.edges@),
            stats: self.stats@,
        }
    }
}

impl Bfs {
    /// The largest number of hops.
    pub closed spec fn depth_bound(self) -> int {
        self.max_depth as int
    }

    /// The largest size of a frontier.
    pub closed spec fn frontier_bound(self) -> int {
        self.max_frontier as int
    }

    /// The number of edges at which the walk stops.
    pub closed spec fn edge_bound(self) -> int {
        self.max_edges as int
    }

    /// The hubs by choice.
    pub closed spec fn chosen_hubs(self) -> Seq<Seq<char>> {
        strs(self.hubs@)
    }

    /// The bounds and hubs are those of the other walk.
    pub open spec fn same_bounds(self, other: Self) -> bool {
        &&& self.depth_bound() == other.depth_bound()
        &&& self.frontier_bound() == other.frontier_bound()
        &&& self.edge_bound() == other.edge_bound()
        &&& self.chosen_hubs() == other.chosen_hubs()
    }

    /// A walk from the target.
    pub fn new(
        target: &str,
        max_depth: usize,
        max_frontier: usize,
        max_edges: usize,
        skip_hubs: Option<&str>,
    ) -> (r: Self)
        ensures
            r@ == start(target@),
            r.depth_bound() == max_depth,
            r.frontier_bound() == max_frontier,
            r.edge_bound() == max_edges,
            r.chosen_hubs() == hubs_in(
                match skip_hubs {
                    Some(s) => Some(s@),
                    None => None,
                },
            ),
    {
        broadcast use crate::text::lemma_strs_push;

        let hubs = parse_hubs(skip_hubs);
        let mut frontier: Vec<String> = Vec::new();
        frontier.push(target.to_owned());
        let stats = BfsStats {
            depth_reached: 0,
            edges_total: 0,
            frontier_cut_hops: Vec::new(),
            edges_cut_at_hop: None,
            top_level_terminal: 0,
            unresolved_symbols: 0,
            hubs_skipped: Vec::new(),
            auto_hubs_skipped: Vec::new(),
            auto_hubs_promoted: Vec::new(),
            per_hop: Vec::new(),
            elapsed_ms: 0,
        };
        assert(strs(stats.hubs_skipped@) =~= Seq::<Seq<char>>::empty());
        assert(strs(stats.auto_hubs_skipped@) =~= Seq::<Seq<char>>::empty());
        assert(promoted_view(stats.auto_hubs_promoted@) =~= Seq::<(Seq<char>, int)>::empty());
        assert(stats.frontier_cut_hops@ =~= Seq::<(usize, usize)>::empty());
        assert(stats.per_hop@ =~= Seq::<HopStats>::empty());
        assert(strs(frontier@) =~= seq![target@]);
        let r = Bfs {
            max_depth,
            max_frontier,
            max_edges,
            hubs,
            hop: 0,
            over: false,
            frontier,
            visited: Vec::new(),
            auto_hubs: Vec::new(),
            edges: Vec::new(),
            stats,
        };
        assert(sites_view(r.visited@) =~= Seq::<SiteView>::empty());
        assert(edges_view(r.edges@) =~= Seq::<EdgeView>::empty());
        assert(strs(r.auto_hubs@) =~= Seq::<Seq<char>>::empty());
        r
    }

    /// The symbols whose callers the next hop is to find; none where the walk is
    /// over, be it that there is nothing left or that a bound is reached.
    pub fn next_frontier(&mut self) -> (r: Option<Vec<String>>)
        ensures
            final(self).same_bounds(*old(self)),
            old(self)@.over || old(self)@.hop >= old(self).depth_bound() ==> r is None
                && final(self)@ == old(self)@,
            !old(self)@.over && old(self)@.hop < old(self).depth_bound() ==> {
                &&& final(self)@ == begin_hop(
                    old(self)@,
                    old(self).chosen_hubs(),
                    old(self).frontier_bound(),
                )
                &&& r is None <==> final(self)@.over
                &&& r matches Some(f) ==> strs(f@) == final(self)@.frontier
            },
    {
        if self.over || self.hop >= self.max_depth {
            return None;
        }
        let ghost w = self@;
        let ghost hubs = self.chosen_hubs();
        assert(w.frontier.len() == self.frontier@.len());
        if self.frontier.len() == 0 {
            self.over = true;
            return None;
        }
        let hop: usize = self.hop + 1;
        if hop > 1 {
            self.drop_hubs();
        }
        sort_strings(&mut self.frontier);
        let ghost kept = strs(self.frontier@);
        let n: usize = self.frontier.len();
        assert(kept.len() == n);
        let ghost auto = w.auto_hubs;
        let ghost promoted = w.stats.auto_hubs_promoted;
        if n > self.max_frontier {
            self.promote_excess();
            self.stats.frontier_cut_hops.push((hop, n));
            self.frontier.truncate(self.max_frontier);
            assert(strs(self.frontier@) =~= kept.take(self.max_frontier as int));
        } else {
            assert(auto + Seq::<Seq<char>>::empty() =~= auto);
            assert(unexplored(Seq::empty()) =~= Seq::<(Seq<char>, int)>::empty());
            assert(promoted + unexplored(Seq::empty()) =~= promoted);
        }
        self.hop = hop;
        self.over = self.frontier.len() == 0;
        assert(self@ == begin_hop(w, hubs, self.max_frontier as int));
        if self.over {
            return None;
        }
        Some(clone_strings(&self.frontier))
    }

    /// Makes hubs of the symbols that are too many for the frontier.
    fn promote_excess(&mut self)
        requires
            old(self)@.frontier.len() > old(self).frontier_bound(),
        ensures
            final(self).same_bounds(*old(self)),
            ({
                let fresh = fresh_hubs(
                    old(self)@.frontier.skip(old(self).frontier_bound()),
                    old(self)@.auto_hubs,
                );
                final(self)@ == (WalkView {
                    auto_hubs: old(self)@.auto_hubs + fresh,
                    stats: StatsView {
                        auto_hubs_promoted: old(self)@.stats.auto_hubs_promoted + unexplored(fresh),
                        ..old(self)@.stats
                    },
                    ..old(self)@
                })
            }),
    {
        let ghost w = self@;
        let ghost before = *self;
        let ghost bound = self.max_frontier as int;
        let ghost excess = w.frontier.skip(bound);
        let ghost auto = w.auto_hubs;
        let ghost promoted = w.stats.auto_hubs_promoted;
        let mut i: usize = self.max_frontier;
        proof {
            assert(excess.take(0) =~= Seq::<Seq<char>>::empty());
            assert(auto + fresh_hubs(excess.take(0), auto) =~= auto);
            assert(promoted + unexplored(fresh_hubs(excess.take(0), auto)) =~= promoted);
        }
        while i < self.frontier.len()
            invariant
                bound <= i <= self.frontier@.len(),
                w.frontier == strs(self.frontier@),
                0 <= bound,
                excess == w.frontier.skip(bound),
                self.same_bounds(before),
                auto == w.auto_hubs,
                promoted == w.stats.auto_hubs_promoted,
                self@ == (WalkView {
                    auto_hubs: auto + fresh_hubs(excess.take(i - bound), auto),
                    stats: StatsView {
                        auto_hubs_promoted: promoted + unexplored(
                            fresh_hubs(excess.take(i - bound), auto),
                        ),
                        ..w.stats
                    },
                    ..w
                }),
            decreases self.frontier@.len() - i,
        {
            let s = self.frontier[i].clone();
            let ghost r = fresh_hubs(excess.take(i - bound), auto);
            let ghost t = excess.take(i + 1 - bound);
            proof {
                assert(t.drop_last() =~= excess.take(i - bound));
                assert(t.last() == s@);
                lemma_joined_contains(auto, r, s@);
            }
            if !has_string(self.auto_hubs.as_slice(), s.as_str()) {
                let ghost hubs = strs(self.auto_hubs@);
                let ghost ps = promoted_view(self.stats.auto_hubs_promoted@);
                self.auto_hubs.push(s.clone());
                self.stats.auto_hubs_promoted.push((s, 0));
                proof {
                    let x = (s@, 0int);
                    assert(strs(self.auto_hubs@) =~= hubs.push(s@));
                    assert(promoted_view(self.stats.auto_hubs_promoted@) =~= ps.push(x));
                    assert((auto + r).push(s@) =~= auto + r.push(s@));
                    assert(unexplored(r.push(s@)) =~= unexplored(r).push(x));
                    assert((promoted + unexplored(r)).push(x) =~= promoted + unexplored(r).push(x));
                }
            }
            i = i + 1;
        }
        assert(excess.take(i - bound) =~= excess);
    }

    /// Takes the hubs out of the frontier.
    fn drop_hubs(&mut self)
        ensures
            final(self).same_bounds(*old(self)),
            final(self)@ == (WalkView {
                frontier: no_hubs(
                    old(self)@.frontier,
                    old(self).chosen_hubs(),
                    old(self)@.auto_hubs,
                ),
                stats: StatsView {
                    hubs_skipped: old(self)@.stats.hubs_skipped + named_hubs(
                        old(self)@.frontier,
                        old(self).chosen_hubs(),
                    ),
                    auto_hubs_skipped: old(self)@.stats.auto_hubs_skipped + grown_hubs(
                        old(self)@.frontier,
                        old(self).chosen_hubs(),
                        old(self)@.auto_hubs,
                    ),
                    ..old(self)@.stats
                },
                ..old(self)@
            }),
    {
        broadcast use crate::text::lemma_strs_push;

        let ghost f = self@.frontier;
        let ghost hubs = self.chosen_hubs();
        let ghost auto = self@.auto_hubs;
        let ghost s1 = self@.stats.hubs_skipped;
        let ghost s2 = self@.stats.auto_hubs_skipped;
        let ghost before = *self;
        let mut kept: Vec<String> = Vec::new();
        let mut i: usize = 0;
        proof {
            reveal(Seq::filter);
            assert(strs(kept@) =~= no_hubs(f.take(0), hubs, auto));
            assert(s1 + named_hubs(f.take(0), hubs) =~= s1);
            assert(s2 + grown_hubs(f.take(0), hubs, auto) =~= s2);
        }
        while i < self.frontier.len()
            invariant
                i <= self.frontier@.len(),
                self.same_bounds(before),
                f == strs(self.frontier@),
                hubs == strs(self.hubs@),
                auto == strs(self.auto_hubs@),
                strs(kept@) == no_hubs(f.take(i as int), hubs, auto),
                self@ == (WalkView {
                    stats: StatsView {
                        hubs_skipped: s1 + named_hubs(f.take(i as int), hubs),
                        auto_hubs_skipped: s2 + grown_hubs(f.take(i as int), hubs, auto),
                        ..before@.stats
                    },
                    ..before@
                }),
            decreases self.frontier@.len() - i,
        {
            let s = self.frontier[i].clone();
            let ghost t = f.take(i + 1);
            proof {
                reveal(Seq::filter);
                assert(t.drop_last() =~= f.take(i as int));
                assert(t.last() == s@);
            }
            if has_string(self.hubs.as_slice(), s.as_str()) {
                let ghost skipped = strs(self.stats.hubs_skipped@);
                self.stats.hubs_skipped.push(s);
                assert(strs(self.stats.hubs_skipped@) =~= skipped.push(s@));
                assert((s1 + named_hubs(f.take(i as int), hubs)).push(s@) =~= s1 + named_hubs(
                    t,
                    hubs,
                ));
            } else if has_string(self.auto_hubs.as_slice(), s.as_str()) {
                let ghost skipped = strs(self.stats.auto_hubs_skipped@);
                self.stats.auto_hubs_skipped.push(s);
                assert(strs(self.stats.auto_hubs_skipped@) =~= skipped.push(s@));
                assert((s2 + grown_hubs(f.take(i as int), hubs, auto)).push(s@) =~= s2
                    + grown_hubs(t, hubs, auto));
            } else {
                kept.push(s);
            }
            i = i + 1;
        }
        assert(f.take(f.len() as int) =~= f);
        self.frontier = kept;
    }

    /// Takes in the calls that the hop found.
    pub fn absorb(&mut self, calls: Vec<Call>)
        ensures
            final(self).same_bounds(*old(self)),
            final(self)@ == end_hop(old(self)@, calls_view(calls@), old(self).edge_bound()),
    {
        broadcast use crate::text::lemma_strs_push;

        let ghost w = self@;
        let ghost before = *self;
        let ghost sorted = stable_sort(calls_view(calls@), call_order());
        let ghost bound = self.max_edges as int;
        let hop: usize = self.hop;
        let edges_before: usize = self.edges.len();
        let frontier_size: usize = self.frontier.len();
        let mut left = calls;
        proof {
            lemma_sort_map(left@, |c: Call| c@, call_le(), call_order());
        }
        sort_by(&mut left, calls_ordered, Ghost(call_le()));
        assert(calls_view(left@) == sorted);
        let n: usize = left.len();
        let mut next: Vec<String> = Vec::new();
        let mut hits: Vec<String> = Vec::new();
        let mut cut = false;
        let mut i: usize = 0;
        let ghost h0 = open_hop(w);
        proof {
            assert(strs(next@) =~= Seq::<Seq<char>>::empty());
            assert(strs(hits@) =~= Seq::<Seq<char>>::empty());
            assert(sorted.take(0) =~= Seq::<CallView>::empty());
            assert(take_calls(h0, w.hop, sorted.take(0), bound) == h0);
            assert(sorted.skip(0) =~= sorted);
        }
        while i < n && !cut
            invariant
                i <= n,
                n == sorted.len(),
                left@.len() == n - i,
                calls_view(left@) == sorted.skip(i as int),
                hop == w.hop,
                bound == self.max_edges,
                self.same_bounds(before),
                self@ == (WalkView {
                    edges: self@.edges,
                    visited: self@.visited,
                    stats: StatsView {
                        top_level_terminal: self@.stats.top_level_terminal,
                        ..w.stats
                    },
                    ..w
                }),
                take_calls(h0, w.hop, sorted.take(i as int), bound) == (HopView {
                    edges: self@.edges,
                    visited: self@.visited,
                    next: strs(next@),
                    hits: strs(hits@),
                    terminal: self@.stats.top_level_terminal,
                    cut,
                }),
                edges_before <= self.edges@.len(),
            decreases n - i,
        {
            let ghost was = left@;
            let c = left.remove(0);
            let ghost cv = c@;
            proof {
                assert(calls_view(was)[0] == cv);
                assert(sorted.skip(i as int)[0] == sorted[i as int]);
                assert(calls_view(left@) =~= calls_view(was).skip(1));
                assert(sorted.skip(i as int).skip(1) =~= sorted.skip(i + 1));
                assert(sorted.take(i + 1).drop_last() =~= sorted.take(i as int));
                assert(sorted.take(i + 1).last() == cv);
            }
            let ghost h = take_calls(h0, w.hop, sorted.take(i as int), bound);
            if self.edges.len() >= self.max_edges {
                assert(take_calls(h0, w.hop, sorted.take(i + 1), bound) == (HopView {
                    cut: true,
                    ..h
                }));
                cut = true;
                i = i + 1;
                continue ;
            }
            let Call { to, path, line, from, call_text } = c;
            hits.push(to.clone());
            assert(strs(hits@) =~= h.hits.push(cv.to));
            if same_text(from.as_str(), "<top-level>") {
                self.stats.top_level_terminal = self.stats.top_level_terminal.saturating_add(1);
            } else if !self.was_visited(from.as_str(), path.as_str()) {
                let ghost sites = sites_view(self.visited@);
                let site = Site { name: from.clone(), path: path.clone() };
                let ghost sv = site@;
                self.visited.push(site);
                assert(sites_view(self.visited@) =~= sites.push(sv));
                if !has_string(next.as_slice(), from.as_str()) {
                    next.push(from.clone());
                }
            }
            let text = first_line_of_call(call_text.as_str());
            let ghost es = edges_view(self.edges@);
            let e = BfsEdge { hop, from, from_file: path, from_line: line, to, call_text: text };
            let ghost ev = e@;
            self.edges.push(e);
            assert(edges_view(self.edges@) =~= es.push(ev));
            let total: usize = self.edges.len();
            cut = total >= self.max_edges;
            proof {
                let k = take_call(h, w.hop, cv, bound);
                assert(k == take_calls(h0, w.hop, sorted.take(i + 1), bound));
                assert(self@.edges == k.edges);
                assert(self@.visited == k.visited);
                assert(strs(next@) == k.next);
                assert(self@.stats.top_level_terminal == k.terminal);
                assert(cut == k.cut);
            }
            i = i + 1;
        }
        proof {
            lemma_take_calls_cut(h0, w.hop, sorted, i as int, bound);
        }
        let ghost h = take_calls(h0, w.hop, sorted, bound);
        let total: usize = self.edges.len();
        let stats = HopStats { hop, frontier_size, edges: total - edges_before };
        self.stats.depth_reached = hop;
        self.stats.per_hop.push(stats);
        if cut {
            self.stats.edges_cut_at_hop = Some(hop);
            self.over = true;
            assert(self@ == end_hop(w, calls_view(calls@), bound));
            return ;
        }
        self.promote_hubs(&hits);
        self.count_missed(&hits);
        self.frontier = next;
        assert(self@ == end_hop(w, calls_view(calls@), bound));
    }

    fn was_visited(&self, name: &str, path: &str) -> (r: bool)
        ensures
            r == visited(self@.visited, name@, path@),
    {
        let ghost v = self@.visited;
        let mut i: usize = 0;
        while i < self.visited.len()
            invariant
                i <= self.visited@.len(),
                v == sites_view(self.visited@),
                forall|j: int|
                    0 <= j < i ==> !((#[trigger] v[j]).name == name@ && same_path(
                        v[j].path,
                        path@,
                    )),
            decreases self.visited@.len() - i,
        {
            assert(v[i as int] == self.visited@[i as int]@);
            if same_text(self.visited[i].name.as_str(), name) && equal_paths(
                self.visited[i].path.as_str(),
                path,
            ) {
                return true;
            }
            i = i + 1;
        }
        false
    }

    /// Makes hubs of the symbols that were hit too often.
    fn promote_hubs(&mut self, hits: &Vec<String>)
        ensures
            final(self).same_bounds(*old(self)),
            ({
                let groups = by_callee(strs(hits@));
                let hubs = new_hubs(groups, old(self)@.auto_hubs, groups.len() as int);
                final(self)@ == (WalkView {
                    auto_hubs: old(self)@.auto_hubs + hubs.map_values(
                        |p: (Seq<char>, int)| p.0,
                    ),
                    stats: StatsView {
                        auto_hubs_promoted: old(self)@.stats.auto_hubs_promoted + hubs,
                        ..old(self)@.stats
                    },
                    ..old(self)@
                })
            }),
    {
        broadcast use crate::text::lemma_strs_push;

        let ghost w = self@;
        let ghost before = *self;
        let ghost hv = strs(hits@);
        let n: usize = hits.len();
        let mut groups: Vec<(String, Vec<usize>)> = Vec::new();
        let mut i: usize = 0;
        assert(groups_view(groups@) =~= Seq::empty());
        while i < n
            invariant
                i <= n,
                n == hits@.len(),
                hv == strs(hits@),
                groups_view(groups@) == grouped(hv, all_of(n as int), i as int),
            decreases n - i,
        {
            assert(hv[i as int] == hits@[i as int].key());
            add_to_group(&mut groups, &hits[i], i);
            i = i + 1;
        }
        let ghost g = groups_view(groups@);
        let ghost first = |p: (Seq<char>, int)| p.0;
        let ghost auto = w.auto_hubs;
        let mut fresh: Vec<String> = Vec::new();
        let mut k: usize = 0;
        let ghost old_promoted = w.stats.auto_hubs_promoted;
        proof {
            assert(strs(fresh@) =~= new_hubs(g, auto, 0).map_values(first));
            assert(old_promoted + new_hubs(g, auto, 0) =~= old_promoted);
        }
        while k < groups.len()
            invariant
                k <= groups@.len(),
                g == groups_view(groups@),
                auto == strs(self.auto_hubs@),
                auto == w.auto_hubs,
                first == (|p: (Seq<char>, int)| p.0),
                self.same_bounds(before),
                strs(fresh@) == new_hubs(g, auto, k as int).map_values(first),
                self@ == (WalkView {
                    stats: StatsView {
                        auto_hubs_promoted: old_promoted + new_hubs(g, auto, k as int),
                        ..w.stats
                    },
                    ..w
                }),
            decreases groups@.len() - k,
        {
            let count: usize = groups[k].1.len();
            let name = &groups[k].0;
            assert(g[k as int].0 == name@);
            assert(g[k as int].1.len() == count);
            if count >= AUTO_HUB_THRESHOLD && !has_string(
                self.auto_hubs.as_slice(),
                name.as_str(),
            ) {
                let ghost ps = promoted_view(self.stats.auto_hubs_promoted@);
                let ghost r = new_hubs(g, auto, k as int);
                fresh.push(name.clone());
                self.stats.auto_hubs_promoted.push((name.clone(), count));
                proof {
                    let x = (name@, count as int);
                    assert(promoted_view(self.stats.auto_hubs_promoted@) =~= ps.push(x));
                    assert(old_promoted + r.push(x) =~= (old_promoted + r).push(x));
                    assert(r.push(x).map_values(first) =~= r.map_values(first).push(x.0));
                }
            }
            k = k + 1;
        }
        let ghost all = strs(self.auto_hubs@);
        let ghost added = strs(fresh@);
        let mut j: usize = 0;
        assert(all + added.take(0) =~= all);
        let ghost promoted = self@.stats;
        while j < fresh.len()
            invariant
                j <= fresh@.len(),
                added == strs(fresh@),
                self.same_bounds(before),
                self@ == (WalkView {
                    auto_hubs: all + added.take(j as int),
                    stats: promoted,
                    ..w
                }),
            decreases fresh@.len() - j,
        {
            let ghost so_far = strs(self.auto_hubs@);
            self.auto_hubs.push(fresh[j].clone());
            assert(strs(self.auto_hubs@) =~= so_far.push(added[j as int]));
            assert((all + added.take(j as int)).push(added[j as int]) =~= all + added.take(j + 1));
            j = j + 1;
        }
        assert(added.take(fresh@.len() as int) =~= added);
    }

    /// Counts the symbols of the frontier that were not hit.
    fn count_missed(&mut self, hits: &Vec<String>)
        ensures
            final(self).same_bounds(*old(self)),
            final(self)@ == (WalkView {
                stats: StatsView {
                    unresolved_symbols: missed(
                        old(self)@.frontier,
                        strs(hits@),
                        old(self)@.stats.unresolved_symbols,
                        old(self)@.frontier.len() as int,
                    ),
                    ..old(self)@.stats
                },
                ..old(self)@
            }),
    {
        let ghost w = self@;
        let ghost before = *self;
        let ghost f = w.frontier;
        let ghost hv = strs(hits@);
        let mut i: usize = 0;
        while i < self.frontier.len()
            invariant
                i <= self.frontier@.len(),
                f == strs(self.frontier@),
                hv == strs(hits@),
                self.same_bounds(before),
                self@ == (WalkView {
                    stats: StatsView {
                        unresolved_symbols: missed(
                            f,
                            hv,
                            w.stats.unresolved_symbols,
                            i as int,
                        ),
                        ..w.stats
                    },
                    ..w
                }),
            decreases self.frontier@.len() - i,
        {
            assert(f[i as int] == self.frontier@[i as int]@);
            if !has_string(hits.as_slice(), self.frontier[i].as_str()) {
                self.stats.unresolved_symbols = self.stats.unresolved_symbols.saturating_add(1);
            }
            i = i + 1;
        }
    }

    /// The edges in order and the statistics of the walk.
    pub fn finish(self, elapsed_ms: u128) -> (r: (Vec<BfsEdge>, BfsStats))
        ensures
            edges_view(r.0@) == found_edges(self@),
            r.1@ == final_stats(self@, elapsed_ms as int),
    {
        let Bfs {
            max_depth: _,
            max_frontier: _,
            max_edges: _,
            hubs: _,
            hop: _,
            over: _,
            frontier: _,
            visited: _,
            auto_hubs: _,
            edges,
            stats,
        } = self;
        let mut edges = edges;
        let mut stats = stats;
        stats.edges_total = edges.len();
        stats.elapsed_ms = elapsed_ms;
        sort_edges(&mut edges);
        (edges, stats)
    }
}

/// What is in one of two lists is in both together.
proof fn lemma_joined_contains(a: Seq<Seq<char>>, b: Seq<Seq<char>>, x: Seq<char>)
    ensures
        (a + b).contains(x) == (a.contains(x) || b.contains(x)),
{
    if a.contains(x) {
        let i = choose|i: int| 0 <= i < a.len() && a[i] == x;
        assert((a + b)[i] == x);
    }
    if b.contains(x) {
        let i = choose|i: int| 0 <= i < b.len() && b[i] == x;
        assert((a + b)[a.len() + i] == x);
    }
}

/// Nothing is taken in once the hop is cut.
proof fn lemma_take_calls_cut(h: HopView, hop: int, calls: Seq<CallView>, i: int, max_edges: int)
    requires
        0 <= i <= calls.len(),
        i == calls.len() || take_calls(h, hop, calls.take(i), max_edges).cut,
    ensures
        take_calls(h, hop, calls, max_edges) == take_calls(h, hop, calls.take(i), max_edges),
    decreases calls.len() - i,
{
    if i == calls.len() {
        assert(calls.take(i) =~= calls);
    } else {
        let t = calls.drop_last();
        assert(t.take(i) =~= calls.take(i));
        lemma_take_calls_cut(h, hop, t, i, max_edges);
    }
}

fn first_line_of_call(text: &str) -> (r: String)
    ensures
        r@ == one_line(text@),
{
    let s = chars_of(text);
    let l = lines_of(s.as_slice());
    if l.len() > 0 {
        assert(views(l@)[0] == l@[0]@);
        string_of(trim_of(l[0]))
    } else {
        let none: &[char] = &[];
        assert(none@ =~= Seq::<char>::empty());
        string_of(trim_of(none))
    }
}

/// A copy of the texts.
pub fn clone_strings(v: &Vec<String>) -> (r: Vec<String>)
    ensures
        r@ == v@,
{
    let mut r: Vec<String> = Vec::new();
    let mut i: usize = 0;
    while i < v.len()
        invariant
            i <= v@.len(),
            r@ == v@.take(i as int),
        decreases v@.len() - i,
    {
        r.push(v[i].clone());
        i = i + 1;
        assert(v@.take(i as int) =~= v@.take(i - 1).push(v@[i - 1]));
    }
    assert(v@.take(v@.len() as int) =~= v@);
    r
}

// ---------------------------------------------------------------------------
// Laws
// ---------------------------------------------------------------------------

/// The order of places is total and transitive.
proof fn lemma_place_total(
    p1: Seq<char>,
    l1: u32,
    t1: Seq<char>,
    f1: Seq<char>,
    p2: Seq<char>,
    l2: u32,
    t2: Seq<char>,
    f2: Seq<char>,
)
    ensures
        place_le(p1, l1, t1, f1, p2, l2, t2, f2) || place_le(p2, l2, t2, f2, p1, l1, t1, f1),
{
    crate::paths::lemma_path_total(
        crate::paths::components(p1),
        crate::paths::components(p2),
        0,
    );
    crate::text::lemma_text_order(t1, t2);
    crate::text::lemma_text_order(f1, f2);
}

proof fn lemma_components_antisym(a: Seq<Seq<char>>, b: Seq<Seq<char>>, i: int)
    requires
        0 <= i,
        crate::paths::components_le(a, b, i),
        crate::paths::components_le(b, a, i),
        forall|j: int| 0 <= j < i && j < a.len() && j < b.len() ==> a[j] == b[j],
        i <= a.len(),
        i <= b.len(),
    ensures
        a == b,
    decreases a.len() - i,
{
    if i < a.len() && i < b.len() {
        if a[i] == b[i] {
            lemma_components_antisym(a, b, i + 1);
        } else {
            crate::text::lemma_text_order(a[i], b[i]);
        }
    } else {
        assert(a =~= b);
    }
}

proof fn lemma_place_trans(
    p1: Seq<char>,
    l1: u32,
    t1: Seq<char>,
    f1: Seq<char>,
    p2: Seq<char>,
    l2: u32,
    t2: Seq<char>,
    f2: Seq<char>,
    p3: Seq<char>,
    l3: u32,
    t3: Seq<char>,
    f3: Seq<char>,
)
    requires
        place_le(p1, l1, t1, f1, p2, l2, t2, f2),
        place_le(p2, l2, t2, f2, p3, l3, t3, f3),
    ensures
        place_le(p1, l1, t1, f1, p3, l3, t3, f3),
{
    let (a, b, c) = (
        crate::paths::components(p1),
        crate::paths::components(p2),
        crate::paths::components(p3),
    );
    if a != b && b != c {
        crate::paths::lemma_path_trans(a, b, c, 0);
        if a == c {
            lemma_components_antisym(a, b, 0);
        }
    } else if a == b && b == c && l1 == l2 && l2 == l3 {
        if t1 != t2 && t2 != t3 {
            crate::text::lemma_text_trans(t1, t2, t3);
            if t1 == t3 {
                crate::text::lemma_text_order(t1, t2);
            }
        } else if t1 == t2 && t2 == t3 {
            crate::text::lemma_text_trans(f1, f2, f3);
        }
    }
}

proof fn lemma_call_order()
    ensures
        crate::sort::is_preorder(call_order()),
{
    let le = call_order();
    assert forall|a: CallView, b: CallView| #[trigger] le(a, b) || le(b, a) by {
        lemma_place_total(a.path, a.line, a.to, a.from, b.path, b.line, b.to, b.from);
    }
    assert forall|a: CallView, b: CallView, c: CallView| #[trigger]
        le(a, b) && #[trigger] le(b, c) implies le(a, c) by {
        lemma_place_trans(
            a.path,
            a.line,
            a.to,
            a.from,
            b.path,
            b.line,
            b.to,
            b.from,
            c.path,
            c.line,
            c.to,
            c.from,
        );
    }
}

/// A hop does not depend on the order in which its calls were found, where no two
/// different calls share path, line, caller and callee.
pub proof fn law_hop_ignores_order(
    w: WalkView,
    a: Seq<CallView>,
    b: Seq<CallView>,
    max_edges: int,
)
    requires
        a.to_multiset() == b.to_multiset(),
        crate::sort::distinguishes(a, call_order()),
    ensures
        end_hop(w, a, max_edges) == end_hop(w, b, max_edges),
{
    lemma_call_order();
    crate::sort::law_sort_ignores_order(a, b, call_order());
}

/// The calls that stand in the file.
pub open spec fn calls_in_file(calls: Seq<CallView>, path: Seq<char>) -> Seq<CallView> {
    calls.filter(|c: CallView| same_path(c.path, path))
}

/// Of every file both lists hold the same calls in the same order.
pub open spec fn same_by_file(a: Seq<CallView>, b: Seq<CallView>) -> bool {
    forall|path: Seq<char>| #[trigger] calls_in_file(a, path) == calls_in_file(b, path)
}

proof fn lemma_filter_twice(
    s: Seq<CallView>,
    wide: spec_fn(CallView) -> bool,
    narrow: spec_fn(CallView) -> bool,
)
    requires
        forall|c: CallView| #[trigger] narrow(c) ==> wide(c),
    ensures
        s.filter(wide).filter(narrow) == s.filter(narrow),
    decreases s.len(),
{
    reveal(Seq::filter);
    if s.len() > 0 {
        let t = s.drop_last();
        lemma_filter_twice(t, wide, narrow);
        if wide(s.last()) {
            assert(t.filter(wide).push(s.last()).drop_last() =~= t.filter(wide));
        }
    }
}

proof fn lemma_ties_by_file(calls: Seq<CallView>, x: CallView)
    ensures
        crate::sort::ties(calls, x, call_order()) == crate::sort::ties(
            calls_in_file(calls, x.path),
            x,
            call_order(),
        ),
{
    let le = call_order();
    let wide = |c: CallView| same_path(c.path, x.path);
    let narrow = |c: CallView| le(x, c) && le(c, x);
    assert forall|c: CallView| #[trigger] narrow(c) implies wide(c) by {
        if !same_path(c.path, x.path) {
            lemma_components_antisym(
                crate::paths::components(x.path),
                crate::paths::components(c.path),
                0,
            );
        }
    }
    lemma_filter_twice(calls, wide, narrow);
}

/// A hop does not depend on the order in which the files were searched: it is the same
/// for any two lists that hold the calls of each file in the same order.
pub proof fn law_hop_ignores_file_order(
    w: WalkView,
    a: Seq<CallView>,
    b: Seq<CallView>,
    max_edges: int,
)
    requires
        same_by_file(a, b),
    ensures
        end_hop(w, a, max_edges) == end_hop(w, b, max_edges),
{
    let le = call_order();
    lemma_call_order();
    assert forall|x: CallView| #[trigger]
        crate::sort::ties(a, x, le) == crate::sort::ties(b, x, le) by {
        lemma_ties_by_file(a, x);
        lemma_ties_by_file(b, x);
        assert(calls_in_file(a, x.path) == calls_in_file(b, x.path));
    }
    crate::sort::law_sort_ignores_the_rest(a, b, le);
}

/// The calls of the files, one file after the other.
pub open spec fn joined(files: Seq<(Seq<char>, Seq<CallView>)>) -> Seq<CallView>
    decreases files.len(),
{
    if files.len() == 0 {
        Seq::empty()
    } else {
        joined(files.drop_last()) + files.last().1
    }
}

/// Each file has the calls that stand in it, and no file is there twice.
pub open spec fn by_file(files: Seq<(Seq<char>, Seq<CallView>)>) -> bool {
    &&& forall|i: int, k: int|
        0 <= i < files.len() && 0 <= k < files[i].1.len() ==> same_path(
            (#[trigger] files[i].1[k]).path,
            files[i].0,
        )
    &&& forall|i: int, j: int|
        0 <= i < j < files.len() ==> !same_path((#[trigger] files[i]).0, (#[trigger] files[j]).0)
}

proof fn lemma_filter_all(s: Seq<CallView>, p: spec_fn(CallView) -> bool)
    ensures
        (forall|i: int| 0 <= i < s.len() ==> p(#[trigger] s[i])) ==> s.filter(p) == s,
        (forall|i: int| 0 <= i < s.len() ==> !p(#[trigger] s[i])) ==> s.filter(p).len() == 0,
    decreases s.len(),
{
    reveal(Seq::filter);
    if s.len() > 0 {
        let t = s.drop_last();
        lemma_filter_all(t, p);
        assert(s =~= t.push(s.last()));
        assert(p(s[s.len() - 1]) == p(s.last()));
        if forall|i: int| 0 <= i < s.len() ==> p(#[trigger] s[i]) {
            assert forall|i: int| 0 <= i < t.len() implies p(#[trigger] t[i]) by {
                assert(p(s[i]));
            }
        }
        if forall|i: int| 0 <= i < s.len() ==> !p(#[trigger] s[i]) {
            assert forall|i: int| 0 <= i < t.len() implies !p(#[trigger] t[i]) by {
                assert(!p(s[i]));
            }
        }
    }
}

/// Of a file, the calls of all files hold those of that file.
proof fn lemma_joined(files: Seq<(Seq<char>, Seq<CallView>)>, path: Seq<char>)
    requires
        by_file(files),
    ensures
        forall|i: int|
            0 <= i < files.len() && same_path((#[trigger] files[i]).0, path) ==> calls_in_file(
                joined(files),
                path,
            ) == files[i].1,
        (forall|i: int| 0 <= i < files.len() ==> !same_path((#[trigger] files[i]).0, path))
            ==> calls_in_file(joined(files), path).len() == 0,
    decreases files.len(),
{
    reveal(Seq::filter);
    if files.len() > 0 {
        let t = files.drop_last();
        let n = files.len() - 1;
        let last = files[n];
        let p = |c: CallView| same_path(c.path, path);
        assert(by_file(t)) by {
            assert forall|i: int, k: int|
                0 <= i < t.len() && 0 <= k < t[i].1.len() implies same_path(
                (#[trigger] t[i].1[k]).path,
                t[i].0,
            ) by {
                assert(same_path(files[i].1[k].path, files[i].0));
            }
            assert forall|i: int, j: int| 0 <= i < j < t.len() implies !same_path(
                (#[trigger] t[i]).0,
                (#[trigger] t[j]).0,
            ) by {
                assert(!same_path(files[i].0, files[j].0));
            }
        }
        lemma_joined(t, path);
        Seq::filter_distributes_over_add(joined(t), last.1, p);
        lemma_filter_all(last.1, p);
        let rest = calls_in_file(joined(t), path);
        let own = last.1.filter(p);
        assert(calls_in_file(joined(files), path) == rest + own);
        assert forall|k: int| 0 <= k < last.1.len() implies p(#[trigger] last.1[k]) == same_path(
            last.0,
            path,
        ) by {
            assert(same_path(files[n].1[k].path, files[n].0));
        }
        if same_path(last.0, path) {
            assert forall|i: int| 0 <= i < t.len() implies !same_path((#[trigger] t[i]).0, path) by {
                assert(!same_path(files[i].0, files[n].0));
            }
            assert(rest + own =~= last.1);
        } else {
            assert(rest + own =~= rest);
        }
        assert forall|i: int|
            0 <= i < files.len() && same_path((#[trigger] files[i]).0, path) implies calls_in_file(
            joined(files),
            path,
        ) == files[i].1 by {
            if i < n {
                assert(t[i] == files[i]);
                assert(!same_path(files[i].0, files[n].0));
            }
        }
        if forall|i: int| 0 <= i < files.len() ==> !same_path((#[trigger] files[i]).0, path) {
            assert forall|i: int| 0 <= i < t.len() implies !same_path((#[trigger] t[i]).0, path) by {
                assert(t[i] == files[i]);
            }
            assert(!same_path(files[n].0, path));
        }
    }
}

/// Two lists that join the calls of the same files, in whatever order of the files,
/// hold the calls of each file in the same order.
pub proof fn law_files_in_any_order(
    a: Seq<(Seq<char>, Seq<CallView>)>,
    b: Seq<(Seq<char>, Seq<CallView>)>,
)
    requires
        by_file(a),
        by_file(b),
        a.to_multiset() == b.to_multiset(),
    ensures
        same_by_file(joined(a), joined(b)),
{
    broadcast use vstd::seq_lib::group_to_multiset_ensures;

    assert forall|path: Seq<char>| #[trigger]
        calls_in_file(joined(a), path) == calls_in_file(joined(b), path) by {
        lemma_joined(a, path);
        lemma_joined(b, path);
        if exists|i: int| 0 <= i < a.len() && same_path((#[trigger] a[i]).0, path) {
            let i = choose|i: int| 0 <= i < a.len() && same_path((#[trigger] a[i]).0, path);
            assert(a.contains(a[i]));
            assert(b.to_multiset().count(a[i]) > 0);
            assert(b.contains(a[i]));
            let j = choose|j: int| 0 <= j < b.len() && b[j] == a[i];
            assert(same_path(b[j].0, path));
        } else {
            assert forall|j: int| 0 <= j < b.len() implies !same_path((#[trigger] b[j]).0, path) by {
                assert(b.contains(b[j]));
                assert(a.to_multiset().count(b[j]) > 0);
                assert(a.contains(b[j]));
                let i = choose|i: int| 0 <= i < a.len() && a[i] == b[j];
                assert(a[i].0 == b[j].0);
            }
            assert(calls_in_file(joined(a), path) =~= calls_in_file(joined(b), path));
        }
    }
}

/// Every hub that the walk found by itself is listed as promoted, in order.
pub open spec fn hubs_listed(w: WalkView) -> bool {
    w.auto_hubs == w.stats.auto_hubs_promoted.map_values(|p: (Seq<char>, int)| p.0)
}

/// The hubs are listed at the start, and every hop keeps the list complete.
pub proof fn law_hubs_listed(
    target: Seq<char>,
    w: WalkView,
    hubs: Seq<Seq<char>>,
    max_frontier: int,
    calls: Seq<CallView>,
    max_edges: int,
)
    ensures
        hubs_listed(start(target)),
        hubs_listed(w) ==> hubs_listed(begin_hop(w, hubs, max_frontier)),
        hubs_listed(w) ==> hubs_listed(end_hop(w, calls, max_edges)),
{
    let name = |p: (Seq<char>, int)| p.0;
    let s = start(target);
    assert(s.auto_hubs =~= s.stats.auto_hubs_promoted.map_values(name));
    if hubs_listed(w) {
        let b = begin_hop(w, hubs, max_frontier);
        let e = end_hop(w, calls, max_edges);
        assert(b.auto_hubs =~= b.stats.auto_hubs_promoted.map_values(name));
        assert(e.auto_hubs =~= e.stats.auto_hubs_promoted.map_values(name));
    }
}

proof fn lemma_fresh_hubs(names: Seq<Seq<char>>, auto: Seq<Seq<char>>)
    ensures
        forall|i: int|
            0 <= i < names.len() ==> auto.contains(#[trigger] names[i]) || fresh_hubs(
                names,
                auto,
            ).contains(names[i]),
    decreases names.len(),
{
    if names.len() > 0 {
        let t = names.drop_last();
        lemma_fresh_hubs(t, auto);
        let q = fresh_hubs(t, auto);
        let r = fresh_hubs(names, auto);
        assert forall|i: int| 0 <= i < names.len() implies auto.contains(#[trigger] names[i])
            || r.contains(names[i]) by {
            if i < t.len() {
                assert(t[i] == names[i]);
                if q.contains(names[i]) {
                    let k = choose|k: int| 0 <= k < q.len() && q[k] == names[i];
                    assert(r[k] == names[i]);
                }
            } else if !auto.contains(names[i]) && !q.contains(names[i]) {
                assert(r[q.len() as int] == names[i]);
            }
        }
    }
}

/// Every symbol that is cut off a frontier that is too large becomes a hub, and is
/// listed as promoted.
pub proof fn law_excess_is_promoted(w: WalkView, hubs: Seq<Seq<char>>, max_frontier: int, i: int)
    requires
        hubs_listed(w),
        0 <= max_frontier <= i < candidates(w, hubs).len(),
        w.frontier.len() > 0,
    ensures
        begin_hop(w, hubs, max_frontier).auto_hubs.contains(candidates(w, hubs)[i]),
        exists|k: int|
            0 <= k < begin_hop(w, hubs, max_frontier).stats.auto_hubs_promoted.len() && (
            #[trigger] begin_hop(w, hubs, max_frontier).stats.auto_hubs_promoted[k]).0
                == candidates(w, hubs)[i],
{
    let kept = candidates(w, hubs);
    let excess = kept.skip(max_frontier);
    let b = begin_hop(w, hubs, max_frontier);
    let fresh = fresh_hubs(excess, w.auto_hubs);
    lemma_fresh_hubs(excess, w.auto_hubs);
    assert(excess[i - max_frontier] == kept[i]);
    lemma_joined_contains(w.auto_hubs, fresh, kept[i]);
    law_hubs_listed(Seq::empty(), w, hubs, max_frontier, Seq::empty(), 0);
    let k = choose|k: int| 0 <= k < b.auto_hubs.len() && b.auto_hubs[k] == kept[i];
    assert(b.stats.auto_hubs_promoted[k].0 == kept[i]);
}

/// A frontier never exceeds its bound.
pub proof fn law_frontier_bounded(w: WalkView, hubs: Seq<Seq<char>>, max_frontier: int)
    requires
        0 <= max_frontier,
    ensures
        begin_hop(w, hubs, max_frontier).frontier.len() <= max_frontier || begin_hop(
            w,
            hubs,
            max_frontier,
        ).over,
{
}

/// The edges are within their bound.
pub open spec fn edges_bounded(w: WalkView, max_edges: int) -> bool {
    w.edges.len() <= max_edges
}

proof fn lemma_take_bounded(h: HopView, hop: int, calls: Seq<CallView>, max_edges: int)
    ensures
        ({
            let r = take_calls(h, hop, calls, max_edges);
            &&& h.edges.is_prefix_of(r.edges)
            &&& forall|i: int|
                h.edges.len() <= i < r.edges.len() ==> (#[trigger] r.edges[i]).hop == hop
            &&& h.edges.len() <= max_edges ==> r.edges.len() <= max_edges
        }),
    decreases calls.len(),
{
    if calls.len() > 0 {
        lemma_take_bounded(h, hop, calls.drop_last(), max_edges);
        let q = take_calls(h, hop, calls.drop_last(), max_edges);
        let r = take_calls(h, hop, calls, max_edges);
        if !q.cut {
            assert(h.edges =~= r.edges.subrange(0, h.edges.len() as int)) by {
                assert(h.edges =~= q.edges.subrange(0, h.edges.len() as int));
                assert forall|i: int| 0 <= i < h.edges.len() implies h.edges[i] == r.edges[i] by {
                    assert(q.edges.subrange(0, h.edges.len() as int)[i] == q.edges[i]);
                }
            }
        }
    } else {
        assert(h.edges =~= h.edges.subrange(0, h.edges.len() as int));
    }
}

/// The bound on the edges holds at the start and is kept by every hop.
pub proof fn law_edges_bounded(
    target: Seq<char>,
    w: WalkView,
    hubs: Seq<Seq<char>>,
    max_frontier: int,
    calls: Seq<CallView>,
    max_edges: int,
)
    requires
        0 <= max_edges,
    ensures
        edges_bounded(start(target), max_edges),
        edges_bounded(w, max_edges) ==> edges_bounded(begin_hop(w, hubs, max_frontier), max_edges),
        edges_bounded(w, max_edges) ==> edges_bounded(end_hop(w, calls, max_edges), max_edges),
{
    lemma_take_bounded(open_hop(w), w.hop, stable_sort(calls, call_order()), max_edges);
}

/// A hop keeps the edges that there were and adds edges of its own number only.
pub proof fn law_hop_adds_edges(w: WalkView, calls: Seq<CallView>, max_edges: int)
    ensures
        w.edges.is_prefix_of(end_hop(w, calls, max_edges).edges),
        forall|i: int|
            w.edges.len() <= i < end_hop(w, calls, max_edges).edges.len() ==> (
            #[trigger] end_hop(w, calls, max_edges).edges[i]).hop == w.hop,
{
    lemma_take_bounded(open_hop(w), w.hop, stable_sort(calls, call_order()), max_edges);
}

/// The walk after one hop, where `callers` tells what calls the symbols of a
/// frontier.
pub open spec fn one_hop(
    w: WalkView,
    hubs: Seq<Seq<char>>,
    max_frontier: int,
    max_edges: int,
    callers: spec_fn(Seq<Seq<char>>) -> Seq<CallView>,
) -> WalkView {
    if w.over {
        w
    } else {
        let b = begin_hop(w, hubs, max_frontier);
        if b.over {
            b
        } else {
            end_hop(b, callers(b.frontier), max_edges)
        }
    }
}

/// The walk after at most `depth` hops.
pub open spec fn walk(
    target: Seq<char>,
    hubs: Seq<Seq<char>>,
    max_frontier: int,
    max_edges: int,
    callers: spec_fn(Seq<Seq<char>>) -> Seq<CallView>,
    depth: nat,
) -> WalkView
    decreases depth,
{
    if depth == 0 {
        start(target)
    } else {
        one_hop(
            walk(target, hubs, max_frontier, max_edges, callers, (depth - 1) as nat),
            hubs,
            max_frontier,
            max_edges,
            callers,
        )
    }
}

/// A walk never finds more edges than its bound, whatever the bound is.
pub proof fn law_walk_bounded(
    target: Seq<char>,
    hubs: Seq<Seq<char>>,
    max_frontier: int,
    max_edges: int,
    callers: spec_fn(Seq<Seq<char>>) -> Seq<CallView>,
    depth: nat,
)
    requires
        0 <= max_edges,
    ensures
        edges_bounded(walk(target, hubs, max_frontier, max_edges, callers, depth), max_edges),
    decreases depth,
{
    if depth > 0 {
        law_walk_bounded(target, hubs, max_frontier, max_edges, callers, (depth - 1) as nat);
        let w = walk(target, hubs, max_frontier, max_edges, callers, (depth - 1) as nat);
        let b = begin_hop(w, hubs, max_frontier);
        law_edges_bounded(target, w, hubs, max_frontier, Seq::empty(), max_edges);
        law_edges_bounded(target, b, hubs, max_frontier, callers(b.frontier), max_edges);
    }
}

/// Two walks with the same bounds find the same, in the same order, and say the same of
/// it, whatever the order in which the files were searched.
pub proof fn law_walk_is_deterministic(
    target: Seq<char>,
    hubs: Seq<Seq<char>>,
    max_frontier: int,
    max_edges: int,
    one: spec_fn(Seq<Seq<char>>) -> Seq<CallView>,
    other: spec_fn(Seq<Seq<char>>) -> Seq<CallView>,
    depth: nat,
)
    requires
        forall|f: Seq<Seq<char>>| same_by_file(#[trigger] one(f), other(f)),
    ensures
        walk(target, hubs, max_frontier, max_edges, one, depth) == walk(
            target,
            hubs,
            max_frontier,
            max_edges,
            other,
            depth,
        ),
    decreases depth,
{
    if depth > 0 {
        let d = (depth - 1) as nat;
        law_walk_is_deterministic(target, hubs, max_frontier, max_edges, one, other, d);
        let w = walk(target, hubs, max_frontier, max_edges, one, d);
        let b = begin_hop(w, hubs, max_frontier);
        law_hop_ignores_file_order(b, one(b.frontier), other(b.frontier), max_edges);
    }
}

/// A deeper walk finds what a shallower one finds, in the same order, and more at
/// most.
pub proof fn law_deeper_walk_extends(
    target: Seq<char>,
    hubs: Seq<Seq<char>>,
    max_frontier: int,
    max_edges: int,
    callers: spec_fn(Seq<Seq<char>>) -> Seq<CallView>,
    shallow: nat,
    deep: nat,
)
    requires
        shallow <= deep,
    ensures
        walk(target, hubs, max_frontier, max_edges, callers, shallow).edges.is_prefix_of(
            walk(target, hubs, max_frontier, max_edges, callers, deep).edges,
        ),
    decreases deep,
{
    let a = walk(target, hubs, max_frontier, max_edges, callers, shallow);
    if shallow == deep {
        assert(a.edges =~= a.edges.subrange(0, a.edges.len() as int));
    } else {
        let m = (deep - 1) as nat;
        law_deeper_walk_extends(target, hubs, max_frontier, max_edges, callers, shallow, m);
        let w = walk(target, hubs, max_frontier, max_edges, callers, m);
        let d = walk(target, hubs, max_frontier, max_edges, callers, deep);
        let b = begin_hop(w, hubs, max_frontier);
        if !w.over && !b.over {
            law_hop_adds_edges(b, callers(b.frontier), max_edges);
            assert(w.edges =~= d.edges.subrange(0, w.edges.len() as int));
        } else {
            assert(d.edges == w.edges);
        }
        assert forall|i: int| 0 <= i < a.edges.len() implies a.edges[i] == d.edges[i] by {
            assert(a.edges[i] == w.edges.subrange(0, a.edges.len() as int)[i]);
            if !w.over && !b.over {
                assert(w.edges[i] == d.edges.subrange(0, w.edges.len() as int)[i]);
            }
        }
        assert(a.edges =~= d.edges.subrange(0, a.edges.len() as int));
    }
}

/// Those of the edges that the hop found.
pub open spec fn edges_of_hop(edges: Seq<EdgeView>, hop: int) -> Seq<EdgeView> {
    edges.filter(|e: EdgeView| e.hop == hop)
}

proof fn lemma_walk_hop(
    target: Seq<char>,
    hubs: Seq<Seq<char>>,
    max_frontier: int,
    max_edges: int,
    callers: spec_fn(Seq<Seq<char>>) -> Seq<CallView>,
    depth: nat,
)
    ensures
        ({
            let w = walk(target, hubs, max_frontier, max_edges, callers, depth);
            w.over || w.hop == depth
        }),
    decreases depth,
{
    if depth > 0 {
        lemma_walk_hop(target, hubs, max_frontier, max_edges, callers, (depth - 1) as nat);
    }
}

proof fn lemma_other_hop(edges: Seq<EdgeView>, more: Seq<EdgeView>, hop: int)
    requires
        edges.is_prefix_of(more),
        forall|i: int| edges.len() <= i < more.len() ==> (#[trigger] more[i]).hop != hop,
    ensures
        edges_of_hop(more, hop) == edges_of_hop(edges, hop),
    decreases more.len(),
{
    reveal(Seq::filter);
    if more.len() == edges.len() {
        assert(edges =~= more);
    } else {
        let t = more.drop_last();
        assert(edges =~= t.subrange(0, edges.len() as int)) by {
            assert forall|i: int| 0 <= i < edges.len() implies edges[i] == t[i] by {
                assert(edges[i] == more.subrange(0, edges.len() as int)[i]);
            }
        }
        lemma_other_hop(edges, t, hop);
        assert(more[more.len() - 1].hop != hop);
    }
}

proof fn lemma_edge_order()
    ensures
        crate::sort::is_preorder(edge_order()),
{
    let le = edge_order();
    assert forall|a: EdgeView, b: EdgeView| #[trigger] le(a, b) || le(b, a) by {
        lemma_place_total(
            a.from_file,
            a.from_line,
            a.to,
            a.from,
            b.from_file,
            b.from_line,
            b.to,
            b.from,
        );
    }
    assert forall|a: EdgeView, b: EdgeView, c: EdgeView| #[trigger]
        le(a, b) && #[trigger] le(b, c) implies le(a, c) by {
        if a.hop == b.hop && b.hop == c.hop {
            lemma_place_trans(
                a.from_file,
                a.from_line,
                a.to,
                a.from,
                b.from_file,
                b.from_line,
                b.to,
                b.from,
                c.from_file,
                c.from_line,
                c.to,
                c.from,
            );
        }
    }
}

/// The edges of a hop are the same at every depth that reaches it, and stand in the same
/// order; those of the first hop at every depth but none.
pub proof fn law_hops_do_not_depend_on_depth(
    target: Seq<char>,
    hubs: Seq<Seq<char>>,
    max_frontier: int,
    max_edges: int,
    callers: spec_fn(Seq<Seq<char>>) -> Seq<CallView>,
    hop: nat,
    depth: nat,
)
    requires
        hop <= depth,
    ensures
        edges_of_hop(
            found_edges(walk(target, hubs, max_frontier, max_edges, callers, depth)),
            hop as int,
        ) == edges_of_hop(
            found_edges(walk(target, hubs, max_frontier, max_edges, callers, hop)),
            hop as int,
        ),
    decreases depth,
{
    if hop < depth {
        let m = (depth - 1) as nat;
        law_hops_do_not_depend_on_depth(target, hubs, max_frontier, max_edges, callers, hop, m);
        lemma_walk_hop(target, hubs, max_frontier, max_edges, callers, m);
        let w = walk(target, hubs, max_frontier, max_edges, callers, m);
        let d = walk(target, hubs, max_frontier, max_edges, callers, depth);
        let b = begin_hop(w, hubs, max_frontier);
        if !w.over && !b.over {
            law_hop_adds_edges(b, callers(b.frontier), max_edges);
        } else {
            assert(w.edges =~= w.edges.subrange(0, w.edges.len() as int));
        }
        lemma_other_hop(w.edges, d.edges, hop as int);
        let p = |e: EdgeView| e.hop == hop as int;
        lemma_edge_order();
        crate::sort::law_sort_then_pick(w.edges, edge_order(), p);
        crate::sort::law_sort_then_pick(d.edges, edge_order(), p);
    }
}

/// A hop enters a function into the next frontier only where it was not visited
/// before the hop.
pub proof fn law_frontier_is_fresh(w: WalkView, calls: Seq<CallView>, max_edges: int, i: int)
    requires
        !end_hop(w, calls, max_edges).over,
        0 <= i < end_hop(w, calls, max_edges).frontier.len(),
    ensures
        exists|c: CallView| #[trigger]
            stable_sort(calls, call_order()).contains(c) && c.from == end_hop(
                w,
                calls,
                max_edges,
            ).frontier[i] && c.from != top_level() && !visited(w.visited, c.from, c.path),
{
    let sorted = stable_sort(calls, call_order());
    lemma_fresh(open_hop(w), w.hop, sorted, max_edges);
    let h = take_calls(open_hop(w), w.hop, sorted, max_edges);
    assert(h.next.contains(h.next[i]));
}

spec fn from_call(h: HopView, calls: Seq<CallView>, c: CallView, name: Seq<char>) -> bool {
    calls.contains(c) && c.from == name && c.from != top_level() && !visited(
        h.visited,
        c.from,
        c.path,
    )
}

proof fn lemma_fresh(h: HopView, hop: int, calls: Seq<CallView>, max_edges: int)
    requires
        h.next.len() == 0,
    ensures
        ({
            let r = take_calls(h, hop, calls, max_edges);
            &&& forall|name: Seq<char>| #[trigger]
                r.next.contains(name) ==> exists|c: CallView| from_call(h, calls, c, name)
            &&& forall|name: Seq<char>, path: Seq<char>|
                visited(h.visited, name, path) ==> #[trigger] visited(r.visited, name, path)
        }),
    decreases calls.len(),
{
    if calls.len() > 0 {
        let t = calls.drop_last();
        lemma_fresh(h, hop, t, max_edges);
        let q = take_calls(h, hop, t, max_edges);
        let r = take_calls(h, hop, calls, max_edges);
        let last = calls.last();
        assert(calls.contains(last)) by {
            assert(calls[calls.len() - 1] == last);
        }
        assert forall|name: Seq<char>| #[trigger] r.next.contains(name) implies exists|c: CallView|
            from_call(h, calls, c, name) by {
            if q.next.contains(name) {
                let c = choose|c: CallView| from_call(h, t, c, name);
                let k = choose|k: int| 0 <= k < t.len() && t[k] == c;
                assert(calls[k] == c);
                assert(from_call(h, calls, c, name));
            } else {
                let k = choose|k: int| 0 <= k < r.next.len() && r.next[k] == name;
                if k < q.next.len() {
                    assert(q.next[k] == name);
                }
                assert(last.from == name);
                if visited(h.visited, last.from, last.path) {
                    assert(visited(q.visited, last.from, last.path));
                }
                assert(from_call(h, calls, last, name));
            }
        }
        assert forall|name: Seq<char>, path: Seq<char>|
            visited(h.visited, name, path) implies #[trigger] visited(r.visited, name, path) by {
            assert(visited(q.visited, name, path));
            let k = choose|k: int|
                0 <= k < q.visited.len() && (#[trigger] q.visited[k]).name == name && same_path(
                    q.visited[k].path,
                    path,
                );
            assert(r.visited[k] == q.visited[k]);
        }
    }
}

/// The edge is the call, found at the hop.
pub open spec fn records(e: EdgeView, hop: int, c: CallView) -> bool {
    &&& e.hop == hop
    &&& e.from == c.from
    &&& e.from_file == c.path
    &&& e.from_line == c.line
    &&& e.to == c.to
}

/// As long as it is not cut, a hop takes in every call: an edge and a hit for each,
/// and each caller that is a function and was not visited.
proof fn lemma_takes_all(h: HopView, hop: int, calls: Seq<CallView>, max_edges: int)
    requires
        !h.cut,
    ensures
        ({
            let r = take_calls(h, hop, calls, max_edges);
            &&& h.edges.len() + calls.len() < max_edges ==> !r.cut
            &&& r.cut ==> r.edges.len() >= max_edges
            &&& !r.cut ==> {
                &&& r.edges.len() == h.edges.len() + calls.len()
                &&& forall|i: int|
                    0 <= i < calls.len() ==> records(
                        #[trigger] r.edges[h.edges.len() + i],
                        hop,
                        calls[i],
                    )
                &&& r.hits == h.hits + calls.map_values(|c: CallView| c.to)
                &&& forall|i: int|
                    0 <= i < calls.len() ==> (#[trigger] calls[i]).from == "<top-level>"@
                        || visited(h.visited, calls[i].from, calls[i].path) || r.next.contains(
                        calls[i].from,
                    )
                &&& forall|name: Seq<char>, path: Seq<char>| #[trigger]
                    visited(r.visited, name, path) ==> visited(h.visited, name, path)
                        || r.next.contains(name)
                &&& forall|i: int|
                    0 <= i < calls.len() && (#[trigger] calls[i]).from != "<top-level>"@ ==> visited(
                        r.visited,
                        calls[i].from,
                        calls[i].path,
                    )
            }
        }),
    decreases calls.len(),
{
    if calls.len() > 0 {
        let t = calls.drop_last();
        let c = calls.last();
        lemma_takes_all(h, hop, t, max_edges);
        let q = take_calls(h, hop, t, max_edges);
        let r = take_calls(h, hop, calls, max_edges);
        if !r.cut {
            assert forall|i: int| 0 <= i < calls.len() implies records(
                #[trigger] r.edges[h.edges.len() + i],
                hop,
                calls[i],
            ) by {
                if i < t.len() {
                    assert(records(q.edges[h.edges.len() + i], hop, t[i]));
                }
            }
            assert(r.hits =~= h.hits + calls.map_values(|c: CallView| c.to));
            assert forall|name: Seq<char>| q.next.contains(name) implies #[trigger] r.next.contains(
                name,
            ) by {
                let k = choose|k: int| 0 <= k < q.next.len() && q.next[k] == name;
                assert(r.next[k] == name);
            }
            assert forall|name: Seq<char>, path: Seq<char>|
                visited(q.visited, name, path) implies #[trigger] visited(r.visited, name, path) by {
                let k = choose|k: int|
                    0 <= k < q.visited.len() && (#[trigger] q.visited[k]).name == name && same_path(
                        q.visited[k].path,
                        path,
                    );
                assert(r.visited[k] == q.visited[k]);
            }
            let enters = c.from != "<top-level>"@ && !visited(q.visited, c.from, c.path);
            if enters {
                assert(r.visited[q.visited.len() as int] == (SiteView {
                    name: c.from,
                    path: c.path,
                }));
                assert(visited(r.visited, c.from, c.path));
                if !q.next.contains(c.from) {
                    assert(r.next[q.next.len() as int] == c.from);
                }
                assert(r.next.contains(c.from));
            }
            assert forall|name: Seq<char>, path: Seq<char>| #[trigger]
                visited(r.visited, name, path) implies visited(h.visited, name, path)
                || r.next.contains(name) by {
                let k = choose|k: int|
                    0 <= k < r.visited.len() && (#[trigger] r.visited[k]).name == name && same_path(
                        r.visited[k].path,
                        path,
                    );
                if k < q.visited.len() {
                    assert(q.visited[k] == r.visited[k]);
                    assert(visited(q.visited, name, path));
                }
            }
            assert forall|i: int| 0 <= i < calls.len() implies (#[trigger] calls[i]).from
                == "<top-level>"@ || visited(h.visited, calls[i].from, calls[i].path)
                || r.next.contains(calls[i].from) by {
                if i < t.len() {
                    assert(t[i] == calls[i]);
                }
            }
            assert forall|i: int|
                0 <= i < calls.len() && (#[trigger] calls[i]).from != "<top-level>"@ implies visited(
                r.visited,
                calls[i].from,
                calls[i].path,
            ) by {
                if i < t.len() {
                    assert(t[i] == calls[i]);
                }
            }
        }
    } else {
        assert(h.hits + calls.map_values(|c: CallView| c.to) =~= h.hits);
    }
}

/// A hop that the bound on the edges does not cut hands every caller on: whatever
/// function calls a symbol of the frontier, and was not visited in its file before
/// the hop, is in the next frontier, and counts as visited from then on.
pub proof fn law_frontier_is_complete(w: WalkView, calls: Seq<CallView>, max_edges: int, c: CallView)
    requires
        !end_hop(w, calls, max_edges).over,
        calls.contains(c),
        c.from != "<top-level>"@,
    ensures
        visited(w.visited, c.from, c.path) || end_hop(w, calls, max_edges).frontier.contains(c.from),
        visited(end_hop(w, calls, max_edges).visited, c.from, c.path),
{
    let sorted = stable_sort(calls, call_order());
    crate::sort::law_sort_keeps_members(calls, call_order(), c);
    lemma_takes_all(open_hop(w), w.hop, sorted, max_edges);
    let i = choose|i: int| 0 <= i < sorted.len() && sorted[i] == c;
    assert(sorted[i].from == c.from);
}

/// Calls outside of any function lead nowhere.
pub proof fn law_top_level_ends_a_chain(w: WalkView, calls: Seq<CallView>, max_edges: int)
    requires
        !end_hop(w, calls, max_edges).over,
    ensures
        !end_hop(w, calls, max_edges).frontier.contains("<top-level>"@),
{
    let f = end_hop(w, calls, max_edges).frontier;
    if f.contains("<top-level>"@) {
        let i = choose|i: int| 0 <= i < f.len() && f[i] == "<top-level>"@;
        law_frontier_is_fresh(w, calls, max_edges, i);
    }
}

/// A hop that the bound on the edges does not cut finds one edge for each call, and
/// no other.
pub proof fn law_hop_finds_every_call(w: WalkView, calls: Seq<CallView>, max_edges: int, c: CallView)
    requires
        !end_hop(w, calls, max_edges).over,
        calls.contains(c),
    ensures
        end_hop(w, calls, max_edges).edges.len() == w.edges.len() + calls.len(),
        exists|i: int|
            w.edges.len() <= i < end_hop(w, calls, max_edges).edges.len() && records(
                #[trigger] end_hop(w, calls, max_edges).edges[i],
                w.hop,
                c,
            ),
{
    let sorted = stable_sort(calls, call_order());
    crate::sort::law_sort_keeps_members(calls, call_order(), c);
    crate::sort::law_sort_keeps_elements(calls, call_order());
    lemma_takes_all(open_hop(w), w.hop, sorted, max_edges);
    let i = choose|i: int| 0 <= i < sorted.len() && sorted[i] == c;
    let e = end_hop(w, calls, max_edges);
    assert(records(e.edges[w.edges.len() + i], w.hop, c));
}

/// Every edge that a hop adds is one of the calls.
pub proof fn law_edges_are_calls(w: WalkView, calls: Seq<CallView>, max_edges: int, i: int)
    requires
        w.edges.len() <= i < end_hop(w, calls, max_edges).edges.len(),
    ensures
        exists|c: CallView| #[trigger]
            calls.contains(c) && records(end_hop(w, calls, max_edges).edges[i], w.hop, c),
{
    let sorted = stable_sort(calls, call_order());
    lemma_edges_from_calls(open_hop(w), w.hop, sorted, max_edges, i);
    let k = choose|k: int|
        0 <= k < sorted.len() && records(
            end_hop(w, calls, max_edges).edges[i],
            w.hop,
            #[trigger] sorted[k],
        );
    assert(sorted.contains(sorted[k]));
    crate::sort::law_sort_keeps_members(calls, call_order(), sorted[k]);
}

proof fn lemma_edges_from_calls(
    h: HopView,
    hop: int,
    calls: Seq<CallView>,
    max_edges: int,
    i: int,
)
    requires
        h.edges.len() <= i < take_calls(h, hop, calls, max_edges).edges.len(),
    ensures
        exists|k: int|
            0 <= k < calls.len() && records(
                take_calls(h, hop, calls, max_edges).edges[i],
                hop,
                #[trigger] calls[k],
            ),
    decreases calls.len(),
{
    let t = calls.drop_last();
    let q = take_calls(h, hop, t, max_edges);
    let r = take_calls(h, hop, calls, max_edges);
    if i < q.edges.len() {
        lemma_edges_from_calls(h, hop, t, max_edges, i);
        let k = choose|k: int| 0 <= k < t.len() && records(q.edges[i], hop, #[trigger] t[k]);
        assert(records(r.edges[i], hop, calls[k]));
    } else {
        assert(records(r.edges[i], hop, calls[calls.len() - 1]));
    }
}

/// The bound on the edges ends a walk exactly where a hop reaches it: a hop with
/// fewer calls than there is room for leaves the walk going on, and one that ends
/// the walk has used up the room.
pub proof fn law_edge_bound_ends_the_walk(w: WalkView, calls: Seq<CallView>, max_edges: int)
    requires
        !w.over,
    ensures
        w.edges.len() + calls.len() < max_edges ==> !end_hop(w, calls, max_edges).over,
        w.edges.len() + calls.len() >= max_edges && calls.len() > 0 ==> end_hop(
            w,
            calls,
            max_edges,
        ).over,
        end_hop(w, calls, max_edges).over ==> end_hop(w, calls, max_edges).edges.len() >= max_edges
            && end_hop(w, calls, max_edges).stats.edges_cut_at_hop == Some(w.hop as usize),
        !end_hop(w, calls, max_edges).over ==> end_hop(w, calls, max_edges).stats.edges_cut_at_hop
            == w.stats.edges_cut_at_hop,
{
    let sorted = stable_sort(calls, call_order());
    crate::sort::law_sort_keeps_elements(calls, call_order());
    lemma_takes_all(open_hop(w), w.hop, sorted, max_edges);
    if calls.len() > 0 && w.edges.len() + calls.len() >= max_edges {
        lemma_full_is_cut(open_hop(w), w.hop, sorted, max_edges);
    }
}

proof fn lemma_full_is_cut(h: HopView, hop: int, calls: Seq<CallView>, max_edges: int)
    requires
        !h.cut,
        calls.len() > 0,
        h.edges.len() + calls.len() >= max_edges,
    ensures
        take_calls(h, hop, calls, max_edges).cut,
{
    lemma_takes_all(h, hop, calls.drop_last(), max_edges);
}

/// A symbol that is no hub does not get lost between two hops: it is explored, or it
/// is cut off and becomes a hub. It is explored wherever the frontier is within its
/// bound. The first hop explores hubs as well.
pub proof fn law_symbols_are_explored(
    w: WalkView,
    hubs: Seq<Seq<char>>,
    max_frontier: int,
    s: Seq<char>,
)
    requires
        w.frontier.contains(s),
        w.hop == 0 || (!hubs.contains(s) && !w.auto_hubs.contains(s)),
        0 <= max_frontier,
    ensures
        begin_hop(w, hubs, max_frontier).hop == w.hop + 1,
        begin_hop(w, hubs, max_frontier).frontier.contains(s) || begin_hop(
            w,
            hubs,
            max_frontier,
        ).auto_hubs.contains(s),
        w.frontier.len() <= max_frontier ==> begin_hop(w, hubs, max_frontier).frontier.contains(s),
        0 < max_frontier ==> !begin_hop(w, hubs, max_frontier).over,
{
    reveal(Seq::filter);
    let f = w.frontier;
    let no = |s: Seq<char>| !hubs.contains(s) && !w.auto_hubs.contains(s);
    let i = choose|i: int| 0 <= i < f.len() && f[i] == s;
    let rest = if w.hop == 0 {
        f
    } else {
        f.filter(no)
    };
    assert(rest.contains(s)) by {
        if w.hop != 0 {
            f.lemma_filter_contains(no, i);
        }
    }
    f.lemma_filter_len(no);
    let kept = candidates(w, hubs);
    assert(kept == stable_sort(rest, name_order()));
    crate::sort::law_sort_keeps_members(rest, name_order(), s);
    crate::sort::law_sort_keeps_elements(rest, name_order());
    let k = choose|k: int| 0 <= k < kept.len() && kept[k] == s;
    let b = begin_hop(w, hubs, max_frontier);
    if kept.len() > max_frontier {
        if k < max_frontier {
            assert(b.frontier[k] == s);
        } else {
            let excess = kept.skip(max_frontier);
            lemma_fresh_hubs(excess, w.auto_hubs);
            assert(excess[k - max_frontier] == s);
            lemma_joined_contains(w.auto_hubs, fresh_hubs(excess, w.auto_hubs), s);
        }
    } else {
        assert(b.frontier[k] == s);
    }
}

/// A hop explores symbols of its frontier only, each as often as it is there, and
/// from the second hop on no hub.
pub proof fn law_explored_are_no_hubs(
    w: WalkView,
    hubs: Seq<Seq<char>>,
    max_frontier: int,
    s: Seq<char>,
)
    requires
        begin_hop(w, hubs, max_frontier).frontier.contains(s),
        w.frontier.len() > 0,
        0 <= max_frontier,
    ensures
        w.frontier.contains(s),
        w.hop != 0 ==> !hubs.contains(s) && !w.auto_hubs.contains(s),
        begin_hop(w, hubs, max_frontier).frontier.len() <= w.frontier.len(),
{
    let no = |s: Seq<char>| !hubs.contains(s) && !w.auto_hubs.contains(s);
    let rest = if w.hop == 0 {
        w.frontier
    } else {
        w.frontier.filter(no)
    };
    w.frontier.lemma_filter_len(no);
    let kept = candidates(w, hubs);
    assert(kept == stable_sort(rest, name_order()));
    let f = begin_hop(w, hubs, max_frontier).frontier;
    let k = choose|k: int| 0 <= k < f.len() && f[k] == s;
    assert(kept[k] == s);
    crate::sort::law_sort_keeps_members(rest, name_order(), s);
    crate::sort::law_sort_keeps_elements(rest, name_order());
    if w.hop != 0 {
        let j = choose|j: int| 0 <= j < rest.len() && rest[j] == s;
        w.frontier.lemma_filter_pred(no, j);
        w.frontier.lemma_filter_contains_rev(no, s);
    }
}

/// A symbol becomes a hub in a hop that is not cut if two hundred calls of it or
/// more were found, and otherwise stays what it was.
pub proof fn law_busy_symbols_become_hubs(
    w: WalkView,
    calls: Seq<CallView>,
    max_edges: int,
    s: Seq<char>,
)
    requires
        !end_hop(w, calls, max_edges).over,
    ensures
        end_hop(w, calls, max_edges).auto_hubs.contains(s) <==> w.auto_hubs.contains(s)
            || calls.filter(|c: CallView| c.to == s).len() >= 200,
{
    let sorted = stable_sort(calls, call_order());
    lemma_takes_all(open_hop(w), w.hop, sorted, max_edges);
    let h = take_calls(open_hop(w), w.hop, sorted, max_edges);
    let hits = sorted.map_values(|c: CallView| c.to);
    assert(h.hits =~= hits);
    let to_s = |c: CallView| c.to == s;
    lemma_call_order();
    crate::sort::law_sort_then_pick(calls, call_order(), to_s);
    crate::sort::law_sort_keeps_elements(calls.filter(to_s), call_order());
    lemma_hits(sorted, s);
    let n = hits.len() as int;
    crate::groups::law_group_sizes(hits, all_of(n), n, s);
    crate::groups::lemma_grouped(hits, all_of(n), n);
    assert(hits.take(n) =~= hits);
    let groups = by_callee(hits);
    lemma_new_hubs(groups, w.auto_hubs, groups.len() as int);
    let hubs = new_hubs(groups, w.auto_hubs, groups.len() as int);
    let names = hubs.map_values(|p: (Seq<char>, int)| p.0);
    lemma_joined_contains(w.auto_hubs, names, s);
    if names.contains(s) {
        let k = choose|k: int| 0 <= k < names.len() && names[k] == s;
        assert(hubs.contains(hubs[k]));
        let a = choose|a: int|
            0 <= a < groups.len() && (#[trigger] groups[a]).0 == hubs[k].0 && groups[a].1.len()
                >= 200;
        crate::groups::lemma_position(groups, s);
        let p = crate::groups::position(groups, s)->0;
        assert(groups[p].0 == groups[a].0);
        assert(p == a);
    }
    if !w.auto_hubs.contains(s) && calls.filter(to_s).len() >= 200 {
        let p = crate::groups::position(groups, s)->0;
        assert(groups[p].0 == s);
        let pair = (groups[p].0, groups[p].1.len() as int);
        assert(hubs.contains(pair));
        let k = choose|k: int| 0 <= k < hubs.len() && hubs[k] == pair;
        assert(names[k] == s);
    }
}

proof fn lemma_hits(calls: Seq<CallView>, s: Seq<char>)
    ensures
        occurrences(calls.map_values(|c: CallView| c.to), s) == calls.filter(
            |c: CallView| c.to == s,
        ).len(),
    decreases calls.len(),
{
    reveal(Seq::filter);
    if calls.len() > 0 {
        lemma_hits(calls.drop_last(), s);
        let to = |c: CallView| c.to;
        assert(calls.map_values(to).drop_last() =~= calls.drop_last().map_values(to));
    }
}

proof fn lemma_new_hubs(groups: Seq<(Seq<char>, Seq<int>)>, auto: Seq<Seq<char>>, n: int)
    requires
        0 <= n <= groups.len(),
    ensures
        forall|p: (Seq<char>, int)| #[trigger]
            new_hubs(groups, auto, n).contains(p) ==> exists|a: int|
                0 <= a < n && (#[trigger] groups[a]).0 == p.0 && groups[a].1.len() >= 200,
        forall|a: int|
            0 <= a < n && (#[trigger] groups[a]).1.len() >= 200 && !auto.contains(groups[a].0)
                ==> new_hubs(groups, auto, n).contains((groups[a].0, groups[a].1.len() as int)),
    decreases n,
{
    if n > 0 {
        lemma_new_hubs(groups, auto, n - 1);
        let q = new_hubs(groups, auto, n - 1);
        let r = new_hubs(groups, auto, n);
        assert forall|p: (Seq<char>, int)| #[trigger] r.contains(p) implies exists|a: int|
            0 <= a < n && (#[trigger] groups[a]).0 == p.0 && groups[a].1.len() >= 200 by {
            if q.contains(p) {
                let a = choose|a: int|
                    0 <= a < n - 1 && (#[trigger] groups[a]).0 == p.0 && groups[a].1.len() >= 200;
                assert(groups[a].0 == p.0);
            } else {
                let k = choose|k: int| 0 <= k < r.len() && r[k] == p;
                if k < q.len() {
                    assert(q[k] == p);
                }
                assert(groups[n - 1].0 == p.0);
            }
        }
        assert forall|a: int|
            0 <= a < n && (#[trigger] groups[a]).1.len() >= 200 && !auto.contains(groups[a].0)
            implies r.contains((groups[a].0, groups[a].1.len() as int)) by {
            let pair = (groups[a].0, groups[a].1.len() as int);
            if a < n - 1 {
                let k = choose|k: int| 0 <= k < q.len() && q[k] == pair;
                assert(r[k] == pair);
            } else {
                assert(r[q.len() as int] == pair);
            }
        }
    }
}

/// The edges of a walk come out in the order of their hops, all of them and no
/// other.
pub proof fn law_edges_come_by_hop(w: WalkView, e: EdgeView, i: int, j: int)
    ensures
        found_edges(w).len() == w.edges.len(),
        found_edges(w).contains(e) <==> w.edges.contains(e),
        0 <= i < j < found_edges(w).len() ==> found_edges(w)[i].hop <= found_edges(w)[j].hop,
        final_stats(w, 0).edges_total == found_edges(w).len(),
{
    lemma_edge_order();
    crate::sort::law_sort_keeps_elements(w.edges, edge_order());
    crate::sort::law_sort_keeps_members(w.edges, edge_order(), e);
    crate::sort::law_sort_orders(w.edges, edge_order());
    if 0 <= i < j < found_edges(w).len() {
        assert(edge_order()(found_edges(w)[i], found_edges(w)[j]));
    }
}

/// Every name in the list of hubs that is not blank is a hub, and no other is.
pub proof fn law_listed_hubs(arg: Seq<char>, name: Seq<char>)
    ensures
        hubs_in(Some(arg)).contains(name) <==> name.len() > 0 && exists|i: int|
            0 <= i < split(arg, ',').len() && trim(#[trigger] split(arg, ',')[i]) == name,
        hubs_in(None).len() == 0,
{
    lemma_hub_names(split(arg, ','), name);
}

proof fn lemma_hub_names(pieces: Seq<Seq<char>>, name: Seq<char>)
    ensures
        hub_names(pieces).contains(name) <==> name.len() > 0 && exists|i: int|
            0 <= i < pieces.len() && trim(#[trigger] pieces[i]) == name,
    decreases pieces.len(),
{
    if pieces.len() > 0 {
        let t = pieces.drop_last();
        lemma_hub_names(t, name);
        let q = hub_names(t);
        let r = hub_names(pieces);
        if r.contains(name) {
            let k = choose|k: int| 0 <= k < r.len() && r[k] == name;
            if k < q.len() {
                assert(q[k] == name);
                let i = choose|i: int| 0 <= i < t.len() && trim(#[trigger] t[i]) == name;
                assert(trim(pieces[i]) == name);
            } else {
                assert(trim(pieces[pieces.len() - 1]) == name);
            }
        }
        if name.len() > 0 && exists|i: int|
            0 <= i < pieces.len() && trim(#[trigger] pieces[i]) == name {
            let i = choose|i: int| 0 <= i < pieces.len() && trim(#[trigger] pieces[i]) == name;
            if i < t.len() {
                assert(trim(t[i]) == name);
            }
            if q.contains(name) {
                let k = choose|k: int| 0 <= k < q.len() && q[k] == name;
                assert(r[k] == name);
            } else {
                assert(r[q.len() as int] == name);
            }
        }
    }
}

/// A hop that is not cut counts the calls outside of any function, the symbols that
/// nothing calls, and the edges it found.
pub proof fn law_hop_counts(w: WalkView, calls: Seq<CallView>, max_edges: int)
    requires
        !end_hop(w, calls, max_edges).over,
        0 <= w.stats.top_level_terminal,
        w.stats.top_level_terminal + calls.len() <= usize::MAX,
        0 <= w.stats.unresolved_symbols,
        w.stats.unresolved_symbols + w.frontier.len() <= usize::MAX,
    ensures
        end_hop(w, calls, max_edges).stats.top_level_terminal == w.stats.top_level_terminal
            + calls.filter(|c: CallView| c.from == "<top-level>"@).len(),
        end_hop(w, calls, max_edges).stats.unresolved_symbols == w.stats.unresolved_symbols
            + w.frontier.filter(|s: Seq<char>| !called(calls, s)).len(),
        end_hop(w, calls, max_edges).stats.depth_reached == w.hop,
        end_hop(w, calls, max_edges).stats.per_hop.len() == w.stats.per_hop.len() + 1,
        calls.len() <= usize::MAX ==> end_hop(w, calls, max_edges).stats.per_hop.last().edges
            == calls.len(),
        end_hop(w, calls, max_edges).stats.per_hop.last().frontier_size == w.frontier.len(),
        0 <= w.hop <= usize::MAX ==> end_hop(w, calls, max_edges).stats.per_hop.last().hop == w.hop,
{
    let sorted = stable_sort(calls, call_order());
    lemma_takes_all(open_hop(w), w.hop, sorted, max_edges);
    let h = take_calls(open_hop(w), w.hop, sorted, max_edges);
    let top = |c: CallView| c.from == "<top-level>"@;
    lemma_call_order();
    crate::sort::law_sort_then_pick(calls, call_order(), top);
    crate::sort::law_sort_keeps_elements(calls.filter(top), call_order());
    crate::sort::law_sort_keeps_elements(calls, call_order());
    lemma_terminal(open_hop(w), w.hop, sorted, max_edges);
    let hits = sorted.map_values(|c: CallView| c.to);
    assert(h.hits =~= hits);
    assert forall|s: Seq<char>| #[trigger] hits.contains(s) <==> called(calls, s) by {
        if hits.contains(s) {
            let k = choose|k: int| 0 <= k < hits.len() && hits[k] == s;
            assert(sorted.contains(sorted[k]));
            crate::sort::law_sort_keeps_members(calls, call_order(), sorted[k]);
            let i = choose|i: int| 0 <= i < calls.len() && calls[i] == sorted[k];
            assert(calls[i].to == s);
        }
        if called(calls, s) {
            let i = choose|i: int| 0 <= i < calls.len() && (#[trigger] calls[i]).to == s;
            assert(calls.contains(calls[i]));
            crate::sort::law_sort_keeps_members(calls, call_order(), calls[i]);
            let k = choose|k: int| 0 <= k < sorted.len() && sorted[k] == calls[i];
            assert(hits[k] == s);
        }
    }
    let n = w.frontier.len() as int;
    lemma_missed(w.frontier, hits, w.stats.unresolved_symbols, n);
    assert(w.frontier.take(n) =~= w.frontier);
    lemma_same_filter(
        w.frontier,
        |s: Seq<char>| !hits.contains(s),
        |s: Seq<char>| !called(calls, s),
    );
}

/// One of the calls is of the symbol.
pub open spec fn called(calls: Seq<CallView>, s: Seq<char>) -> bool {
    exists|i: int| 0 <= i < calls.len() && (#[trigger] calls[i]).to == s
}

proof fn lemma_same_filter(
    s: Seq<Seq<char>>,
    p: spec_fn(Seq<char>) -> bool,
    q: spec_fn(Seq<char>) -> bool,
)
    requires
        forall|x: Seq<char>| #[trigger] p(x) == q(x),
    ensures
        s.filter(p) == s.filter(q),
    decreases s.len(),
{
    reveal(Seq::filter);
    if s.len() > 0 {
        lemma_same_filter(s.drop_last(), p, q);
        assert(p(s.last()) == q(s.last()));
    }
}

proof fn lemma_terminal(h: HopView, hop: int, calls: Seq<CallView>, max_edges: int)
    requires
        !take_calls(h, hop, calls, max_edges).cut,
        0 <= h.terminal,
        h.terminal + calls.len() <= usize::MAX,
    ensures
        take_calls(h, hop, calls, max_edges).terminal == h.terminal + calls.filter(
            |c: CallView| c.from == "<top-level>"@,
        ).len(),
    decreases calls.len(),
{
    reveal(Seq::filter);
    if calls.len() > 0 {
        let t = calls.drop_last();
        lemma_terminal(h, hop, t, max_edges);
        t.lemma_filter_len(|c: CallView| c.from == "<top-level>"@);
    }
}

proof fn lemma_missed(f: Seq<Seq<char>>, hits: Seq<Seq<char>>, from: int, n: int)
    requires
        0 <= n <= f.len(),
        0 <= from,
        from + n <= usize::MAX,
    ensures
        missed(f, hits, from, n) == from + f.take(n).filter(
            |s: Seq<char>| !hits.contains(s),
        ).len(),
    decreases n,
{
    reveal(Seq::filter);
    if n > 0 {
        lemma_missed(f, hits, from, n - 1);
        assert(f.take(n).drop_last() =~= f.take(n - 1));
        f.take(n - 1).lemma_filter_len(|s: Seq<char>| !hits.contains(s));
    } else {
        assert(f.take(0) =~= Seq::<Seq<char>>::empty());
    }
}

} // verus!
