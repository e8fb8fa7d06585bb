//! Showing a walk over the call graph, as text and as JSON.
use vstd::prelude::*;
use vstd::string::*;

use crate::json::{list, members, number, object, text, values_view, with, JsonValue, JsonView};
use crate::paths::{below, strip_prefix};
use crate::sort::stable_sort;
use crate::text::{
    byte_len, dec, decimal, has, join, join_strings, lemma_has_left, lemma_has_right, lemma_has_self,
    lemma_has_trans, lemma_has_within, lemma_strs_push, pad_right, push_dec, push_padded, same_text,
    strs, text_le, text_len,
};
use crate::types::{estimate_tokens, format_tokens, token_label, tokens};

use super::bfs::{
    clone_strings, edge_order, edges_view, found_edges, final_stats, law_walk_is_deterministic, name_order,
    promoted_view, same_by_file, sort_edges, sort_strings, walk, BfsEdge, BfsStats, CallView, EdgeView, HopStats,
    StatsView, AUTO_HUB_THRESHOLD,
};
use super::suspicion::{compute_suspicious_hops, hop_total, suspicions, SuspicionInfo};

verus! {

/// The ending of a noun after a number.
pub open spec fn plural(n: int) -> Seq<char> {
    if n == 1 {
        ""@
    } else {
        "s"@
    }
}

/// The ending of a noun after a number.
pub fn plural_of(n: usize) -> (r: &'static str)
    ensures
        r@ == plural(n as int),
{
    if n == 1 {
        ""
    } else {
        "s"
    }
}

/// The path as seen from the scope, or as it is.
pub open spec fn shown(path: Seq<char>, scope: Seq<char>) -> Seq<char> {
    match below(path, scope) {
        Some(p) => p,
        None => path,
    }
}

/// The path as seen from the scope, or as it is.
pub fn rel(path: &str, scope: &str) -> (r: String)
    ensures
        r@ == shown(path@, scope@),
{
    match strip_prefix(path, scope) {
        Some(p) => p,
        None => path.to_owned(),
    }
}

// ---------------------------------------------------------------------------
// Edges
// ---------------------------------------------------------------------------

pub open spec fn bfs_header(
    target: Seq<char>,
    scope: Seq<char>,
    stats: StatsView,
    max_depth: nat,
) -> Seq<char> {
    "# BFS callers of \""@ + target + "\" in "@ + scope + " — depth="@ + dec(
        stats.depth_reached as nat,
    ) + "/"@ + dec(max_depth) + ", "@ + dec(stats.edges_total as nat) + " edge"@ + plural(
        stats.edges_total,
    ) + ", "@ + dec(stats.elapsed_ms as nat) + " ms\n"@
}

pub open spec fn no_edges() -> Seq<char> {
    "\nNo call sites found. Symbol may be invoked via indirect dispatch (trait objects, interfaces, callbacks, reflection, macros) — tilth only sees direct by-name calls.\n"@
}

/// The heading of a hop with the number of its edges.
pub open spec fn hop_heading(hop: nat, count: nat) -> Seq<char> {
    "\n── hop "@ + dec(hop) + " ("@ + dec(count) + " edge"@ + plural(count as int) + ") ──\n"@
}

/// The line of an edge: the caller, where it is and the call.
pub open spec fn edge_text(e: EdgeView, scope: Seq<char>) -> Seq<char> {
    "  "@ + pad_right(e.from, 28) + " "@ + shown(e.from_file, scope) + ":"@ + dec(
        e.from_line as nat,
    ) + "  → "@ + (if e.call_text.len() == 0 {
        e.to
    } else {
        e.call_text
    }) + "\n"@
}

/// The text with the first `n` edges added, a heading before each hop.
pub open spec fn with_edges(s: Seq<char>, edges: Seq<EdgeView>, scope: Seq<char>, n: int) -> Seq<char>
    decreases n,
{
    if n <= 0 {
        s
    } else {
        let r = with_edges(s, edges, scope, n - 1);
        let e = edges[n - 1];
        let t = if n == 1 || edges[n - 2].hop != e.hop {
            r + hop_heading(e.hop as nat, hop_total(edges, e.hop, edges.len() as int))
        } else {
            r
        };
        t + edge_text(e, scope)
    }
}

fn push_edge(out: &mut String, e: &BfsEdge, scope: &str)
    ensures
        final(out)@ == old(out)@ + edge_text(e@, scope@),
{
    let mut s = "  ".to_owned();
    push_padded(&mut s, e.from.as_str(), 28);
    s.append(" ");
    s.append(rel(e.from_file.as_str(), scope).as_str());
    s.append(":");
    push_dec(&mut s, e.from_line as usize);
    s.append("  → ");
    if e.call_text.as_str().is_empty() {
        s.append(e.to.as_str());
    } else {
        s.append(e.call_text.as_str());
    }
    s.append("\n");
    out.append(s.as_str());
}

fn count_hop(edges: &[BfsEdge], hop: usize) -> (r: usize)
    ensures
        r == hop_total(edges_view(edges@), hop as int, edges@.len() as int),
{
    let ghost e = edges_view(edges@);
    let mut r: usize = 0;
    let mut i: usize = 0;
    while i < edges.len()
        invariant
            i <= edges@.len(),
            e == edges_view(edges@),
            r <= i,
            r == hop_total(e, hop as int, i as int),
        decreases edges@.len() - i,
    {
        assert(e[i as int] == edges@[i as int]@);
        if edges[i].hop == hop {
            r = r + 1;
        }
        i = i + 1;
    }
    r
}

fn clone_edge(e: &BfsEdge) -> (r: BfsEdge)
    ensures
        r == *e,
{
    BfsEdge {
        hop: e.hop,
        from: e.from.clone(),
        from_file: e.from_file.clone(),
        from_line: e.from_line,
        to: e.to.clone(),
        call_text: e.call_text.clone(),
    }
}

/// The edges in their order.
fn sorted_edges(edges: &[BfsEdge]) -> (r: Vec<BfsEdge>)
    ensures
        edges_view(r@) == stable_sort(edges_view(edges@), edge_order()),
{
    let mut v: Vec<BfsEdge> = Vec::new();
    let mut i: usize = 0;
    while i < edges.len()
        invariant
            i <= edges@.len(),
            v@ == edges@.take(i as int),
        decreases edges@.len() - i,
    {
        v.push(clone_edge(&edges[i]));
        i = i + 1;
        assert(edges@.take(i as int) =~= edges@.take(i - 1).push(edges@[i - 1]));
    }
    assert(edges@.take(edges@.len() as int) =~= edges@);
    sort_edges(&mut v);
    v
}

// ---------------------------------------------------------------------------
// Notes
// ---------------------------------------------------------------------------

/// The first `k` names with `sep` between them, and how many more there are.
pub open spec fn preview(names: Seq<Seq<char>>, sep: Seq<char>, k: int) -> Seq<char> {
    if names.len() > k {
        join(names.take(k), sep) + ", +"@ + dec((names.len() - k) as nat) + " more"@
    } else {
        join(names, sep)
    }
}

fn preview_of(names: &Vec<String>, sep: &str, k: usize) -> (r: String)
    ensures
        r@ == preview(strs(names@), sep@, k as int),
{
    let n: usize = names.len();
    if n > k {
        let part = vstd::slice::slice_subrange(names.as_slice(), 0, k);
        assert(strs(part@) =~= strs(names@).take(k as int));
        let mut r = join_strings(part, sep);
        r.append(", +");
        push_dec(&mut r, n - k);
        r.append(" more");
        r
    } else {
        join_strings(names.as_slice(), sep)
    }
}

/// A promoted hub with the number of its edges.
pub open spec fn hub_label(p: (Seq<char>, int)) -> Seq<char> {
    p.0 + "("@ + dec(p.1 as nat) + ")"@
}

/// The labels of the promoted hubs in order.
pub open spec fn hub_labels(p: Seq<(Seq<char>, int)>) -> Seq<Seq<char>> {
    stable_sort(p.map_values(|x: (Seq<char>, int)| hub_label(x)), name_order())
}

fn hub_labels_of(p: &Vec<(String, usize)>) -> (r: Vec<String>)
    ensures
        strs(r@) == hub_labels(promoted_view(p@)),
{
    let ghost v = promoted_view(p@);
    let ghost l = v.map_values(|x: (Seq<char>, int)| hub_label(x));
    let mut r: Vec<String> = Vec::new();
    let mut i: usize = 0;
    while i < p.len()
        invariant
            i <= p@.len(),
            v == promoted_view(p@),
            l == v.map_values(|x: (Seq<char>, int)| hub_label(x)),
            r@.len() == i,
            forall|j: int| 0 <= j < i ==> (#[trigger] r@[j])@ == l[j],
        decreases p@.len() - i,
    {
        let mut s = p[i].0.clone();
        s.append("(");
        push_dec(&mut s, p[i].1);
        s.append(")");
        assert(v[i as int] == (p@[i as int].0@, p@[i as int].1 as int));
        r.push(s);
        i = i + 1;
    }
    assert(strs(r@) =~= l);
    sort_strings(&mut r);
    r
}

/// The sequence without what equals the element before.
pub open spec fn dedup(s: Seq<Seq<char>>) -> Seq<Seq<char>>
    decreases s.len(),
{
    if s.len() <= 1 {
        s
    } else if s.last() == s[s.len() - 2] {
        dedup(s.drop_last())
    } else {
        dedup(s.drop_last()).push(s.last())
    }
}

/// The names in order, each once.
pub open spec fn sorted_names(s: Seq<Seq<char>>) -> Seq<Seq<char>> {
    dedup(stable_sort(s, name_order()))
}

/// The names in order, each once.
pub fn sorted_names_of(v: &Vec<String>) -> (r: Vec<String>)
    ensures
        strs(r@) == sorted_names(strs(v@)),
{
    broadcast use lemma_strs_push;

    let mut all = clone_strings(v);
    sort_strings(&mut all);
    let ghost s = strs(all@);
    let mut r: Vec<String> = Vec::new();
    let mut i: usize = 0;
    assert(strs(r@) =~= dedup(s.take(0)));
    while i < all.len()
        invariant
            i <= all@.len(),
            s == strs(all@),
            strs(r@) == dedup(s.take(i as int)),
        decreases all@.len() - i,
    {
        let ghost t = s.take(i + 1);
        assert(t.drop_last() =~= s.take(i as int));
        assert(t.last() == all@[i as int]@);
        if i == 0 {
            r.push(all[0].clone());
            assert(strs(r@) =~= t);
        } else {
            assert(t[t.len() - 2] == all@[i - 1]@);
            if !same_text(all[i].as_str(), all[i - 1].as_str()) {
                r.push(all[i].clone());
            }
        }
        i = i + 1;
    }
    assert(s.take(all@.len() as int) =~= s);
    r
}

pub open spec fn cut_note(hop: nat) -> Seq<char> {
    "edges capped at hop "@ + dec(hop)
}

pub open spec fn frontier_note(c: (usize, usize)) -> Seq<char> {
    "frontier at hop "@ + dec(c.0 as nat) + " truncated from "@ + dec(c.1 as nat)
}

pub open spec fn promoted_note(labels: Seq<Seq<char>>) -> Seq<char> {
    dec(labels.len()) + " symbol(s) auto-promoted to hub (≥"@ + dec(AUTO_HUB_THRESHOLD as nat)
        + " edges/hop): "@ + preview(labels, ", "@, 6)
}

pub open spec fn skipped_note(names: Seq<Seq<char>>) -> Seq<char> {
    dec(names.len()) + " hub symbol(s) skipped: "@ + preview(names, ","@, 6)
}

pub open spec fn suspicion_note(s: SuspicionInfo, target: Seq<char>) -> Seq<char> {
    "⚠ hop "@ + dec(s.hop as nat) + ": "@ + dec(s.total_edges as nat) + " edges, only "@ + dec(
        s.related_edges as nat,
    ) + " share a directory with hop "@ + dec((s.hop - 1) as nat)
        + " — likely cross-package name collision (try qualifying the target, e.g. `pkg::"@
        + target + "`)"@
}

/// The notes on cut frontiers.
pub open spec fn frontier_notes(c: Seq<(usize, usize)>) -> Seq<Seq<char>> {
    c.map_values(|x: (usize, usize)| frontier_note(x))
}

/// The notes on suspicious hops.
pub open spec fn suspicion_notes(s: Seq<SuspicionInfo>, target: Seq<char>) -> Seq<Seq<char>> {
    s.map_values(|x: SuspicionInfo| suspicion_note(x, target))
}

/// A note, where it is due.
pub open spec fn note_if(due: bool, note: Seq<char>) -> Seq<Seq<char>> {
    if due {
        seq![note]
    } else {
        Seq::empty()
    }
}

/// What the notes say: what was cut, and what to beware of.
pub open spec fn notes(
    stats: StatsView,
    suspects: Seq<SuspicionInfo>,
    target: Seq<char>,
) -> Seq<Seq<char>> {
    note_if(
        stats.edges_cut_at_hop is Some,
        cut_note(stats.edges_cut_at_hop->0 as nat),
    ) + frontier_notes(stats.frontier_cut_hops) + note_if(
        stats.auto_hubs_promoted.len() > 0,
        promoted_note(hub_labels(stats.auto_hubs_promoted)),
    ) + note_if(
        stats.hubs_skipped.len() > 0,
        skipped_note(sorted_names(stats.hubs_skipped)),
    ) + note_if(
        stats.top_level_terminal > 0,
        dec(stats.top_level_terminal as nat) + " top-level terminal edge(s)"@,
    ) + note_if(
        stats.unresolved_symbols > 0,
        dec(stats.unresolved_symbols as nat)
            + " frontier symbol(s) unresolved (unsupported lang / indirect / orphan)"@,
    ) + suspicion_notes(suspects, target)
}

/// Adds the note, where it is due.
fn add_note(r: &mut Vec<String>, note: Option<String>)
    ensures
        strs(final(r)@) == strs(old(r)@) + (match note {
            Some(s) => seq![s@],
            None => Seq::empty(),
        }),
{
    let ghost before = r@;
    match note {
        Some(s) => {
            r.push(s);
            assert(strs(r@) =~= strs(before) + seq![s@]);
        },
        None => {
            assert(strs(r@) =~= strs(before) + Seq::empty());
        },
    }
}

fn add_frontier_notes(r: &mut Vec<String>, cuts: &Vec<(usize, usize)>)
    ensures
        strs(final(r)@) == strs(old(r)@) + frontier_notes(cuts@),
{
    let ghost start = strs(r@);
    let ghost fs = frontier_notes(cuts@);
    let mut i: usize = 0;
    assert(start + fs.take(0) =~= start);
    while i < cuts.len()
        invariant
            i <= cuts@.len(),
            fs == frontier_notes(cuts@),
            strs(r@) == start + fs.take(i as int),
        decreases cuts@.len() - i,
    {
        let c = cuts[i];
        let mut s = "frontier at hop ".to_owned();
        push_dec(&mut s, c.0);
        s.append(" truncated from ");
        push_dec(&mut s, c.1);
        add_note(r, Some(s));
        assert(start + fs.take(i as int) + seq![fs[i as int]] =~= start + fs.take(i + 1));
        i = i + 1;
    }
    assert(fs.take(cuts@.len() as int) =~= fs);
}

fn add_suspicion_notes(r: &mut Vec<String>, suspects: &Vec<SuspicionInfo>, target: &str)
    requires
        forall|i: int| 0 <= i < suspects@.len() ==> (#[trigger] suspects@[i]).hop >= 2,
    ensures
        strs(final(r)@) == strs(old(r)@) + suspicion_notes(suspects@, target@),
{
    let ghost start = strs(r@);
    let ghost ss = suspicion_notes(suspects@, target@);
    let mut i: usize = 0;
    assert(start + ss.take(0) =~= start);
    while i < suspects.len()
        invariant
            i <= suspects@.len(),
            forall|i: int| 0 <= i < suspects@.len() ==> (#[trigger] suspects@[i]).hop >= 2,
            ss == suspicion_notes(suspects@, target@),
            strs(r@) == start + ss.take(i as int),
        decreases suspects@.len() - i,
    {
        let x = suspects[i];
        assert(suspects@[i as int].hop >= 2);
        let mut s = "⚠ hop ".to_owned();
        push_dec(&mut s, x.hop);
        s.append(": ");
        push_dec(&mut s, x.total_edges);
        s.append(" edges, only ");
        push_dec(&mut s, x.related_edges);
        s.append(" share a directory with hop ");
        push_dec(&mut s, x.hop - 1);
        s.append(
            " — likely cross-package name collision (try qualifying the target, e.g. `pkg::",
        );
        s.append(target);
        s.append("`)");
        add_note(r, Some(s));
        assert(start + ss.take(i as int) + seq![ss[i as int]] =~= start + ss.take(i + 1));
        i = i + 1;
    }
    assert(ss.take(suspects@.len() as int) =~= ss);
}

fn promoted_note_of(labels: &Vec<String>) -> (r: String)
    ensures
        r@ == promoted_note(strs(labels@)),
{
    let mut s = decimal(labels.len() as u128);
    s.append(" symbol(s) auto-promoted to hub (≥");
    push_dec(&mut s, AUTO_HUB_THRESHOLD);
    s.append(" edges/hop): ");
    s.append(preview_of(labels, ", ", 6).as_str());
    s
}

fn skipped_note_of(names: &Vec<String>) -> (r: String)
    ensures
        r@ == skipped_note(strs(names@)),
{
    let mut s = decimal(names.len() as u128);
    s.append(" hub symbol(s) skipped: ");
    s.append(preview_of(names, ",", 6).as_str());
    s
}

/// A number and what it counts.
fn counted_note(n: usize, what: &str) -> (r: Option<String>)
    ensures
        r matches Some(s) ==> n > 0 && s@ == dec(n as nat) + what@,
        r is None ==> n == 0,
{
    if n > 0 {
        let mut s = decimal(n as u128);
        s.append(what);
        Some(s)
    } else {
        None
    }
}

fn notes_of(stats: &BfsStats, suspects: &Vec<SuspicionInfo>, target: &str) -> (r: Vec<String>)
    requires
        forall|i: int| 0 <= i < suspects@.len() ==> (#[trigger] suspects@[i]).hop >= 2,
    ensures
        strs(r@) == notes(stats@, suspects@, target@),
{
    let mut r: Vec<String> = Vec::new();
    assert(strs(r@) =~= Seq::<Seq<char>>::empty());
    let cut = match stats.edges_cut_at_hop {
        Some(h) => {
            let mut s = "edges capped at hop ".to_owned();
            push_dec(&mut s, h);
            Some(s)
        },
        None => None,
    };
    add_note(&mut r, cut);
    assert(strs(r@) =~= note_if(
        stats@.edges_cut_at_hop is Some,
        cut_note(stats@.edges_cut_at_hop->0 as nat),
    ));
    add_frontier_notes(&mut r, &stats.frontier_cut_hops);
    let promoted = if stats.auto_hubs_promoted.len() > 0 {
        Some(promoted_note_of(&hub_labels_of(&stats.auto_hubs_promoted)))
    } else {
        None
    };
    add_note(&mut r, promoted);
    assert(stats@.hubs_skipped.len() == stats.hubs_skipped@.len());
    let skipped = if stats.hubs_skipped.len() > 0 {
        Some(skipped_note_of(&sorted_names_of(&stats.hubs_skipped)))
    } else {
        None
    };
    add_note(&mut r, skipped);
    add_note(&mut r, counted_note(stats.top_level_terminal, " top-level terminal edge(s)"));
    add_note(
        &mut r,
        counted_note(
            stats.unresolved_symbols,
            " frontier symbol(s) unresolved (unsupported lang / indirect / orphan)",
        ),
    );
    add_suspicion_notes(&mut r, suspects, target);
    r
}

/// The text with the first `n` notes added.
pub open spec fn with_notes(s: Seq<char>, notes: Seq<Seq<char>>, n: int) -> Seq<char>
    decreases n,
{
    if n <= 0 {
        s
    } else {
        with_notes(s, notes, n - 1) + "  • "@ + notes[n - 1] + "\n"@
    }
}

pub open spec fn disclaimer() -> Seq<char> {
    "Static by-name call graph only. May miss indirect dispatch, reflection, macros, and calls from files > 500KB or from languages without a tree-sitter call query."@
}

// ---------------------------------------------------------------------------
// All together
// ---------------------------------------------------------------------------

/// The walk as text, up to the number of its tokens.
pub open spec fn bfs_body(
    target: Seq<char>,
    scope: Seq<char>,
    edges: Seq<EdgeView>,
    stats: StatsView,
    max_depth: nat,
) -> Seq<char> {
    let e = stable_sort(edges, edge_order());
    let n = notes(stats, suspicions(edges), target);
    let head = with_edges(bfs_header(target, scope, stats, max_depth), e, scope, e.len() as int);
    (if n.len() > 0 {
        with_notes(head + "\n── budget ──\n"@, n, n.len() as int)
    } else {
        head
    }) + "\n"@ + disclaimer() + "\n"@
}

/// The number of tokens that a text takes, in brackets.
pub open spec fn token_note(s: Seq<char>) -> Seq<char> {
    "("@ + token_label(tokens(byte_len(s))) + " tokens)"@
}

/// The walk as text.
pub open spec fn bfs_text(
    target: Seq<char>,
    scope: Seq<char>,
    edges: Seq<EdgeView>,
    stats: StatsView,
    max_depth: nat,
) -> Seq<char> {
    if edges.len() == 0 {
        bfs_header(target, scope, stats, max_depth) + no_edges()
    } else {
        let b = bfs_body(target, scope, edges, stats, max_depth);
        b + "\n"@ + token_note(b)
    }
}

fn push_bfs_header(out: &mut String, target: &str, scope: &str, stats: &BfsStats, max_depth: usize)
    ensures
        final(out)@ == old(out)@ + bfs_header(target@, scope@, stats@, max_depth as nat),
{
    let mut s = "# BFS callers of \"".to_owned();
    s.append(target);
    s.append("\" in ");
    s.append(scope);
    s.append(" — depth=");
    push_dec(&mut s, stats.depth_reached);
    s.append("/");
    push_dec(&mut s, max_depth);
    s.append(", ");
    push_dec(&mut s, stats.edges_total);
    s.append(" edge");
    s.append(plural_of(stats.edges_total));
    s.append(", ");
    s.append(decimal(stats.elapsed_ms).as_str());
    s.append(" ms\n");
    out.append(s.as_str());
}

/// Appends the number of tokens that a text takes, in brackets.
pub fn push_token_note(out: &mut String, s: &str)
    ensures
        final(out)@ == old(out)@ + token_note(s@),
{
    let mut t = "(".to_owned();
    let n: u64 = estimate_tokens(text_len(s) as u64);
    t.append(format_tokens(n).as_str());
    t.append(" tokens)");
    out.append(t.as_str());
}

/// The walk as text.
pub fn format_bfs(
    target: &str,
    scope: &str,
    edges: &[BfsEdge],
    stats: &BfsStats,
    max_depth: usize,
) -> (r: String)
    ensures
        r@ == bfs_text(target@, scope@, edges_view(edges@), stats@, max_depth as nat),
{
    let mut out = String::new();
    push_bfs_header(&mut out, target, scope, stats, max_depth);
    let ghost h = bfs_header(target@, scope@, stats@, max_depth as nat);
    assert(out@ =~= h);
    assert(edges_view(edges@).len() == edges@.len());
    if edges.len() == 0 {
        out.append(
            "\nNo call sites found. Symbol may be invoked via indirect dispatch (trait objects, interfaces, callbacks, reflection, macros) — tilth only sees direct by-name calls.\n",
        );
        return out;
    }
    let sorted = sorted_edges(edges);
    let ghost e = edges_view(sorted@);
    let mut i: usize = 0;
    while i < sorted.len()
        invariant
            i <= sorted@.len(),
            e == edges_view(sorted@),
            out@ == with_edges(h, e, scope@, i as int),
        decreases sorted@.len() - i,
    {
        let x = &sorted[i];
        assert(e[i as int] == x@);
        if i > 0 {
            assert(e[i - 1] == sorted@[i - 1]@);
        }
        if i == 0 || sorted[i - 1].hop != x.hop {
            let n: usize = count_hop(sorted.as_slice(), x.hop);
            let mut s = "\n── hop ".to_owned();
            push_dec(&mut s, x.hop);
            s.append(" (");
            push_dec(&mut s, n);
            s.append(" edge");
            s.append(plural_of(n));
            s.append(") ──\n");
            out.append(s.as_str());
        }
        push_edge(&mut out, x, scope);
        i = i + 1;
    }
    let suspects = compute_suspicious_hops(edges);
    let notes = notes_of(stats, &suspects, target);
    let ghost nv = strs(notes@);
    if notes.len() > 0 {
        out.append("\n── budget ──\n");
        let ghost start = out@;
        let mut k: usize = 0;
        while k < notes.len()
            invariant
                k <= notes@.len(),
                nv == strs(notes@),
                out@ == with_notes(start, nv, k as int),
            decreases notes@.len() - k,
        {
            out.append("  • ");
            out.append(notes[k].as_str());
            out.append("\n");
            k = k + 1;
        }
    }
    out.append("\n");
    out.append(
        "Static by-name call graph only. May miss indirect dispatch, reflection, macros, and calls from files > 500KB or from languages without a tree-sitter call query.",
    );
    out.append("\n");
    let body = out.clone();
    assert(body@ == bfs_body(
        target@,
        scope@,
        edges_view(edges@),
        stats@,
        max_depth as nat,
    ));
    out.append("\n");
    push_token_note(&mut out, body.as_str());
    out
}

// ---------------------------------------------------------------------------
// JSON
// ---------------------------------------------------------------------------

/// An edge as a value.
pub open spec fn edge_json(e: EdgeView, scope: Seq<char>) -> JsonView {
    JsonView::Object(
        seq![
            ("hop"@, JsonView::Number(e.hop as nat)),
            ("from"@, JsonView::Text(e.from)),
            ("from_file"@, JsonView::Text(shown(e.from_file, scope))),
            ("from_line"@, JsonView::Number(e.from_line as nat)),
            ("to"@, JsonView::Text(e.to)),
            ("call_text"@, JsonView::Text(e.call_text)),
        ],
    )
}

/// A hop as a value.
pub open spec fn hop_json(h: HopStats) -> JsonView {
    JsonView::Object(
        seq![
            ("hop"@, JsonView::Number(h.hop as nat)),
            ("frontier_size"@, JsonView::Number(h.frontier_size as nat)),
            ("edges"@, JsonView::Number(h.edges as nat)),
        ],
    )
}

/// A cut frontier as a value.
pub open spec fn cut_json(c: (usize, usize)) -> JsonView {
    JsonView::Object(
        seq![
            ("hop"@, JsonView::Number(c.0 as nat)),
            ("frontier_size_before_cut"@, JsonView::Number(c.1 as nat)),
        ],
    )
}

/// A promoted hub as a value.
pub open spec fn hub_json(p: (Seq<char>, int)) -> JsonView {
    JsonView::Object(
        seq![("symbol"@, JsonView::Text(p.0)), ("edges"@, JsonView::Number(p.1 as nat))],
    )
}

/// A suspicious hop as a value.
pub open spec fn suspicion_json(s: SuspicionInfo) -> JsonView {
    JsonView::Object(
        seq![
            ("hop"@, JsonView::Number(s.hop as nat)),
            ("total_edges"@, JsonView::Number(s.total_edges as nat)),
            ("related_edges"@, JsonView::Number(s.related_edges as nat)),
            ("reason"@, JsonView::Text("name_collision"@)),
        ],
    )
}

/// The edges as values.
pub open spec fn edges_json(e: Seq<EdgeView>, scope: Seq<char>) -> JsonView {
    JsonView::List(e.map_values(|x: EdgeView| edge_json(x, scope)))
}

/// What the walk did, as a value.
pub open spec fn stats_json(edges: Seq<EdgeView>, stats: StatsView) -> JsonView {
    JsonView::Object(
        seq![
            ("per_hop"@, JsonView::List(stats.per_hop.map_values(|h: HopStats| hop_json(h)))),
            ("top_level_terminal"@, JsonView::Number(stats.top_level_terminal as nat)),
            ("unresolved_symbols"@, JsonView::Number(stats.unresolved_symbols as nat)),
            (
                "suspicious_hops"@,
                JsonView::List(
                    suspicions(edges).map_values(|s: SuspicionInfo| suspicion_json(s)),
                ),
            ),
        ],
    )
}

/// What the walk left out, as a value.
pub open spec fn elided_json(stats: StatsView) -> JsonView {
    JsonView::Object(
        seq![
            (
                "edges_cut_at_hop"@,
                match stats.edges_cut_at_hop {
                    Some(h) => JsonView::Number(h as nat),
                    None => JsonView::Null,
                },
            ),
            (
                "frontier_cuts"@,
                JsonView::List(
                    stats.frontier_cut_hops.map_values(|c: (usize, usize)| cut_json(c)),
                ),
            ),
            (
                "hubs_skipped"@,
                JsonView::List(
                    sorted_names(stats.hubs_skipped).map_values(
                        |n: Seq<char>| JsonView::Text(n),
                    ),
                ),
            ),
            (
                "auto_hubs_promoted"@,
                JsonView::List(
                    stats.auto_hubs_promoted.map_values(|p: (Seq<char>, int)| hub_json(p)),
                ),
            ),
            ("auto_hub_threshold"@, JsonView::Number(AUTO_HUB_THRESHOLD as nat)),
        ],
    )
}

/// The walk as a value.
pub open spec fn bfs_json(
    target: Seq<char>,
    scope: Seq<char>,
    edges: Seq<EdgeView>,
    stats: StatsView,
    max_depth: nat,
) -> JsonView {
    JsonView::Object(
        seq![
            ("root"@, JsonView::Text(target)),
            ("scope"@, JsonView::Text(scope)),
            ("max_depth"@, JsonView::Number(max_depth)),
            ("depth_reached"@, JsonView::Number(stats.depth_reached as nat)),
            ("edges_total"@, JsonView::Number(stats.edges_total as nat)),
            ("elapsed_ms"@, JsonView::Number(stats.elapsed_ms as nat)),
            ("edges"@, edges_json(edges, scope)),
            ("stats"@, stats_json(edges, stats)),
            ("elided"@, elided_json(stats)),
            ("disclaimer"@, JsonView::Text(disclaimer())),
        ],
    )
}

fn edges_value(edges: &[BfsEdge], scope: &str) -> (r: JsonValue)
    ensures
        r@ == edges_json(edges_view(edges@), scope@),
{
    let ghost f = |x: EdgeView| edge_json(x, scope@);
    let ghost all = edges_view(edges@).map_values(f);
    let mut v: Vec<JsonValue> = Vec::new();
    let mut i: usize = 0;
    while i < edges.len()
        invariant
            i <= edges@.len(),
            f == (|x: EdgeView| edge_json(x, scope@)),
            all == edges_view(edges@).map_values(f),
            v@.len() == i,
            forall|j: int| 0 <= j < i ==> (#[trigger] v@[j])@ == all[j],
        decreases edges@.len() - i,
    {
        let e = &edges[i];
        let mut o = members();
        with(&mut o, "hop", number(e.hop));
        with(&mut o, "from", text(e.from.as_str()));
        with(&mut o, "from_file", text(rel(e.from_file.as_str(), scope).as_str()));
        with(&mut o, "from_line", number(e.from_line as usize));
        with(&mut o, "to", text(e.to.as_str()));
        with(&mut o, "call_text", text(e.call_text.as_str()));
        let x = object(o);
        assert(edges_view(edges@)[i as int] == e@);
        assert(x@->Object_0 =~= edge_json(e@, scope@)->Object_0);
        v.push(x);
        i = i + 1;
    }
    assert(values_view(v@) =~= all);
    list(v)
}

fn hops_value(hops: &Vec<HopStats>) -> (r: JsonValue)
    ensures
        r@ == JsonView::List(hops@.map_values(|h: HopStats| hop_json(h))),
{
    let ghost all = hops@.map_values(|h: HopStats| hop_json(h));
    let mut v: Vec<JsonValue> = Vec::new();
    let mut i: usize = 0;
    while i < hops.len()
        invariant
            i <= hops@.len(),
            all == hops@.map_values(|h: HopStats| hop_json(h)),
            v@.len() == i,
            forall|j: int| 0 <= j < i ==> (#[trigger] v@[j])@ == all[j],
        decreases hops@.len() - i,
    {
        let h = hops[i];
        let mut o = members();
        with(&mut o, "hop", number(h.hop));
        with(&mut o, "frontier_size", number(h.frontier_size));
        with(&mut o, "edges", number(h.edges));
        let x = object(o);
        assert(x@->Object_0 =~= hop_json(h)->Object_0);
        v.push(x);
        i = i + 1;
    }
    assert(values_view(v@) =~= all);
    list(v)
}

fn cuts_value(cuts: &Vec<(usize, usize)>) -> (r: JsonValue)
    ensures
        r@ == JsonView::List(cuts@.map_values(|c: (usize, usize)| cut_json(c))),
{
    let ghost all = cuts@.map_values(|c: (usize, usize)| cut_json(c));
    let mut v: Vec<JsonValue> = Vec::new();
    let mut i: usize = 0;
    while i < cuts.len()
        invariant
            i <= cuts@.len(),
            all == cuts@.map_values(|c: (usize, usize)| cut_json(c)),
            v@.len() == i,
            forall|j: int| 0 <= j < i ==> (#[trigger] v@[j])@ == all[j],
        decreases cuts@.len() - i,
    {
        let c = cuts[i];
        let mut o = members();
        with(&mut o, "hop", number(c.0));
        with(&mut o, "frontier_size_before_cut", number(c.1));
        let x = object(o);
        assert(x@->Object_0 =~= cut_json(c)->Object_0);
        v.push(x);
        i = i + 1;
    }
    assert(values_view(v@) =~= all);
    list(v)
}

fn names_value(names: &Vec<String>) -> (r: JsonValue)
    ensures
        r@ == JsonView::List(strs(names@).map_values(|n: Seq<char>| JsonView::Text(n))),
{
    let ghost all = strs(names@).map_values(|n: Seq<char>| JsonView::Text(n));
    let mut v: Vec<JsonValue> = Vec::new();
    let mut i: usize = 0;
    while i < names.len()
        invariant
            i <= names@.len(),
            all == strs(names@).map_values(|n: Seq<char>| JsonView::Text(n)),
            v@.len() == i,
            forall|j: int| 0 <= j < i ==> (#[trigger] v@[j])@ == all[j],
        decreases names@.len() - i,
    {
        assert(strs(names@)[i as int] == names@[i as int]@);
        v.push(text(names[i].as_str()));
        i = i + 1;
    }
    assert(values_view(v@) =~= all);
    list(v)
}

fn hubs_value(hubs: &Vec<(String, usize)>) -> (r: JsonValue)
    ensures
        r@ == JsonView::List(promoted_view(hubs@).map_values(|p: (Seq<char>, int)| hub_json(p))),
{
    let ghost all = promoted_view(hubs@).map_values(|p: (Seq<char>, int)| hub_json(p));
    let mut v: Vec<JsonValue> = Vec::new();
    let mut i: usize = 0;
    while i < hubs.len()
        invariant
            i <= hubs@.len(),
            all == promoted_view(hubs@).map_values(|p: (Seq<char>, int)| hub_json(p)),
            v@.len() == i,
            forall|j: int| 0 <= j < i ==> (#[trigger] v@[j])@ == all[j],
        decreases hubs@.len() - i,
    {
        let mut o = members();
        with(&mut o, "symbol", text(hubs[i].0.as_str()));
        with(&mut o, "edges", number(hubs[i].1));
        let x = object(o);
        let ghost p = promoted_view(hubs@)[i as int];
        assert(p == (hubs@[i as int].0@, hubs@[i as int].1 as int));
        assert(x@->Object_0 =~= hub_json(p)->Object_0);
        v.push(x);
        i = i + 1;
    }
    assert(values_view(v@) =~= all);
    list(v)
}

fn suspicions_value(suspects: &Vec<SuspicionInfo>) -> (r: JsonValue)
    ensures
        r@ == JsonView::List(suspects@.map_values(|s: SuspicionInfo| suspicion_json(s))),
{
    let ghost all = suspects@.map_values(|s: SuspicionInfo| suspicion_json(s));
    let mut v: Vec<JsonValue> = Vec::new();
    let mut i: usize = 0;
    while i < suspects.len()
        invariant
            i <= suspects@.len(),
            all == suspects@.map_values(|s: SuspicionInfo| suspicion_json(s)),
            v@.len() == i,
            forall|j: int| 0 <= j < i ==> (#[trigger] v@[j])@ == all[j],
        decreases suspects@.len() - i,
    {
        let s = suspects[i];
        let mut o = members();
        with(&mut o, "hop", number(s.hop));
        with(&mut o, "total_edges", number(s.total_edges));
        with(&mut o, "related_edges", number(s.related_edges));
        with(&mut o, "reason", text("name_collision"));
        let x = object(o);
        assert(x@->Object_0 =~= suspicion_json(s)->Object_0);
        v.push(x);
        i = i + 1;
    }
    assert(values_view(v@) =~= all);
    list(v)
}

fn stats_value(edges: &[BfsEdge], stats: &BfsStats) -> (r: JsonValue)
    ensures
        r@ == stats_json(edges_view(edges@), stats@),
{
    let suspects = compute_suspicious_hops(edges);
    let mut o = members();
    with(&mut o, "per_hop", hops_value(&stats.per_hop));
    with(&mut o, "top_level_terminal", number(stats.top_level_terminal));
    with(&mut o, "unresolved_symbols", number(stats.unresolved_symbols));
    with(&mut o, "suspicious_hops", suspicions_value(&suspects));
    let r = object(o);
    assert(r@->Object_0 =~= stats_json(edges_view(edges@), stats@)->Object_0);
    r
}

fn elided_value(stats: &BfsStats) -> (r: JsonValue)
    ensures
        r@ == elided_json(stats@),
{
    let cut = match stats.edges_cut_at_hop {
        Some(h) => number(h),
        None => JsonValue::Null,
    };
    let mut o = members();
    with(&mut o, "edges_cut_at_hop", cut);
    with(&mut o, "frontier_cuts", cuts_value(&stats.frontier_cut_hops));
    with(&mut o, "hubs_skipped", names_value(&sorted_names_of(&stats.hubs_skipped)));
    with(&mut o, "auto_hubs_promoted", hubs_value(&stats.auto_hubs_promoted));
    with(&mut o, "auto_hub_threshold", number(AUTO_HUB_THRESHOLD));
    let r = object(o);
    assert(r@->Object_0 =~= elided_json(stats@)->Object_0);
    r
}

/// The walk as a JSON value.
pub fn format_bfs_json(
    target: &str,
    scope: &str,
    edges: &[BfsEdge],
    stats: &BfsStats,
    max_depth: usize,
) -> (r: JsonValue)
    ensures
        r@ == bfs_json(target@, scope@, edges_view(edges@), stats@, max_depth as nat),
{
    let mut o = members();
    with(&mut o, "root", text(target));
    with(&mut o, "scope", text(scope));
    with(&mut o, "max_depth", number(max_depth));
    with(&mut o, "depth_reached", number(stats.depth_reached));
    with(&mut o, "edges_total", number(stats.edges_total));
    with(&mut o, "elapsed_ms", JsonValue::Number(stats.elapsed_ms));
    with(&mut o, "edges", edges_value(edges, scope));
    with(&mut o, "stats", stats_value(edges, stats));
    with(&mut o, "elided", elided_value(stats));
    with(
        &mut o,
        "disclaimer",
        text(
            "Static by-name call graph only. May miss indirect dispatch, reflection, macros, and calls from files > 500KB or from languages without a tree-sitter call query.",
        ),
    );
    let r = object(o);
    assert(r@->Object_0 =~= bfs_json(
        target@,
        scope@,
        edges_view(edges@),
        stats@,
        max_depth as nat,
    )->Object_0);
    r
}

/// Two walks with the same bounds are shown alike, as text and as a value, whatever the
/// order in which the files were searched: which edges are there, the order of every
/// list, and what was left out. Values differ at most in the time that the walk took.
pub proof fn law_report_is_deterministic(
    target: Seq<char>,
    scope: Seq<char>,
    hubs: Seq<Seq<char>>,
    max_frontier: int,
    max_edges: int,
    one: spec_fn(Seq<Seq<char>>) -> Seq<CallView>,
    other: spec_fn(Seq<Seq<char>>) -> Seq<CallView>,
    depth: nat,
    elapsed: int,
    other_elapsed: int,
)
    requires
        forall|f: Seq<Seq<char>>| same_by_file(#[trigger] one(f), other(f)),
    ensures
        ({
            let a = walk(target, hubs, max_frontier, max_edges, one, depth);
            let b = walk(target, hubs, max_frontier, max_edges, other, depth);
            let x = bfs_json(target, scope, found_edges(a), final_stats(a, elapsed), depth);
            let y = bfs_json(target, scope, found_edges(b), final_stats(b, other_elapsed), depth);
            &&& bfs_text(target, scope, found_edges(a), final_stats(a, elapsed), depth) == bfs_text(
                target,
                scope,
                found_edges(b),
                final_stats(b, elapsed),
                depth,
            )
            &&& x->Object_0.len() == y->Object_0.len()
            &&& forall|i: int|
                0 <= i < x->Object_0.len() ==> (#[trigger] x->Object_0[i]) == y->Object_0[i]
                    || (x->Object_0[i].0 == "elapsed_ms"@ && y->Object_0[i].0 == "elapsed_ms"@)
        }),
{
    law_walk_is_deterministic(target, hubs, max_frontier, max_edges, one, other, depth);
}

proof fn lemma_dedup(s: Seq<Seq<char>>)
    ensures
        forall|x: Seq<char>| #[trigger] dedup(s).contains(x) <==> s.contains(x),
        s.len() > 0 ==> dedup(s).len() > 0 && dedup(s).last() == s.last(),
        crate::sort::in_order(s, name_order()) ==> forall|i: int, j: int|
            0 <= i < j < dedup(s).len() ==> text_le(#[trigger] dedup(s)[i], #[trigger] dedup(s)[j])
                && dedup(s)[i] != dedup(s)[j],
    decreases s.len(),
{
    if s.len() > 1 {
        let t = s.drop_last();
        lemma_dedup(t);
        let q = dedup(t);
        let r = dedup(s);
        assert(t.last() == s[s.len() - 2]);
        assert forall|x: Seq<char>| #[trigger] r.contains(x) <==> s.contains(x) by {
            if r.contains(x) {
                let k = choose|k: int| 0 <= k < r.len() && r[k] == x;
                if k < q.len() {
                    assert(q[k] == x);
                    assert(q.contains(x));
                    let j = choose|j: int| 0 <= j < t.len() && t[j] == x;
                    assert(s[j] == x);
                } else {
                    assert(s[s.len() - 1] == x);
                }
            }
            if s.contains(x) {
                let j = choose|j: int| 0 <= j < s.len() && s[j] == x;
                if j < t.len() {
                    assert(t[j] == x);
                } else if s.last() == s[s.len() - 2] {
                    assert(t[t.len() - 1] == x);
                }
                if t.contains(x) {
                    assert(q.contains(x));
                    let k = choose|k: int| 0 <= k < q.len() && q[k] == x;
                    assert(r[k] == x);
                } else {
                    assert(r[q.len() as int] == x);
                }
            }
        }
        if crate::sort::in_order(s, name_order()) {
            assert(crate::sort::in_order(t, name_order())) by {
                assert forall|i: int, j: int| 0 <= i < j < t.len() implies name_order()(
                    #[trigger] t[i],
                    #[trigger] t[j],
                ) by {
                    assert(name_order()(s[i], s[j]));
                }
            }
            assert forall|i: int, j: int| 0 <= i < j < r.len() implies text_le(
                #[trigger] r[i],
                #[trigger] r[j],
            ) && r[i] != r[j] by {
                assert(r[i] == q[i]);
                if j < q.len() {
                    assert(r[j] == q[j]);
                } else {
                    assert(q.contains(q[i]));
                    let a = choose|a: int| 0 <= a < t.len() && t[a] == q[i];
                    assert(name_order()(s[a], s[s.len() - 1]));
                    if i < q.len() - 1 {
                        assert(text_le(q[i], q[q.len() - 1]) && q[i] != q[q.len() - 1]);
                        assert(name_order()(s[s.len() - 2], s[s.len() - 1]));
                        crate::text::lemma_text_order(q[i], q[q.len() - 1]);
                        if q[i] == s.last() {
                            crate::text::lemma_text_order(s.last(), t.last());
                        }
                    }
                }
            }
        }
    }
}

/// Listing names in order keeps every name, adds none, and lists each once: every name
/// stands before those that follow it in the order of texts.
pub proof fn law_names_listed_once(s: Seq<Seq<char>>)
    ensures
        forall|x: Seq<char>| #[trigger] sorted_names(s).contains(x) <==> s.contains(x),
        forall|i: int, j: int|
            0 <= i < j < sorted_names(s).len() ==> text_le(
                #[trigger] sorted_names(s)[i],
                #[trigger] sorted_names(s)[j],
            ) && sorted_names(s)[i] != sorted_names(s)[j],
{
    let sorted = stable_sort(s, name_order());
    lemma_name_order();
    crate::sort::law_sort_orders(s, name_order());
    lemma_dedup(sorted);
    assert forall|x: Seq<char>| #[trigger] sorted_names(s).contains(x) <==> s.contains(x) by {
        crate::sort::law_sort_keeps_members(s, name_order(), x);
    }
}

proof fn lemma_name_order()
    ensures
        crate::sort::is_preorder(name_order()),
{
    assert forall|a: Seq<char>, b: Seq<char>| #[trigger] name_order()(a, b) || name_order()(b, a) by {
        crate::text::lemma_text_order(a, b);
    }
    assert forall|a: Seq<char>, b: Seq<char>, c: Seq<char>| #[trigger]
        name_order()(a, b) && #[trigger] name_order()(b, c) implies name_order()(a, c) by {
        crate::text::lemma_text_trans(a, b, c);
    }
}

proof fn lemma_edge_parts(
    a: Seq<char>,
    b: Seq<char>,
    c: Seq<char>,
    d: Seq<char>,
    e: Seq<char>,
    f: Seq<char>,
    g: Seq<char>,
    h: Seq<char>,
    i: Seq<char>,
    from: Seq<char>,
)
    requires
        has(b, from),
    ensures
        has(a + b + c + d + e + f + g + h + i, from),
        has(a + b + c + d + e + f + g + h + i, d + e + f),
        has(a + b + c + d + e + f + g + h + i, h),
{
    let all = a + b + c + d + e + f + g + h + i;
    let place = d + e + f;
    assert(all =~= a + b + (c + d + e + f + g + h + i));
    lemma_has_within(a, b, c + d + e + f + g + h + i, from);
    assert(all =~= (a + b + c) + place + (g + h + i));
    lemma_has_self(place);
    lemma_has_within(a + b + c, place, g + h + i, place);
    lemma_has_self(h);
    lemma_has_within(a + b + c + d + e + f + g, h, i, h);
}

proof fn lemma_edge_text(e: EdgeView, scope: Seq<char>)
    ensures
        has(edge_text(e, scope), e.from),
        has(edge_text(e, scope), shown(e.from_file, scope) + ":"@ + dec(e.from_line as nat)),
        has(
            edge_text(e, scope),
            if e.call_text.len() == 0 {
                e.to
            } else {
                e.call_text
            },
        ),
{
    let call = if e.call_text.len() == 0 {
        e.to
    } else {
        e.call_text
    };
    lemma_has_self(e.from);
    if e.from.len() < 28 {
        lemma_has_left(e.from, crate::text::run(' ', (28 - e.from.len()) as nat), e.from);
    }
    lemma_edge_parts(
        "  "@,
        pad_right(e.from, 28),
        " "@,
        shown(e.from_file, scope),
        ":"@,
        dec(e.from_line as nat),
        "  → "@,
        call,
        "\n"@,
        e.from,
    );
}

proof fn lemma_edges_shown(s: Seq<char>, edges: Seq<EdgeView>, scope: Seq<char>, n: int, i: int)
    requires
        0 <= i < n <= edges.len(),
    ensures
        has(with_edges(s, edges, scope, n), edge_text(edges[i], scope)),
    decreases n,
{
    let r = with_edges(s, edges, scope, n - 1);
    let e = edges[n - 1];
    let own = edge_text(e, scope);
    let piece = edge_text(edges[i], scope);
    let h = hop_heading(e.hop as nat, hop_total(edges, e.hop, edges.len() as int));
    let t = if n == 1 || edges[n - 2].hop != e.hop {
        r + h
    } else {
        r
    };
    if i < n - 1 {
        lemma_edges_shown(s, edges, scope, n - 1, i);
        lemma_has_left(r, h, piece);
        lemma_has_left(t, own, piece);
    } else {
        lemma_has_self(own);
        lemma_has_right(t, own, own);
    }
}

proof fn lemma_notes_grow(s: Seq<char>, notes: Seq<Seq<char>>, n: int, p: Seq<char>)
    requires
        has(s, p),
    ensures
        has(with_notes(s, notes, n), p),
    decreases n,
{
    if n > 0 {
        lemma_notes_grow(s, notes, n - 1, p);
        let r = with_notes(s, notes, n - 1);
        lemma_has_left(r, "  • "@, p);
        lemma_has_left(r + "  • "@, notes[n - 1], p);
        lemma_has_left(r + "  • "@ + notes[n - 1], "\n"@, p);
    }
}

/// Every note is shown.
pub proof fn law_every_note_is_shown(s: Seq<char>, notes: Seq<Seq<char>>, n: int, i: int)
    requires
        0 <= i < n <= notes.len(),
    ensures
        has(with_notes(s, notes, n), notes[i]),
    decreases n,
{
    let r = with_notes(s, notes, n - 1);
    let own = notes[n - 1];
    if i < n - 1 {
        law_every_note_is_shown(s, notes, n - 1, i);
        lemma_has_left(r, "  • "@, notes[i]);
        lemma_has_left(r + "  • "@, own, notes[i]);
    } else {
        lemma_has_self(own);
        lemma_has_right(r + "  • "@, own, own);
    }
    lemma_has_left(r + "  • "@ + own, "\n"@, notes[i]);
}

/// Every edge of a walk is shown: who calls, where, and the call.
pub proof fn law_every_edge_is_shown(
    target: Seq<char>,
    scope: Seq<char>,
    edges: Seq<EdgeView>,
    stats: StatsView,
    max_depth: nat,
    i: int,
)
    requires
        0 <= i < edges.len(),
    ensures
        ({
            let t = bfs_text(target, scope, edges, stats, max_depth);
            let e = edges[i];
            &&& has(t, e.from)
            &&& has(t, shown(e.from_file, scope) + ":"@ + dec(e.from_line as nat))
            &&& has(
                t,
                if e.call_text.len() == 0 {
                    e.to
                } else {
                    e.call_text
                },
            )
        }),
{
    let e = edges[i];
    let own = edge_text(e, scope);
    let s = stable_sort(edges, edge_order());
    let n = notes(stats, suspicions(edges), target);
    let h = bfs_header(target, scope, stats, max_depth);
    assert(edges.contains(e));
    crate::sort::law_sort_keeps_members(edges, edge_order(), e);
    let k = choose|k: int| 0 <= k < s.len() && s[k] == e;
    lemma_edges_shown(h, s, scope, s.len() as int, k);
    let head = with_edges(h, s, scope, s.len() as int);
    let noted = if n.len() > 0 {
        with_notes(head + "\n── budget ──\n"@, n, n.len() as int)
    } else {
        head
    };
    lemma_has_left(head, "\n── budget ──\n"@, own);
    lemma_notes_grow(head + "\n── budget ──\n"@, n, n.len() as int, own);
    lemma_has_left(noted, "\n"@, own);
    lemma_has_left(noted + "\n"@, disclaimer(), own);
    lemma_has_left(noted + "\n"@ + disclaimer(), "\n"@, own);
    let b = bfs_body(target, scope, edges, stats, max_depth);
    assert(has(b, own));
    lemma_has_left(b, "\n"@, own);
    lemma_has_left(b + "\n"@, token_note(b), own);
    let t = bfs_text(target, scope, edges, stats, max_depth);
    lemma_edge_text(e, scope);
    lemma_has_trans(t, own, e.from);
    lemma_has_trans(t, own, shown(e.from_file, scope) + ":"@ + dec(e.from_line as nat));
    lemma_has_trans(
        t,
        own,
        if e.call_text.len() == 0 {
            e.to
        } else {
            e.call_text
        },
    );
}

} // verus!
