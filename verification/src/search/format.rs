//! Showing search results: each match with its outline, the first with their source.
use vstd::prelude::*;
use vstd::string::*;

use crate::lang::outline::{get_outline_entries, outline_of};
use crate::lang::{detect_file_type, file_type};
use crate::paths::{equal_paths, same_path};
use crate::session::{place_key, Session};
use crate::text::{
    chars_of, dec, has, lemma_strs_push, lines, lines_of, opt_text, push_dec, same_opt, same_text, strs,
    trim, trim_of, views, words, words_of,
};
use crate::types::{
    entries_view, found_view, ints, lemma_ints_push, FileType, Lang, Match, MatchView,
};

use super::bfs_format::{rel, shown};
use super::callees::{
    callee_names, callees_view, extract_callee_names, trees_view, CalleeTreeView, CalleeView,
    ResolvedCallee, ResolvedCalleeNode,
};
use super::expand::{
    code_block, enclosing_idx, expand_match, filter_code_lines, find_enclosing_outline_idx,
    format_line_list, has_line, outline_context, outline_context_for_match, run_texts, runs,
    without_lines,
};
use super::siblings::{
    extract_sibling_references, find_parent_entry, parent_entry, resolve_siblings, sibling_names,
    siblings, siblings_view, SiblingView,
};

verus! {

/// What is known of the file of a match.
#[derive(Debug)]
pub struct MatchContext {
    /// The outline of the file, where it is code and not too large.
    pub outline: Option<String>,
    /// The content of the file, where it can be read.
    pub content: Option<String>,
    /// The lines that are noise.
    pub noise: Vec<u32>,
    /// The lines of a long definition that are worth showing.
    pub keep: Option<Vec<u32>>,
    /// The functions that the definition calls.
    pub callees: Vec<ResolvedCalleeNode>,
}

/// What a context says.
pub struct ContextView {
    pub outline: Option<Seq<char>>,
    pub content: Option<Seq<char>>,
    pub noise: Seq<u32>,
    pub keep: Option<Seq<u32>>,
    pub callees: Seq<CalleeTreeView>,
}

impl View for MatchContext {
    type V = ContextView;

    open spec fn view(&self) -> ContextView {
        ContextView {
            outline: opt_text(self.outline),
            content: opt_text(self.content),
            noise: self.noise@,
            keep: match self.keep {
                Some(v) => Some(v@),
                None => None,
            },
            callees: trees_view(self.callees@),
        }
    }
}

/// What the contexts of a list say.
pub open spec fn contexts_view(v: Seq<MatchContext>) -> Seq<ContextView> {
    v.map_values(|c: MatchContext| c@)
}

/// How many matches may still be shown with their source, which files were, and what
/// the session has shown.
pub struct ExpandState {
    pub remaining: usize,
    pub files: Vec<String>,
    pub session: Option<Session>,
}

/// What a state says.
pub struct ExpandView {
    pub remaining: nat,
    pub files: Seq<Seq<char>>,
    pub session: Option<Set<Seq<char>>>,
}

impl View for ExpandState {
    type V = ExpandView;

    open spec fn view(&self) -> ExpandView {
        ExpandView {
            remaining: self.remaining as nat,
            files: strs(self.files@),
            session: match self.session {
                Some(s) => Some(s@),
                None => None,
            },
        }
    }
}

// ---------------------------------------------------------------------------
// The heading of a match
// ---------------------------------------------------------------------------

/// What a match is called.
pub open spec fn kind_label(m: MatchView) -> Seq<char> {
    if m.impl_target is Some {
        "impl"@
    } else if m.is_definition {
        "definition"@
    } else {
        "usage"@
    }
}

/// The lines of a definition.
pub open spec fn range_text(r: (u32, u32)) -> Seq<char> {
    dec(r.0 as nat) + "-"@ + dec(r.1 as nat)
}

/// Where the match stands and what it is.
pub open spec fn match_heading(m: MatchView, scope: Seq<char>) -> Seq<char> {
    "\n\n## "@ + shown(m.path, scope) + ":"@ + (match m.def_range {
        Some(r) => if m.is_definition {
            range_text(r)
        } else {
            dec(m.line as nat)
        },
        None => dec(m.line as nat),
    }) + " ["@ + kind_label(m) + "]"@
}

fn push_range(out: &mut String, r: (u32, u32))
    ensures
        final(out)@ == old(out)@ + range_text(r),
{
    let ghost start = out@;
    push_dec(out, r.0 as usize);
    out.append("-");
    push_dec(out, r.1 as usize);
    assert(out@ =~= start + range_text(r));
}

fn push_heading(out: &mut String, m: &Match, scope: &str)
    ensures
        final(out)@ == old(out)@ + match_heading(m@, scope@),
{
    let mut s = "\n\n## ".to_owned();
    s.append(rel(m.path.as_str(), scope).as_str());
    s.append(":");
    match m.def_range {
        Some(r) => {
            if m.is_definition {
                push_range(&mut s, r);
            } else {
                push_dec(&mut s, m.line as usize);
            }
        },
        None => {
            push_dec(&mut s, m.line as usize);
        },
    }
    s.append(" [");
    if m.impl_target.is_some() {
        s.append("impl");
    } else if m.is_definition {
        s.append("definition");
    } else {
        s.append("usage");
    }
    s.append("]");
    out.append(s.as_str());
}

/// The number of lines below which a file is shown without its outline.
pub const SMALL_FILE: u32 = 50;

/// The line of the match.
pub open spec fn match_line(m: MatchView) -> Seq<char> {
    "\n→ ["@ + dec(m.line as nat) + "]   "@ + m.text
}

/// Where the match stands in the outline; in a small file, or without an outline, its
/// line.
pub open spec fn match_outline(m: MatchView, c: ContextView) -> Seq<char> {
    if m.file_lines < SMALL_FILE {
        match_line(m)
    } else {
        match outline_context(c.outline, m.line) {
            Some(t) => t,
            None => match_line(m),
        }
    }
}

fn push_line(out: &mut String, m: &Match)
    ensures
        final(out)@ == old(out)@ + match_line(m@),
{
    let mut s = "\n→ [".to_owned();
    push_dec(&mut s, m.line as usize);
    s.append("]   ");
    s.append(m.text.as_str());
    out.append(s.as_str());
}

fn push_outline(out: &mut String, m: &Match, c: &MatchContext)
    ensures
        final(out)@ == old(out)@ + match_outline(m@, c@),
{
    if m.file_lines < SMALL_FILE {
        push_line(out, m);
    } else {
        match outline_context_for_match(&c.outline, m.line) {
            Some(t) => {
                out.append(t.as_str());
            },
            None => {
                push_line(out, m);
            },
        }
    }
}

// ---------------------------------------------------------------------------
// The source of a match
// ---------------------------------------------------------------------------

/// The match is a definition whose lines are known.
pub open spec fn has_body(m: MatchView) -> bool {
    m.is_definition && m.def_range is Some
}

/// The language of the file.
pub open spec fn code_lang(path: Seq<char>) -> Option<Lang> {
    match file_type(path) {
        FileType::Code(l) => Some(l),
        _ => None,
    }
}

fn lang_of(path: &str) -> (r: Option<Lang>)
    ensures
        r == code_lang(path@),
{
    match detect_file_type(path) {
        FileType::Code(l) => Some(l),
        _ => None,
    }
}

/// The lines from `a` to `n` that are not worth showing.
pub open spec fn dropped(keep: Seq<u32>, a: int, n: int) -> Seq<u32>
    decreases n - a + 1,
{
    if n < a {
        Seq::empty()
    } else if keep.contains(n as u32) {
        dropped(keep, a, n - 1)
    } else {
        dropped(keep, a, n - 1).push(n as u32)
    }
}

/// The lines that are left out: noise, and what is not worth showing of a long
/// definition.
pub open spec fn skipped_lines(m: MatchView, c: ContextView) -> Seq<u32> {
    c.noise + (match (m.def_range, code_lang(m.path), c.keep) {
        (Some((a, b)), Some(l), Some(keep)) => dropped(keep, a as int, b as int),
        _ => Seq::empty(),
    })
}

fn push_dropped(out: &mut Vec<u32>, keep: &Vec<u32>, a: u32, b: u32)
    ensures
        final(out)@ == old(out)@ + dropped(keep@, a as int, b as int),
{
    let ghost start = out@;
    let mut n: u64 = a as u64;
    assert(start + dropped(keep@, a as int, a - 1) =~= start);
    if b < a {
        assert(start + dropped(keep@, a as int, b as int) =~= start);
        return ;
    }
    while n <= b as u64
        invariant
            a <= n <= b + 1,
            out@ == start + dropped(keep@, a as int, n - 1),
        decreases b + 1 - n,
    {
        let ghost before = dropped(keep@, a as int, n - 1);
        if !has_line(keep, n as u32) {
            out.push(n as u32);
            assert(out@ =~= start + before.push(n as u32));
        }
        n = n + 1;
    }
}

fn lines_to_skip(m: &Match, c: &MatchContext) -> (r: Vec<u32>)
    ensures
        r@ == skipped_lines(m@, c@),
{
    let mut r: Vec<u32> = c.noise.clone();
    assert(r@ =~= c.noise@);
    if let Some((a, b)) = m.def_range {
        if let Some(l) = lang_of(m.path.as_str()) {
            if let Some(keep) = &c.keep {
                push_dropped(&mut r, keep, a, b);
                return r;
            }
        }
    }
    assert(r@ =~= skipped_lines(m@, c@));
    r
}

/// The source of the match without the lines that are left out.
pub open spec fn source_block(m: MatchView, c: ContextView, content: Seq<char>, scope: Seq<char>) -> Seq<
    char,
> {
    if skipped_lines(m, c).len() == 0 {
        code_block(m, content, scope)
    } else {
        without_lines(code_block(m, content, scope), skipped_lines(m, c))
    }
}

fn source_text(m: &Match, c: &MatchContext, content: &str, scope: &str) -> (r: String)
    ensures
        r@ == source_block(m@, c@, content@, scope@),
{
    let code = expand_match(m, content, scope);
    let skip = lines_to_skip(m, c);
    if skip.len() == 0 {
        code
    } else {
        filter_code_lines(code.as_str(), &skip)
    }
}

// ---------------------------------------------------------------------------
// Calls
// ---------------------------------------------------------------------------

/// How many of the functions that a definition calls are shown at most.
pub const MAX_CALLEES: usize = 8;

/// Those of the first `n` functions that have another name.
pub open spec fn others(nodes: Seq<CalleeTreeView>, name: Option<Seq<char>>, n: int) -> Seq<CalleeTreeView>
    decreases n,
{
    if n <= 0 {
        Seq::empty()
    } else {
        let r = others(nodes, name, n - 1);
        if name == Some(nodes[n - 1].callee.name) {
            r
        } else {
            r.push(nodes[n - 1])
        }
    }
}

/// Those of the first `n` functions that are in the file, or those that are not.
pub open spec fn by_file(nodes: Seq<CalleeTreeView>, path: Seq<char>, inside: bool, n: int) -> Seq<
    CalleeTreeView,
>
    decreases n,
{
    if n <= 0 {
        Seq::empty()
    } else {
        let r = by_file(nodes, path, inside, n - 1);
        if same_path(nodes[n - 1].callee.file, path) == inside {
            r.push(nodes[n - 1])
        } else {
            r
        }
    }
}

/// The functions that are shown of those that a definition calls: where there are too
/// many, those of other files come first.
pub open spec fn shown_callees(m: MatchView, nodes: Seq<CalleeTreeView>) -> Seq<CalleeTreeView> {
    let r = others(nodes, m.def_name, nodes.len() as int);
    if r.len() > MAX_CALLEES {
        (by_file(r, m.path, false, r.len() as int) + by_file(
            r,
            m.path,
            true,
            r.len() as int,
        )).take(MAX_CALLEES as int)
    } else {
        r
    }
}

/// A function with its place and its signature.
pub open spec fn callee_text(c: CalleeView, scope: Seq<char>) -> Seq<char> {
    c.name + "  "@ + shown(c.file, scope) + ":"@ + range_text((c.start_line, c.end_line)) + (
    match c.signature {
        Some(s) => "  "@ + s,
        None => Seq::empty(),
    })
}

/// The first `n` functions that a function calls in turn.
pub open spec fn child_rows(v: Seq<CalleeView>, scope: Seq<char>, n: int) -> Seq<char>
    decreases n,
{
    if n <= 0 {
        Seq::empty()
    } else {
        child_rows(v, scope, n - 1) + "\n    → "@ + callee_text(v[n - 1], scope)
    }
}

/// The first `n` functions that a definition calls, with those that they call.
pub open spec fn callee_rows(v: Seq<CalleeTreeView>, scope: Seq<char>, n: int) -> Seq<char>
    decreases n,
{
    if n <= 0 {
        Seq::empty()
    } else {
        callee_rows(v, scope, n - 1) + "\n  "@ + callee_text(v[n - 1].callee, scope) + child_rows(
            v[n - 1].children,
            scope,
            v[n - 1].children.len() as int,
        )
    }
}

/// The functions that the definition calls.
pub open spec fn calls_section(
    m: MatchView,
    nodes: Seq<CalleeTreeView>,
    content: Seq<char>,
    lang: Lang,
    scope: Seq<char>,
) -> Seq<char> {
    let v = shown_callees(m, nodes);
    if callee_names(content, lang, m.def_range).len() == 0 || v.len() == 0 {
        Seq::empty()
    } else {
        "\n\n── calls ──"@ + callee_rows(v, scope, v.len() as int)
    }
}

fn push_callee(out: &mut String, c: &ResolvedCallee, scope: &str)
    ensures
        final(out)@ == old(out)@ + callee_text(c@, scope@),
{
    let ghost start = out@;
    let mut s = c.name.clone();
    s.append("  ");
    s.append(rel(c.file.as_str(), scope).as_str());
    s.append(":");
    push_range(&mut s, (c.start_line, c.end_line));
    match &c.signature {
        Some(sig) => {
            let ghost before = s@;
            s.append("  ");
            s.append(sig.as_str());
            assert(s@ =~= before + ("  "@ + sig@));
        },
        None => {
            assert(s@ =~= s@ + Seq::<char>::empty());
        },
    }
    out.append(s.as_str());
}

fn push_children(out: &mut String, v: &Vec<ResolvedCallee>, scope: &str)
    ensures
        final(out)@ == old(out)@ + child_rows(callees_view(v@), scope@, v@.len() as int),
{
    let ghost start = out@;
    let ghost w = callees_view(v@);
    let mut i: usize = 0;
    assert(start + child_rows(w, scope@, 0) =~= start);
    while i < v.len()
        invariant
            i <= v@.len(),
            w == callees_view(v@),
            out@ == start + child_rows(w, scope@, i as int),
        decreases v@.len() - i,
    {
        assert(w[i as int] == v@[i as int]@);
        out.append("\n    → ");
        push_callee(out, &v[i], scope);
        assert(out@ =~= start + child_rows(w, scope@, i + 1));
        i = i + 1;
    }
}

/// What the nodes at the positions say.
pub open spec fn picked_nodes(v: Seq<CalleeTreeView>, p: Seq<usize>) -> Seq<CalleeTreeView> {
    p.map_values(|i: usize| v[i as int])
}

fn other_callees(nodes: &Vec<ResolvedCalleeNode>, name: &Option<String>) -> (r: Vec<usize>)
    ensures
        forall|k: int| 0 <= k < r@.len() ==> #[trigger] r@[k] < nodes@.len(),
        picked_nodes(trees_view(nodes@), r@) == others(
            trees_view(nodes@),
            opt_text(*name),
            nodes@.len() as int,
        ),
{
    let ghost v = trees_view(nodes@);
    let mut r: Vec<usize> = Vec::new();
    let mut i: usize = 0;
    assert(picked_nodes(v, r@) =~= Seq::<CalleeTreeView>::empty());
    while i < nodes.len()
        invariant
            i <= nodes@.len(),
            v == trees_view(nodes@),
            forall|k: int| 0 <= k < r@.len() ==> #[trigger] r@[k] < nodes@.len(),
            picked_nodes(v, r@) == others(v, opt_text(*name), i as int),
        decreases nodes@.len() - i,
    {
        assert(v[i as int] == nodes@[i as int]@);
        let own = match name {
            Some(n) => same_text(n.as_str(), nodes[i].callee.name.as_str()),
            None => false,
        };
        if !own {
            let ghost was = r@;
            r.push(i);
            assert(picked_nodes(v, r@) =~= picked_nodes(v, was).push(v[i as int]));
        }
        i = i + 1;
    }
    r
}

fn pick_by_file(
    nodes: &Vec<ResolvedCalleeNode>,
    p: &Vec<usize>,
    path: &str,
    inside: bool,
    out: &mut Vec<usize>,
)
    requires
        forall|k: int| 0 <= k < p@.len() ==> #[trigger] p@[k] < nodes@.len(),
        forall|k: int| 0 <= k < old(out)@.len() ==> #[trigger] old(out)@[k] < nodes@.len(),
    ensures
        forall|k: int| 0 <= k < final(out)@.len() ==> #[trigger] final(out)@[k] < nodes@.len(),
        picked_nodes(trees_view(nodes@), final(out)@) == picked_nodes(
            trees_view(nodes@),
            old(out)@,
        ) + by_file(picked_nodes(trees_view(nodes@), p@), path@, inside, p@.len() as int),
{
    let ghost v = trees_view(nodes@);
    let ghost w = picked_nodes(v, p@);
    let ghost start = picked_nodes(v, out@);
    let mut i: usize = 0;
    assert(start + by_file(w, path@, inside, 0) =~= start);
    while i < p.len()
        invariant
            i <= p@.len(),
            v == trees_view(nodes@),
            w == picked_nodes(v, p@),
            forall|k: int| 0 <= k < p@.len() ==> #[trigger] p@[k] < nodes@.len(),
            forall|k: int| 0 <= k < out@.len() ==> #[trigger] out@[k] < nodes@.len(),
            picked_nodes(v, out@) == start + by_file(w, path@, inside, i as int),
        decreases p@.len() - i,
    {
        let k: usize = p[i];
        assert(w[i as int] == v[k as int]);
        assert(v[k as int] == nodes@[k as int]@);
        if equal_paths(nodes[k].callee.file.as_str(), path) == inside {
            let ghost was = out@;
            let ghost before = by_file(w, path@, inside, i as int);
            out.push(k);
            assert(picked_nodes(v, out@) =~= picked_nodes(v, was).push(v[k as int]));
            assert((start + before).push(v[k as int]) =~= start + before.push(v[k as int]));
        }
        i = i + 1;
    }
}

fn callees_to_show(m: &Match, nodes: &Vec<ResolvedCalleeNode>) -> (r: Vec<usize>)
    ensures
        forall|k: int| 0 <= k < r@.len() ==> #[trigger] r@[k] < nodes@.len(),
        picked_nodes(trees_view(nodes@), r@) == shown_callees(m@, trees_view(nodes@)),
{
    let ghost v = trees_view(nodes@);
    assert(v.len() == nodes@.len());
    let p = other_callees(nodes, &m.def_name);
    let ghost w = picked_nodes(v, p@);
    assert(w.len() == p@.len());
    if p.len() > MAX_CALLEES {
        let mut r: Vec<usize> = Vec::new();
        assert(picked_nodes(v, r@) =~= Seq::<CalleeTreeView>::empty());
        pick_by_file(nodes, &p, m.path.as_str(), false, &mut r);
        pick_by_file(nodes, &p, m.path.as_str(), true, &mut r);
        let ghost all = picked_nodes(v, r@);
        assert(all =~= by_file(w, m.path@, false, w.len() as int) + by_file(
            w,
            m.path@,
            true,
            w.len() as int,
        ));
        proof {
            lemma_by_file_lengths(w, m.path@, w.len() as int);
            assert(all.len() == r@.len());
        }
        let ghost full = r@;
        r.truncate(MAX_CALLEES);
        assert(r@ =~= full.take(MAX_CALLEES as int));
        assert(picked_nodes(v, r@) =~= all.take(MAX_CALLEES as int));
        r
    } else {
        p
    }
}

proof fn lemma_by_file_lengths(v: Seq<CalleeTreeView>, path: Seq<char>, n: int)
    requires
        0 <= n <= v.len(),
    ensures
        by_file(v, path, false, n).len() + by_file(v, path, true, n).len() == n,
    decreases n,
{
    if n > 0 {
        lemma_by_file_lengths(v, path, n - 1);
    }
}

fn push_calls(
    out: &mut String,
    m: &Match,
    nodes: &Vec<ResolvedCalleeNode>,
    content: &str,
    lang: Lang,
    scope: &str,
)
    ensures
        final(out)@ == old(out)@ + calls_section(m@, trees_view(nodes@), content@, lang, scope@),
{
    let ghost start = out@;
    let ghost v = trees_view(nodes@);
    let names = extract_callee_names(content, lang, m.def_range);
    assert(strs(names@).len() == names@.len());
    if names.len() == 0 {
        assert(start + Seq::<char>::empty() =~= start);
        return ;
    }
    let p = callees_to_show(m, nodes);
    let ghost w = picked_nodes(v, p@);
    assert(w.len() == p@.len());
    if p.len() == 0 {
        assert(start + Seq::<char>::empty() =~= start);
        return ;
    }
    let mut s = "\n\n── calls ──".to_owned();
    let ghost head = s@;
    let mut i: usize = 0;
    assert(head + callee_rows(w, scope@, 0) =~= head);
    while i < p.len()
        invariant
            i <= p@.len(),
            v == trees_view(nodes@),
            w == picked_nodes(v, p@),
            forall|k: int| 0 <= k < p@.len() ==> #[trigger] p@[k] < nodes@.len(),
            s@ == head + callee_rows(w, scope@, i as int),
        decreases p@.len() - i,
    {
        let n = &nodes[p[i]];
        assert(w[i as int] == v[p@[i as int] as int]);
        assert(w[i as int] == n@);
        s.append("\n  ");
        push_callee(&mut s, &n.callee, scope);
        push_children(&mut s, &n.children, scope);
        assert(callees_view(n.children@).len() == n.children@.len());
        assert(s@ =~= head + callee_rows(w, scope@, i + 1));
        i = i + 1;
    }
    out.append(s.as_str());
}

// ---------------------------------------------------------------------------
// Siblings
// ---------------------------------------------------------------------------

/// Those of the first `n` names that are not the definition's own.
pub open spec fn other_names(names: Seq<Seq<char>>, own: Option<Seq<char>>, n: int) -> Seq<Seq<char>>
    decreases n,
{
    if n <= 0 {
        Seq::empty()
    } else {
        let r = other_names(names, own, n - 1);
        if own == Some(names[n - 1]) {
            r
        } else {
            r.push(names[n - 1])
        }
    }
}

/// The first `n` siblings with their places and signatures.
pub open spec fn sibling_rows(v: Seq<SiblingView>, path: Seq<char>, scope: Seq<char>, n: int) -> Seq<char>
    decreases n,
{
    if n <= 0 {
        Seq::empty()
    } else {
        sibling_rows(v, path, scope, n - 1) + "\n  "@ + v[n - 1].name + "  "@ + shown(path, scope)
            + ":"@ + range_text((v[n - 1].start_line, v[n - 1].end_line)) + "  "@ + v[n - 1].signature
    }
}

/// The members of the same type that the definition refers to.
pub open spec fn siblings_section(
    m: MatchView,
    range: (u32, u32),
    content: Seq<char>,
    lang: Lang,
    scope: Seq<char>,
) -> Seq<char> {
    let entries = outline_of(content, lang);
    match parent_entry(entries, m.line, 0) {
        Some(i) => {
            let names = sibling_names(content, lang, range);
            let v = siblings(
                other_names(names, m.def_name, names.len() as int),
                entries[i].children,
            );
            if v.len() == 0 {
                Seq::empty()
            } else {
                "\n\n── siblings ──"@ + sibling_rows(v, m.path, scope, v.len() as int)
            }
        },
        None => Seq::empty(),
    }
}

fn names_without(names: &Vec<String>, own: &Option<String>) -> (r: Vec<String>)
    ensures
        strs(r@) == other_names(strs(names@), opt_text(*own), names@.len() as int),
{
    broadcast use lemma_strs_push;

    let ghost v = strs(names@);
    let mut r: Vec<String> = Vec::new();
    let mut i: usize = 0;
    assert(strs(r@) =~= Seq::<Seq<char>>::empty());
    while i < names.len()
        invariant
            i <= names@.len(),
            v == strs(names@),
            strs(r@) == other_names(v, opt_text(*own), i as int),
        decreases names@.len() - i,
    {
        assert(v[i as int] == names@[i as int]@);
        let is_own = match own {
            Some(o) => same_text(o.as_str(), names[i].as_str()),
            None => false,
        };
        if !is_own {
            r.push(names[i].clone());
        }
        i = i + 1;
    }
    r
}

fn push_siblings(
    out: &mut String,
    m: &Match,
    range: (u32, u32),
    content: &str,
    lang: Lang,
    scope: &str,
)
    ensures
        final(out)@ == old(out)@ + siblings_section(m@, range, content@, lang, scope@),
{
    let ghost start = out@;
    let entries = get_outline_entries(content, lang);
    let ghost es = entries_view(entries@);
    assert(start + Seq::<char>::empty() =~= start);
    let parent = match find_parent_entry(entries.as_slice(), m.line) {
        Some(p) => p,
        None => {
            return ;
        },
    };
    let ghost at = parent_entry(es, m.line, 0)->0;
    proof {
        assert(es[at] == parent@);
        crate::types::lemma_children(*parent);
    }
    let names = extract_sibling_references(content, lang, range);
    assert(strs(names@).len() == names@.len());
    let wanted = names_without(&names, &m.def_name);
    let found = resolve_siblings(wanted.as_slice(), parent.children.as_slice());
    let ghost v = siblings_view(found@);
    assert(v.len() == found@.len());
    if found.len() == 0 {
        return ;
    }
    let mut s = "\n\n── siblings ──".to_owned();
    let ghost head = s@;
    let mut i: usize = 0;
    assert(head + sibling_rows(v, m.path@, scope@, 0) =~= head);
    while i < found.len()
        invariant
            i <= found@.len(),
            v == siblings_view(found@),
            s@ == head + sibling_rows(v, m.path@, scope@, i as int),
        decreases found@.len() - i,
    {
        let x = &found[i];
        assert(v[i as int] == x@);
        s.append("\n  ");
        s.append(x.name.as_str());
        s.append("  ");
        s.append(rel(m.path.as_str(), scope).as_str());
        s.append(":");
        push_range(&mut s, (x.start_line, x.end_line));
        s.append("  ");
        s.append(x.signature.as_str());
        assert(s@ =~= head + sibling_rows(v, m.path@, scope@, i + 1));
        i = i + 1;
    }
    out.append(s.as_str());
}

// ---------------------------------------------------------------------------
// One match
// ---------------------------------------------------------------------------

/// The source of the match; of a definition also what it calls and refers to.
pub open spec fn expansion(m: MatchView, c: ContextView, content: Seq<char>, scope: Seq<char>) -> Seq<char> {
    "\n"@ + source_block(m, c, content, scope) + (match (m.def_range, code_lang(m.path)) {
        (Some(r), Some(l)) => if m.is_definition {
            calls_section(m, c.callees, content, l, scope) + siblings_section(
                m,
                r,
                content,
                l,
                scope,
            )
        } else {
            Seq::empty()
        },
        _ => Seq::empty(),
    })
}

fn push_expansion(out: &mut String, m: &Match, c: &MatchContext, content: &str, scope: &str)
    ensures
        final(out)@ == old(out)@ + expansion(m@, c@, content@, scope@),
{
    let ghost start = out@;
    out.append("\n");
    out.append(source_text(m, c, content, scope).as_str());
    let ghost head = "\n"@ + source_block(m@, c@, content@, scope@);
    assert(out@ =~= start + head);
    if m.is_definition {
        if let Some(r) = m.def_range {
            if let Some(l) = lang_of(m.path.as_str()) {
                push_calls(out, m, &c.callees, content, l, scope);
                push_siblings(out, m, r, content, l, scope);
                assert(out@ =~= start + expansion(m@, c@, content@, scope@));
                return ;
            }
        }
    }
    assert(out@ =~= start + (head + Seq::<char>::empty()));
}

/// One of the paths is the path.
pub open spec fn has_path(files: Seq<Seq<char>>, path: Seq<char>) -> bool {
    exists|i: int| 0 <= i < files.len() && same_path(#[trigger] files[i], path)
}

fn is_among(files: &Vec<String>, path: &str) -> (r: bool)
    ensures
        r == has_path(strs(files@), path@),
{
    let ghost v = strs(files@);
    let mut i: usize = 0;
    while i < files.len()
        invariant
            i <= files@.len(),
            v == strs(files@),
            forall|j: int| 0 <= j < i ==> !same_path(#[trigger] v[j], path@),
        decreases files@.len() - i,
    {
        assert(v[i as int] == files@[i as int]@);
        if equal_paths(files[i].as_str(), path) {
            return true;
        }
        i = i + 1;
    }
    false
}

/// The body of the definition was shown earlier in the session.
pub open spec fn shown_before(m: MatchView, s: ExpandView) -> bool {
    has_body(m) && s.session is Some && s.session->0.contains(place_key(m.path, m.line))
}

/// The match is shown with its source.
pub open spec fn expands(m: MatchView, c: ContextView, multi_file: bool, s: ExpandView) -> bool {
    &&& s.remaining > 0
    &&& !shown_before(m, s)
    &&& !(multi_file && has_path(s.files, m.path))
    &&& c.content is Some
}

/// What is shown below the outline of the match.
pub open spec fn match_source(
    m: MatchView,
    c: ContextView,
    scope: Seq<char>,
    multi_file: bool,
    s: ExpandView,
) -> Seq<char> {
    if s.remaining > 0 && shown_before(m, s) {
        "\n\n[shown earlier] "@ + shown(m.path, scope) + ":"@ + range_text(m.def_range->0) + " "@ + m.text
    } else if expands(m, c, multi_file, s) {
        expansion(m, c, c.content->0, scope)
    } else {
        Seq::empty()
    }
}

/// The state after the match was shown.
pub open spec fn after_match(m: MatchView, c: ContextView, multi_file: bool, s: ExpandView) -> ExpandView {
    if expands(m, c, multi_file, s) {
        ExpandView {
            remaining: (s.remaining - 1) as nat,
            files: s.files.push(m.path),
            session: match s.session {
                Some(k) => if has_body(m) {
                    Some(k.insert(place_key(m.path, m.line)))
                } else {
                    Some(k)
                },
                None => None,
            },
        }
    } else {
        s
    }
}

/// The match as it is shown.
pub open spec fn single_text(
    m: MatchView,
    c: ContextView,
    scope: Seq<char>,
    multi_file: bool,
    s: ExpandView,
) -> Seq<char> {
    match_heading(m, scope) + match_outline(m, c) + match_source(m, c, scope, multi_file, s)
}

fn was_shown(m: &Match, st: &ExpandState) -> (r: bool)
    ensures
        r == shown_before(m@, st@),
{
    match &st.session {
        Some(s) => m.is_definition && m.def_range.is_some() && s.is_expanded(m.path.as_str(), m.line),
        None => false,
    }
}

/// Records that the match was shown with its source.
fn record(m: &Match, st: &mut ExpandState)
    requires
        old(st).remaining > 0,
    ensures
        final(st)@.remaining == old(st)@.remaining - 1,
        final(st)@.files == old(st)@.files.push(m.path@),
        final(st)@.session == (match old(st)@.session {
            Some(k) => if has_body(m@) {
                Some(k.insert(place_key(m.path@, m.line)))
            } else {
                Some(k)
            },
            None => None,
        }),
{
    broadcast use lemma_strs_push;

    if m.is_definition && m.def_range.is_some() {
        let mut s: Option<Session> = None;
        std::mem::swap(&mut s, &mut st.session);
        match s {
            Some(mut k) => {
                k.record_expand(m.path.as_str(), m.line);
                st.session = Some(k);
            },
            None => {
                st.session = None;
            },
        }
    }
    st.remaining = st.remaining - 1;
    st.files.push(m.path.clone());
}

/// Shows a match.
pub fn format_single_match(
    m: &Match,
    c: &MatchContext,
    scope: &str,
    multi_file: bool,
    st: &mut ExpandState,
    out: &mut String,
)
    ensures
        final(out)@ == old(out)@ + single_text(m@, c@, scope@, multi_file, old(st)@),
        final(st)@ == after_match(m@, c@, multi_file, old(st)@),
{
    let ghost start = out@;
    let ghost s0 = st@;
    push_heading(out, m, scope);
    push_outline(out, m, c);
    let ghost head = match_heading(m@, scope@) + match_outline(m@, c@);
    assert(out@ =~= start + head);
    if st.remaining > 0 {
        if was_shown(m, st) {
            let mut s = "\n\n[shown earlier] ".to_owned();
            s.append(rel(m.path.as_str(), scope).as_str());
            s.append(":");
            if let Some(r) = m.def_range {
                push_range(&mut s, r);
            }
            s.append(" ");
            s.append(m.text.as_str());
            assert(s@ =~= match_source(m@, c@, scope@, multi_file, s0));
            out.append(s.as_str());
            assert(out@ =~= start + single_text(m@, c@, scope@, multi_file, s0));
            return ;
        }
        if !(multi_file && is_among(&st.files, m.path.as_str())) {
            if let Some(content) = &c.content {
                push_expansion(out, m, c, content.as_str(), scope);
                record(m, st);
                assert(out@ =~= start + single_text(m@, c@, scope@, multi_file, s0));
                assert(st@.files =~= after_match(m@, c@, multi_file, s0).files);
                return ;
            }
        }
    }
    assert(out@ =~= start + (head + Seq::<char>::empty()));
}

/// Without a budget no source is shown, and a match takes one from the budget
/// exactly where its source is shown.
pub proof fn law_budget_bounds_expansion(
    m: MatchView,
    c: ContextView,
    scope: Seq<char>,
    multi_file: bool,
    s: ExpandView,
)
    ensures
        s.remaining == 0 ==> single_text(m, c, scope, multi_file, s) == match_heading(m, scope)
            + match_outline(m, c),
        after_match(m, c, multi_file, s).remaining == s.remaining - (if expands(
            m,
            c,
            multi_file,
            s,
        ) {
            1int
        } else {
            0
        }),
{
    assert(match_heading(m, scope) + match_outline(m, c) + Seq::<char>::empty() =~= match_heading(
        m,
        scope,
    ) + match_outline(m, c));
}

/// Where the session has shown the body of a definition, it is not shown again.
pub proof fn law_body_shown_once(
    m: MatchView,
    c: ContextView,
    d: ContextView,
    multi_file: bool,
    s: ExpandView,
)
    requires
        has_body(m),
        s.session is Some,
        expands(m, c, multi_file, s),
    ensures
        !expands(m, d, multi_file, after_match(m, c, multi_file, s)),
{
}

// ---------------------------------------------------------------------------
// Groups
// ---------------------------------------------------------------------------

/// The match is never grouped with others.
pub open spec fn stands_alone(m: MatchView) -> bool {
    m.is_definition || m.impl_target is Some
}

/// The matches are one and the same definition.
pub open spec fn same_definition(a: MatchView, b: MatchView) -> bool {
    &&& same_path(a.path, b.path)
    &&& a.line == b.line
    &&& a.def_range == b.def_range
    &&& a.def_name == b.def_name
    &&& a.impl_target == b.impl_target
}

/// One of the first `n` positions holds the same definition.
pub open spec fn repeated(ms: Seq<MatchView>, ps: Seq<int>, n: int, m: MatchView) -> bool {
    exists|j: int|
        0 <= j < n && stands_alone(ms[#[trigger] ps[j]]) && same_definition(ms[ps[j]], m)
}

/// The usages are in the same function: the same entry of the outline stands for
/// both, in a file that is not small.
pub open spec fn same_function(
    ms: Seq<MatchView>,
    cs: Seq<ContextView>,
    a: int,
    b: int,
) -> bool {
    &&& !stands_alone(ms[a])
    &&& same_path(ms[a].path, ms[b].path)
    &&& ms[b].file_lines >= SMALL_FILE
    &&& enclosing_idx(cs[a].outline, ms[a].line) is Some
    &&& enclosing_idx(cs[a].outline, ms[a].line) == enclosing_idx(cs[b].outline, ms[b].line)
}

/// The groups of the first `n` positions. A definition stands alone, and once;
/// usages that follow each other in the same function are one group.
pub open spec fn match_groups(ms: Seq<MatchView>, cs: Seq<ContextView>, ps: Seq<int>, n: int) -> Seq<
    Seq<int>,
>
    decreases n,
{
    if n <= 0 {
        Seq::empty()
    } else {
        let g = match_groups(ms, cs, ps, n - 1);
        let i = ps[n - 1];
        if stands_alone(ms[i]) {
            if repeated(ms, ps, n - 1, ms[i]) {
                g
            } else {
                g.push(seq![i])
            }
        } else if g.len() > 0 && same_function(ms, cs, g.last()[0], i) {
            g.drop_last().push(g.last().push(i))
        } else {
            g.push(seq![i])
        }
    }
}

/// What the groups hold.
pub open spec fn group_lists(v: Seq<Vec<usize>>) -> Seq<Seq<int>> {
    v.map_values(|g: Vec<usize>| ints(g@))
}

fn alone(m: &Match) -> (r: bool)
    ensures
        r == stands_alone(m@),
{
    m.is_definition || m.impl_target.is_some()
}

fn definitions_equal(a: &Match, b: &Match) -> (r: bool)
    ensures
        r == same_definition(a@, b@),
{
    let ranges = match (a.def_range, b.def_range) {
        (Some((x, y)), Some((z, w))) => x == z && y == w,
        (None, None) => true,
        _ => false,
    };
    a.line == b.line && ranges && equal_paths(a.path.as_str(), b.path.as_str()) && same_opt(
        &a.def_name,
        &b.def_name,
    ) && same_opt(&a.impl_target, &b.impl_target)
}

fn is_repeated(ms: &[Match], ps: &[usize], n: usize, m: &Match) -> (r: bool)
    requires
        n <= ps@.len(),
        forall|k: int| 0 <= k < ps@.len() ==> #[trigger] ps@[k] < ms@.len(),
    ensures
        r == repeated(found_view(ms@), ints(ps@), n as int, m@),
{
    let ghost v = found_view(ms@);
    let ghost p = ints(ps@);
    let mut j: usize = 0;
    while j < n
        invariant
            j <= n <= ps@.len(),
            v == found_view(ms@),
            p == ints(ps@),
            forall|k: int| 0 <= k < ps@.len() ==> #[trigger] ps@[k] < ms@.len(),
            forall|k: int|
                0 <= k < j ==> !(stands_alone(v[#[trigger] p[k]]) && same_definition(v[p[k]], m@)),
        decreases n - j,
    {
        let x = &ms[ps[j]];
        assert(p[j as int] == ps@[j as int]);
        assert(v[p[j as int]] == x@);
        if alone(x) && definitions_equal(x, m) {
            return true;
        }
        j = j + 1;
    }
    false
}

fn functions_equal(ms: &[Match], cs: &[MatchContext], a: usize, b: usize) -> (r: bool)
    requires
        a < ms@.len(),
        b < ms@.len(),
        cs@.len() == ms@.len(),
    ensures
        r == same_function(found_view(ms@), contexts_view(cs@), a as int, b as int),
{
    let ghost v = found_view(ms@);
    let ghost c = contexts_view(cs@);
    assert(v[a as int] == ms@[a as int]@);
    assert(v[b as int] == ms@[b as int]@);
    assert(c[a as int] == cs@[a as int]@);
    assert(c[b as int] == cs@[b as int]@);
    if alone(&ms[a]) || ms[b].file_lines < SMALL_FILE || !equal_paths(
        ms[a].path.as_str(),
        ms[b].path.as_str(),
    ) {
        return false;
    }
    match (
        find_enclosing_outline_idx(&cs[a].outline, ms[a].line),
        find_enclosing_outline_idx(&cs[b].outline, ms[b].line),
    ) {
        (Some(x), Some(y)) => x == y,
        _ => false,
    }
}

/// Groups the matches at the positions.
pub fn group_matches(ms: &[Match], cs: &[MatchContext], ps: &[usize]) -> (r: Vec<Vec<usize>>)
    requires
        cs@.len() == ms@.len(),
        forall|k: int| 0 <= k < ps@.len() ==> #[trigger] ps@[k] < ms@.len(),
    ensures
        group_lists(r@) == match_groups(
            found_view(ms@),
            contexts_view(cs@),
            ints(ps@),
            ps@.len() as int,
        ),
        forall|a: int| 0 <= a < r@.len() ==> (#[trigger] r@[a])@.len() > 0,
        forall|a: int, k: int|
            0 <= a < r@.len() && 0 <= k < r@[a]@.len() ==> #[trigger] r@[a]@[k] < ms@.len(),
{
    broadcast use lemma_ints_push;

    let ghost v = found_view(ms@);
    let ghost c = contexts_view(cs@);
    let ghost p = ints(ps@);
    let mut groups: Vec<Vec<usize>> = Vec::new();
    let mut n: usize = 0;
    assert(group_lists(groups@) =~= Seq::<Seq<int>>::empty());
    while n < ps.len()
        invariant
            n <= ps@.len(),
            v == found_view(ms@),
            c == contexts_view(cs@),
            p == ints(ps@),
            cs@.len() == ms@.len(),
            forall|k: int| 0 <= k < ps@.len() ==> #[trigger] ps@[k] < ms@.len(),
            group_lists(groups@) == match_groups(v, c, p, n as int),
            forall|a: int| 0 <= a < groups@.len() ==> (#[trigger] groups@[a])@.len() > 0,
            forall|a: int, k: int|
                0 <= a < groups@.len() && 0 <= k < groups@[a]@.len() ==> #[trigger] groups@[a]@[k]
                    < ms@.len(),
        decreases ps@.len() - n,
    {
        let i: usize = ps[n];
        let ghost g = match_groups(v, c, p, n as int);
        let ghost was = groups@;
        assert(p[n as int] == i);
        assert(v[i as int] == ms@[i as int]@);
        assert(g.len() == was.len());
        let is_alone = alone(&ms[i]);
        let mut merged = false;
        if !is_alone && groups.len() > 0 {
            let last: usize = groups.len() - 1;
            let first: usize = groups[last][0];
            proof {
                assert(g[last as int] == ints(was[last as int]@));
                assert(was[last as int]@[0] < ms@.len());
                assert(g.last()[0] == first);
            }
            if functions_equal(ms, cs, first, i) {
                if let Some(mut group) = groups.pop() {
                    let ghost before = group@;
                    group.push(i);
                    assert(ints(group@) =~= ints(before).push(i as int));
                    groups.push(group);
                    merged = true;
                    proof {
                        assert(groups@.len() == was.len());
                        assert(group_lists(groups@) =~= g.drop_last().push(
                            g.last().push(i as int),
                        ));
                        assert forall|a: int, k: int|
                            0 <= a < groups@.len() && 0 <= k < groups@[a]@.len() implies #[trigger] groups@[a]@[k]
                            < ms@.len() by {
                            if a < last {
                                assert(groups@[a] == was[a]);
                                assert(was[a]@[k] < ms@.len());
                            } else if k < before.len() {
                                assert(was[a]@[k] < ms@.len());
                            }
                        }
                    }
                }
            }
        }
        if !merged && !(is_alone && is_repeated(ms, ps, n, &ms[i])) {
            let mut group: Vec<usize> = Vec::new();
            group.push(i);
            assert(ints(group@) =~= seq![i as int]);
            groups.push(group);
            proof {
                assert(group_lists(groups@) =~= g.push(seq![i as int]));
                assert forall|a: int, k: int|
                    0 <= a < groups@.len() && 0 <= k < groups@[a]@.len() implies #[trigger] groups@[a]@[k]
                    < ms@.len() by {
                    if a < was.len() {
                        assert(groups@[a] == was[a]);
                        assert(was[a]@[k] < ms@.len());
                    }
                }
            }
        }
        n = n + 1;
    }
    groups
}

/// The members of the groups, one after the other.
pub open spec fn members(g: Seq<Seq<int>>) -> Seq<int>
    decreases g.len(),
{
    if g.len() == 0 {
        Seq::empty()
    } else {
        members(g.drop_last()) + g.last()
    }
}

/// The first `n` positions without those that hold a definition again.
pub open spec fn distinct(ms: Seq<MatchView>, ps: Seq<int>, n: int) -> Seq<int>
    decreases n,
{
    if n <= 0 {
        Seq::empty()
    } else {
        let r = distinct(ms, ps, n - 1);
        if stands_alone(ms[ps[n - 1]]) && repeated(ms, ps, n - 1, ms[ps[n - 1]]) {
            r
        } else {
            r.push(ps[n - 1])
        }
    }
}

/// Grouping keeps every match but those that are a definition again, in their order.
pub proof fn law_groups_keep_matches(
    ms: Seq<MatchView>,
    cs: Seq<ContextView>,
    ps: Seq<int>,
    n: int,
)
    requires
        0 <= n <= ps.len(),
    ensures
        members(match_groups(ms, cs, ps, n)) == distinct(ms, ps, n),
    decreases n,
{
    if n > 0 {
        law_groups_keep_matches(ms, cs, ps, n - 1);
        let g = match_groups(ms, cs, ps, n - 1);
        let i = ps[n - 1];
        let h = g.push(seq![i]);
        assert(h.drop_last() =~= g);
        assert(members(h) =~= members(g).push(i));
        if g.len() > 0 {
            let m = g.drop_last().push(g.last().push(i));
            assert(m.drop_last() =~= g.drop_last());
            assert(members(m) =~= members(g).push(i));
        }
    }
}

// ---------------------------------------------------------------------------
// Several matches
// ---------------------------------------------------------------------------

/// The lines of the matches at the positions.
pub open spec fn group_lines(ms: Seq<MatchView>, g: Seq<int>) -> Seq<u32> {
    g.map_values(|i: int| ms[i].line)
}

/// The name of the function around the line: the last word of its entry.
pub open spec fn function_name(outline: Option<Seq<char>>, line: u32) -> Option<Seq<char>> {
    match enclosing_idx(outline, line) {
        Some(at) => {
            let w = words(trim(lines(outline->0)[at]));
            if w.len() > 0 {
                Some(w.last())
            } else {
                None
            }
        },
        None => None,
    }
}

/// Usages in the same function, as one entry.
pub open spec fn group_text(ms: Seq<MatchView>, cs: Seq<ContextView>, g: Seq<int>, scope: Seq<char>) -> Seq<
    char,
> {
    let m = ms[g[0]];
    let c = cs[g[0]];
    let l = group_lines(ms, g);
    "\n\n## "@ + shown(m.path, scope) + ":"@ + crate::text::join(
        run_texts(runs(l, l.len() as int)),
        ","@,
    ) + " ["@ + dec(g.len()) + " usages"@ + (match function_name(c.outline, m.line) {
        Some(n) => " in "@ + n,
        None => Seq::empty(),
    }) + "]"@ + (match outline_context(c.outline, m.line) {
        Some(t) => t,
        None => Seq::empty(),
    })
}

fn name_around(outline: &Option<String>, line: u32) -> (r: Option<String>)
    ensures
        opt_text(r) == function_name(opt_text(*outline), line),
{
    let at: usize = match find_enclosing_outline_idx(outline, line) {
        Some(i) => i,
        None => {
            return None;
        },
    };
    match outline {
        Some(o) => {
            let s = chars_of(o.as_str());
            let entries = lines_of(s.as_slice());
            proof {
                lemma_covering(views(entries@), line, 0);
            }
            let w = words_of(trim_of(entries[at]));
            assert(views(entries@)[at as int] == entries@[at as int]@);
            assert(views(w@).len() == w@.len());
            let n: usize = w.len();
            if n > 0 {
                assert(views(w@).last() == w@[n - 1]@);
                Some(crate::text::string_of(w[n - 1]))
            } else {
                None
            }
        },
        None => None,
    }
}

proof fn lemma_covering(entries: Seq<Seq<char>>, line: u32, i: int)
    requires
        0 <= i,
    ensures
        super::expand::covering(entries, line, i) matches Some(k) ==> 0 <= k < entries.len(),
    decreases entries.len() - i,
{
    if i < entries.len() {
        lemma_covering(entries, line, i + 1);
    }
}

/// Shows usages in the same function as one entry.
pub fn format_grouped_usages(ms: &[Match], cs: &[MatchContext], group: &Vec<usize>, scope: &str, out: &mut String)
    requires
        cs@.len() == ms@.len(),
        group@.len() > 0,
        forall|k: int| 0 <= k < group@.len() ==> #[trigger] group@[k] < ms@.len(),
    ensures
        final(out)@ == old(out)@ + group_text(
            found_view(ms@),
            contexts_view(cs@),
            ints(group@),
            scope@,
        ),
{
    let ghost v = found_view(ms@);
    let ghost c = contexts_view(cs@);
    let ghost g = ints(group@);
    let first: usize = group[0];
    proof {
        assert(g[0] == first);
        assert(v[first as int] == ms@[first as int]@);
        assert(c[first as int] == cs@[first as int]@);
    }
    let mut l: Vec<u32> = Vec::new();
    let mut i: usize = 0;
    while i < group.len()
        invariant
            i <= group@.len(),
            v == found_view(ms@),
            g == ints(group@),
            forall|k: int| 0 <= k < group@.len() ==> #[trigger] group@[k] < ms@.len(),
            l@.len() == i,
            forall|k: int| 0 <= k < i ==> #[trigger] l@[k] == v[g[k]].line,
        decreases group@.len() - i,
    {
        assert(g[i as int] == group@[i as int]);
        assert(v[g[i as int]] == ms@[group@[i as int] as int]@);
        l.push(ms[group[i]].line);
        i = i + 1;
    }
    assert(l@ =~= group_lines(v, g));
    let m = &ms[first];
    let mut s = "\n\n## ".to_owned();
    s.append(rel(m.path.as_str(), scope).as_str());
    s.append(":");
    s.append(format_line_list(l.as_slice()).as_str());
    s.append(" [");
    push_dec(&mut s, group.len());
    s.append(" usages");
    let ghost before = s@;
    match name_around(&cs[first].outline, m.line) {
        Some(n) => {
            s.append(" in ");
            s.append(n.as_str());
            assert(s@ =~= before + (" in "@ + n@));
        },
        None => {
            assert(s@ =~= before + Seq::<char>::empty());
        },
    }
    s.append("]");
    let ghost mid = s@;
    match outline_context_for_match(&cs[first].outline, m.line) {
        Some(t) => {
            s.append(t.as_str());
        },
        None => {
            assert(s@ =~= mid + Seq::<char>::empty());
        },
    }
    out.append(s.as_str());
}

/// What is shown so far, and the state.
pub struct ShowView {
    pub text: Seq<char>,
    pub state: ExpandView,
}

/// A group shown after what is shown so far.
pub open spec fn show_group(
    ms: Seq<MatchView>,
    cs: Seq<ContextView>,
    g: Seq<int>,
    scope: Seq<char>,
    multi_file: bool,
    s: ShowView,
) -> ShowView {
    if g.len() == 1 {
        ShowView {
            text: s.text + single_text(ms[g[0]], cs[g[0]], scope, multi_file, s.state),
            state: after_match(ms[g[0]], cs[g[0]], multi_file, s.state),
        }
    } else {
        ShowView { text: s.text + group_text(ms, cs, g, scope), state: s.state }
    }
}

/// The first `n` groups shown after what is shown so far.
pub open spec fn show_groups(
    ms: Seq<MatchView>,
    cs: Seq<ContextView>,
    groups: Seq<Seq<int>>,
    scope: Seq<char>,
    multi_file: bool,
    s: ShowView,
    n: int,
) -> ShowView
    decreases n,
{
    if n <= 0 {
        s
    } else {
        show_group(
            ms,
            cs,
            groups[n - 1],
            scope,
            multi_file,
            show_groups(ms, cs, groups, scope, multi_file, s, n - 1),
        )
    }
}

/// The matches at the positions are not all in one file.
pub open spec fn in_several_files(ms: Seq<MatchView>, ps: Seq<int>) -> bool {
    exists|k: int| 0 <= k < ps.len() && !same_path(ms[#[trigger] ps[k]].path, ms[ps[0]].path)
}

/// The matches at the positions shown after what is shown so far.
pub open spec fn show_matches(
    ms: Seq<MatchView>,
    cs: Seq<ContextView>,
    ps: Seq<int>,
    scope: Seq<char>,
    s: ShowView,
) -> ShowView {
    let g = match_groups(ms, cs, ps, ps.len() as int);
    show_groups(ms, cs, g, scope, in_several_files(ms, ps), s, g.len() as int)
}

fn several_files(ms: &[Match], ps: &[usize]) -> (r: bool)
    requires
        forall|k: int| 0 <= k < ps@.len() ==> #[trigger] ps@[k] < ms@.len(),
    ensures
        r == in_several_files(found_view(ms@), ints(ps@)),
{
    let ghost v = found_view(ms@);
    let ghost p = ints(ps@);
    let mut k: usize = 0;
    while k < ps.len()
        invariant
            k <= ps@.len(),
            v == found_view(ms@),
            p == ints(ps@),
            forall|k: int| 0 <= k < ps@.len() ==> #[trigger] ps@[k] < ms@.len(),
            forall|j: int| 0 <= j < k ==> same_path(v[#[trigger] p[j]].path, v[p[0]].path),
        decreases ps@.len() - k,
    {
        assert(p[k as int] == ps@[k as int]);
        assert(p[0] == ps@[0]);
        assert(v[p[k as int]] == ms@[ps@[k as int] as int]@);
        assert(v[p[0]] == ms@[ps@[0] as int]@);
        if !equal_paths(ms[ps[k]].path.as_str(), ms[ps[0]].path.as_str()) {
            return true;
        }
        k = k + 1;
    }
    false
}

/// Shows the matches at the positions.
pub fn format_matches(
    ms: &[Match],
    cs: &[MatchContext],
    ps: &[usize],
    scope: &str,
    st: &mut ExpandState,
    out: &mut String,
)
    requires
        cs@.len() == ms@.len(),
        forall|k: int| 0 <= k < ps@.len() ==> #[trigger] ps@[k] < ms@.len(),
    ensures
        (ShowView { text: final(out)@, state: final(st)@ }) == show_matches(
            found_view(ms@),
            contexts_view(cs@),
            ints(ps@),
            scope@,
            ShowView { text: old(out)@, state: old(st)@ },
        ),
{
    let ghost v = found_view(ms@);
    let ghost c = contexts_view(cs@);
    let ghost p = ints(ps@);
    let ghost s0 = ShowView { text: out@, state: st@ };
    let multi_file = several_files(ms, ps);
    let groups = group_matches(ms, cs, ps);
    let ghost g = group_lists(groups@);
    assert(p.len() == ps@.len());
    assert(g.len() == groups@.len());
    let mut i: usize = 0;
    while i < groups.len()
        invariant
            i <= groups@.len(),
            v == found_view(ms@),
            c == contexts_view(cs@),
            g == group_lists(groups@),
            cs@.len() == ms@.len(),
            forall|a: int| 0 <= a < groups@.len() ==> (#[trigger] groups@[a])@.len() > 0,
            forall|a: int, k: int|
                0 <= a < groups@.len() && 0 <= k < groups@[a]@.len() ==> #[trigger] groups@[a]@[k]
                    < ms@.len(),
            (ShowView { text: out@, state: st@ }) == show_groups(
                v,
                c,
                g,
                scope@,
                multi_file,
                s0,
                i as int,
            ),
        decreases groups@.len() - i,
    {
        let group = &groups[i];
        assert(g[i as int] == ints(group@));
        assert(group@.len() == g[i as int].len());
        if group.len() == 1 {
            let k: usize = group[0];
            assert(groups@[i as int]@[0] < ms@.len());
            assert(g[i as int][0] == k);
            assert(v[k as int] == ms@[k as int]@);
            assert(c[k as int] == cs@[k as int]@);
            format_single_match(&ms[k], &cs[k], scope, multi_file, st, out);
        } else {
            assert forall|k: int| 0 <= k < group@.len() implies #[trigger] group@[k] < ms@.len() by {
                assert(groups@[i as int]@[k] < ms@.len());
            }
            format_grouped_usages(ms, cs, group, scope, out);
        }
        i = i + 1;
    }
}

/// A line of a definition is left out exactly if it is not among those worth showing.
pub proof fn law_lines_worth_showing_stay(keep: Seq<u32>, a: int, n: int, x: u32)
    requires
        0 <= a,
        n <= u32::MAX,
    ensures
        dropped(keep, a, n).contains(x) <==> a <= x <= n && !keep.contains(x),
    decreases n - a + 1,
{
    if n >= a {
        law_lines_worth_showing_stay(keep, a, n - 1, x);
        let q = dropped(keep, a, n - 1);
        let r = dropped(keep, a, n);
        if r.contains(x) {
            let k = choose|k: int| 0 <= k < r.len() && r[k] == x;
            if k < q.len() {
                assert(q[k] == x);
            }
        }
        if q.contains(x) {
            let k = choose|k: int| 0 <= k < q.len() && q[k] == x;
            assert(r[k] == x);
        }
        if !keep.contains(n as u32) {
            assert(r[q.len() as int] == n as u32);
        }
    }
}

proof fn lemma_others(nodes: Seq<CalleeTreeView>, name: Option<Seq<char>>, n: int, c: CalleeTreeView)
    requires
        0 <= n <= nodes.len(),
    ensures
        others(nodes, name, n).contains(c) <==> nodes.take(n).contains(c) && name != Some(
            c.callee.name,
        ),
        others(nodes, name, n).len() <= n,
    decreases n,
{
    if n > 0 {
        lemma_others(nodes, name, n - 1, c);
        let q = others(nodes, name, n - 1);
        let r = others(nodes, name, n);
        let t = nodes.take(n - 1);
        let u = nodes.take(n);
        if r.contains(c) {
            let k = choose|k: int| 0 <= k < r.len() && r[k] == c;
            if k < q.len() {
                assert(q[k] == c);
                let j = choose|j: int| 0 <= j < t.len() && t[j] == c;
                assert(u[j] == c);
            } else {
                assert(u[n - 1] == c);
            }
        }
        if u.contains(c) && name != Some(c.callee.name) {
            let j = choose|j: int| 0 <= j < u.len() && u[j] == c;
            if j < n - 1 {
                assert(t[j] == c);
                let k = choose|k: int| 0 <= k < q.len() && q[k] == c;
                assert(r[k] == c);
            } else {
                assert(r[q.len() as int] == c);
            }
        }
    }
}

proof fn lemma_by_file(
    nodes: Seq<CalleeTreeView>,
    path: Seq<char>,
    inside: bool,
    n: int,
    c: CalleeTreeView,
)
    requires
        0 <= n <= nodes.len(),
    ensures
        by_file(nodes, path, inside, n).contains(c) <==> nodes.take(n).contains(c) && same_path(
            c.callee.file,
            path,
        ) == inside,
        by_file(nodes, path, true, n).len() + by_file(nodes, path, false, n).len() == n,
    decreases n,
{
    if n > 0 {
        lemma_by_file(nodes, path, inside, n - 1, c);
        let q = by_file(nodes, path, inside, n - 1);
        let r = by_file(nodes, path, inside, n);
        let t = nodes.take(n - 1);
        let u = nodes.take(n);
        if r.contains(c) {
            let k = choose|k: int| 0 <= k < r.len() && r[k] == c;
            if k < q.len() {
                assert(q[k] == c);
                let j = choose|j: int| 0 <= j < t.len() && t[j] == c;
                assert(u[j] == c);
            } else {
                assert(u[n - 1] == c);
            }
        }
        if u.contains(c) && same_path(c.callee.file, path) == inside {
            let j = choose|j: int| 0 <= j < u.len() && u[j] == c;
            if j < n - 1 {
                assert(t[j] == c);
                let k = choose|k: int| 0 <= k < q.len() && q[k] == c;
                assert(r[k] == c);
            } else {
                assert(r[q.len() as int] == c);
            }
        }
    }
}

/// Up to eight of the functions that a definition calls are all shown, but for the
/// definition itself. Of more, eight are shown, and one of another file is left out only
/// where all that are shown are of other files.
pub proof fn law_callees_are_shown(m: MatchView, nodes: Seq<CalleeTreeView>, c: CalleeTreeView)
    ensures
        shown_callees(m, nodes).len() <= 8,
        shown_callees(m, nodes).contains(c) ==> nodes.contains(c) && m.def_name != Some(
            c.callee.name,
        ),
        nodes.contains(c) && m.def_name != Some(c.callee.name) ==> shown_callees(m, nodes).contains(c)
            || (shown_callees(m, nodes).len() == 8 && (!same_path(c.callee.file, m.path) ==> forall|
            k: int,
        |
            0 <= k < 8 ==> !same_path((#[trigger] shown_callees(m, nodes)[k]).callee.file, m.path))),
        nodes.contains(c) && m.def_name != Some(c.callee.name) && nodes.len() <= 8 ==> shown_callees(
            m,
            nodes,
        ).contains(c),
{
    let r = others(nodes, m.def_name, nodes.len() as int);
    let n = r.len() as int;
    lemma_others(nodes, m.def_name, nodes.len() as int, c);
    assert(nodes.take(nodes.len() as int) =~= nodes);
    if n > 8 {
        let far = by_file(r, m.path, false, n);
        let near = by_file(r, m.path, true, n);
        let all = far + near;
        let s = shown_callees(m, nodes);
        assert(r.take(n) =~= r);
        lemma_by_file(r, m.path, false, n, c);
        lemma_by_file(r, m.path, true, n, c);
        assert(s =~= all.take(8));
        if s.contains(c) {
            let k = choose|k: int| 0 <= k < s.len() && s[k] == c;
            assert(all[k] == c);
            if k < far.len() {
                assert(far[k] == c);
                assert(far.contains(c));
            } else {
                assert(near[k - far.len()] == c);
                assert(near.contains(c));
            }
        }
        if r.contains(c) && !s.contains(c) && !same_path(c.callee.file, m.path) {
            let a = choose|a: int| 0 <= a < far.len() && far[a] == c;
            assert(all[a] == c);
            if a < 8 {
                assert(s[a] == c);
            }
            assert forall|k: int| 0 <= k < 8 implies !same_path(
                (#[trigger] s[k]).callee.file,
                m.path,
            ) by {
                assert(s[k] == far[k]);
                assert(far.contains(far[k]));
                lemma_by_file(r, m.path, false, n, far[k]);
            }
        }
    }
}

/// Each function that is shown has its row, and each that it calls in turn has one below
/// it.
pub proof fn law_callee_rows_show_all(v: Seq<CalleeTreeView>, scope: Seq<char>, n: int, i: int)
    requires
        0 <= i < n <= v.len(),
    ensures
        has(callee_rows(v, scope, n), "\n  "@ + callee_text(v[i].callee, scope)),
        forall|j: int|
            0 <= j < v[i].children.len() ==> has(
                callee_rows(v, scope, n),
                "\n    → "@ + callee_text(#[trigger] v[i].children[j], scope),
            ),
    decreases n,
{
    let q = callee_rows(v, scope, n - 1);
    let x = v[n - 1];
    let head = "\n  "@ + callee_text(x.callee, scope);
    let kids = child_rows(x.children, scope, x.children.len() as int);
    crate::text::lemma_two_together(q, "\n  "@, callee_text(x.callee, scope));
    assert(callee_rows(v, scope, n) == q + head + kids);
    if i < n - 1 {
        law_callee_rows_show_all(v, scope, n - 1, i);
        lemma_has_before(q, head, kids, "\n  "@ + callee_text(v[i].callee, scope));
        assert forall|j: int| 0 <= j < v[i].children.len() implies has(
            q + head + kids,
            "\n    → "@ + callee_text(#[trigger] v[i].children[j], scope),
        ) by {
            lemma_has_before(q, head, kids, "\n    → "@ + callee_text(v[i].children[j], scope));
        }
    } else {
        crate::text::lemma_has_self(head);
        crate::text::lemma_has_within(q, head, kids, head);
        assert forall|j: int| 0 <= j < v[i].children.len() implies has(
            q + head + kids,
            "\n    → "@ + callee_text(#[trigger] v[i].children[j], scope),
        ) by {
            lemma_child_rows(x.children, scope, x.children.len() as int, j);
            crate::text::lemma_has_right(
                q + head,
                kids,
                "\n    → "@ + callee_text(v[i].children[j], scope),
            );
        }
    }
}

proof fn lemma_has_before(q: Seq<char>, a: Seq<char>, b: Seq<char>, p: Seq<char>)
    requires
        has(q, p),
    ensures
        has(q + a + b, p),
{
    crate::text::lemma_has_left(q, a, p);
    crate::text::lemma_has_left(q + a, b, p);
}

proof fn lemma_child_rows(v: Seq<CalleeView>, scope: Seq<char>, n: int, j: int)
    requires
        0 <= j < n <= v.len(),
    ensures
        has(child_rows(v, scope, n), "\n    → "@ + callee_text(v[j], scope)),
    decreases n,
{
    let q = child_rows(v, scope, n - 1);
    let own = callee_text(v[n - 1], scope);
    if j < n - 1 {
        lemma_child_rows(v, scope, n - 1, j);
        lemma_has_before(q, "\n    → "@, own, "\n    → "@ + callee_text(v[j], scope));
    } else {
        crate::text::lemma_two_together(q, "\n    → "@, own);
        crate::text::lemma_has_self("\n    → "@ + own);
        crate::text::lemma_has_right(q, "\n    → "@ + own, "\n    → "@ + own);
    }
}

/// The row of a sibling.
#[verifier::opaque]
spec fn sibling_row(s: SiblingView, path: Seq<char>, scope: Seq<char>) -> Seq<char> {
    "\n  "@ + s.name + "  "@ + shown(path, scope) + ":"@ + range_text((s.start_line, s.end_line))
        + "  "@ + s.signature
}

proof fn lemma_eight_together(
    m: Seq<char>,
    a: Seq<char>,
    b: Seq<char>,
    c: Seq<char>,
    d: Seq<char>,
    e: Seq<char>,
    f: Seq<char>,
    g: Seq<char>,
    h: Seq<char>,
)
    ensures
        m + a + b + c + d + e + f + g + h == m + (a + b + c + d + e + f + g + h),
{
    assert(m + a + b + c + d + e + f + g + h =~= m + (a + b + c + d + e + f + g + h));
}

proof fn lemma_sibling_row(v: Seq<SiblingView>, path: Seq<char>, scope: Seq<char>, n: int)
    requires
        0 < n <= v.len(),
    ensures
        sibling_rows(v, path, scope, n) == sibling_rows(v, path, scope, n - 1) + sibling_row(
            v[n - 1],
            path,
            scope,
        ),
{
    reveal(sibling_row);
    let s = v[n - 1];
    lemma_eight_together(
        sibling_rows(v, path, scope, n - 1),
        "\n  "@,
        s.name,
        "  "@,
        shown(path, scope),
        ":"@,
        range_text((s.start_line, s.end_line)),
        "  "@,
        s.signature,
    );
}

proof fn lemma_sibling_rows(v: Seq<SiblingView>, path: Seq<char>, scope: Seq<char>, n: int, i: int)
    requires
        0 <= i < n <= v.len(),
    ensures
        has(sibling_rows(v, path, scope, n), sibling_row(v[i], path, scope)),
    decreases n,
{
    let q = sibling_rows(v, path, scope, n - 1);
    let own = sibling_row(v[n - 1], path, scope);
    lemma_sibling_row(v, path, scope, n);
    if i < n - 1 {
        lemma_sibling_rows(v, path, scope, n - 1, i);
        crate::text::lemma_has_left(q, own, sibling_row(v[i], path, scope));
    } else {
        crate::text::lemma_has_self(own);
        crate::text::lemma_has_right(q, own, own);
    }
}

/// Each sibling that is shown has its row, with its name, its lines and its signature.
pub proof fn law_sibling_rows_show_all(
    v: Seq<SiblingView>,
    path: Seq<char>,
    scope: Seq<char>,
    n: int,
    i: int,
)
    requires
        0 <= i < n <= v.len(),
    ensures
        has(
            sibling_rows(v, path, scope, n),
            "\n  "@ + v[i].name + "  "@ + shown(path, scope) + ":"@ + range_text(
                (v[i].start_line, v[i].end_line),
            ) + "  "@ + v[i].signature,
        ),
{
    lemma_sibling_rows(v, path, scope, n, i);
    reveal(sibling_row);
}

/// Every match is in a group, in which it is shown, unless it is a definition that came
/// before.
pub proof fn law_every_match_is_in_a_group(
    ms: Seq<MatchView>,
    cs: Seq<ContextView>,
    ps: Seq<int>,
    n: int,
    k: int,
)
    requires
        0 <= k < n <= ps.len(),
    ensures
        (exists|a: int|
            0 <= a < match_groups(ms, cs, ps, n).len() && (#[trigger] match_groups(
                ms,
                cs,
                ps,
                n,
            )[a]).contains(ps[k])) || ((ms[ps[k]].is_definition || ms[ps[k]].impl_target is Some)
            && exists|j: int|
            0 <= j < k && same_path(ms[#[trigger] ps[j]].path, ms[ps[k]].path) && ms[ps[j]].line
                == ms[ps[k]].line),
    decreases n,
{
    let g = match_groups(ms, cs, ps, n - 1);
    let h = match_groups(ms, cs, ps, n);
    let i = ps[n - 1];
    let joins = !stands_alone(ms[i]) && g.len() > 0 && same_function(ms, cs, g.last()[0], i);
    let last = g.last().push(i);
    if joins {
        assert(h == g.drop_last().push(last));
    }
    if k < n - 1 {
        law_every_match_is_in_a_group(ms, cs, ps, n - 1, k);
        if exists|a: int| 0 <= a < g.len() && (#[trigger] g[a]).contains(ps[k]) {
            let a = choose|a: int| 0 <= a < g.len() && (#[trigger] g[a]).contains(ps[k]);
            if joins && a == g.len() - 1 {
                let x = choose|x: int| 0 <= x < g[a].len() && g[a][x] == ps[k];
                assert(last[x] == ps[k]);
                assert(h[a] == last);
                assert(h[a].contains(ps[k]));
            } else {
                assert(h[a] == g[a]);
            }
        }
    } else if joins {
        assert(last[g.last().len() as int] == i);
        assert(h[g.len() - 1] == last);
        assert(h[g.len() - 1].contains(i));
    } else if stands_alone(ms[i]) && repeated(ms, ps, n - 1, ms[i]) {
        let j = choose|j: int|
            0 <= j < n - 1 && stands_alone(ms[#[trigger] ps[j]]) && same_definition(
                ms[ps[j]],
                ms[i],
            );
        assert(same_path(ms[ps[j]].path, ms[i].path));
    } else {
        assert(h[g.len() as int] == seq![i]);
        assert(seq![i][0] == i);
        assert(h[g.len() as int].contains(i));
    }
}

/// Every group is shown: one of a single match under the heading of the match, with its
/// place and its kind, and another as one entry.
pub proof fn law_every_group_is_shown(
    ms: Seq<MatchView>,
    cs: Seq<ContextView>,
    groups: Seq<Seq<int>>,
    scope: Seq<char>,
    multi_file: bool,
    s: ShowView,
    n: int,
    i: int,
)
    requires
        0 <= i < n <= groups.len(),
    ensures
        groups[i].len() == 1 ==> has(
            show_groups(ms, cs, groups, scope, multi_file, s, n).text,
            match_heading(ms[groups[i][0]], scope),
        ),
        groups[i].len() != 1 ==> has(
            show_groups(ms, cs, groups, scope, multi_file, s, n).text,
            group_text(ms, cs, groups[i], scope),
        ),
    decreases n,
{
    let q = show_groups(ms, cs, groups, scope, multi_file, s, n - 1);
    let g = groups[n - 1];
    let own = if g.len() == 1 {
        single_text(ms[g[0]], cs[g[0]], scope, multi_file, q.state)
    } else {
        group_text(ms, cs, g, scope)
    };
    let piece = if groups[i].len() == 1 {
        match_heading(ms[groups[i][0]], scope)
    } else {
        group_text(ms, cs, groups[i], scope)
    };
    if i < n - 1 {
        law_every_group_is_shown(ms, cs, groups, scope, multi_file, s, n - 1, i);
        crate::text::lemma_has_left(q.text, own, piece);
    } else {
        crate::text::lemma_has_self(piece);
        if g.len() == 1 {
            let m = ms[g[0]];
            let c = cs[g[0]];
            crate::text::lemma_has_left(piece, match_outline(m, c), piece);
            crate::text::lemma_has_left(
                piece + match_outline(m, c),
                match_source(m, c, scope, multi_file, q.state),
                piece,
            );
        }
        crate::text::lemma_has_right(q.text, own, piece);
    }
}

/// The source of a match is shown wherever there is budget for it, it can be read, and
/// it was not shown before: neither in the session nor, with several files, one of the
/// file.
pub proof fn law_source_is_shown_within_budget(
    m: MatchView,
    c: ContextView,
    scope: Seq<char>,
    multi_file: bool,
    s: ExpandView,
)
    requires
        s.remaining > 0,
        c.content is Some,
        s.session is Some ==> !s.session->0.contains(place_key(m.path, m.line)),
        multi_file ==> forall|i: int|
            0 <= i < s.files.len() ==> !same_path(#[trigger] s.files[i], m.path),
    ensures
        has(single_text(m, c, scope, multi_file, s), expansion(m, c, c.content->0, scope)),
        after_match(m, c, multi_file, s).remaining == s.remaining - 1,
        after_match(m, c, multi_file, s).files == s.files.push(m.path),
{
    let e = expansion(m, c, c.content->0, scope);
    assert(!has_path(s.files, m.path) || !multi_file);
    assert(expands(m, c, multi_file, s));
    crate::text::lemma_has_self(e);
    crate::text::lemma_has_right(match_heading(m, scope) + match_outline(m, c), e, e);
}

} // verus!
