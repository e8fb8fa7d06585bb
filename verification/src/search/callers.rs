//! The calls of a function, and where they stand.
use std::sync::Arc;
use vstd::prelude::*;

use crate::lang::outline::{line_number, line_of_row, nodes_in, parse_content};
use crate::lang::treesitter::{enclosing, find_enclosing_function};
use crate::paths::{
    components, components_le, components_of, equal_paths, lemma_path_total, lemma_path_trans, path_le,
    paths_ordered, same_path,
};
use crate::sort::{is_preorder, law_sort_orders, lemma_sort_map, sort_by, stable_sort};
use crate::syntax::{
    captures_view, matches_view, parent, parent_of, shape, CaptureRecord, CaptureView, NodeRecord, NodeView,
};
use crate::text::{
    chars_of, has_string, lines, lines_of, opt_str, same_text, string_of, strs, trim, trim_of, views,
};
use crate::types::Lang;

use super::bfs::{Call, CallView};
use super::bfs_format::{rel, shown};
use super::callees::{caller_query, caller_query_str, find_matches, matches_in};
use super::io::{candidate_file, is_candidate, searched_text, text_to_search};
use super::symbol::{grammar_for_path, path_lang};

verus! {

/// A call, with the function that makes it.
#[derive(Debug)]
pub struct CallerMatch {
    pub path: String,
    pub line: u32,
    pub calling_function: String,
    pub call_text: String,
    /// The lines of the calling function.
    pub caller_range: Option<(u32, u32)>,
    /// The content of the file, shared by the calls in it.
    pub content: Arc<String>,
}

/// What a call says.
pub struct CallerView {
    pub path: Seq<char>,
    pub line: u32,
    pub calling_function: Seq<char>,
    pub call_text: Seq<char>,
    pub caller_range: Option<(u32, u32)>,
    pub content: Seq<char>,
}

impl View for CallerMatch {
    type V = CallerView;

    open spec fn view(&self) -> CallerView {
        CallerView {
            path: self.path@,
            line: self.line,
            calling_function: self.calling_function@,
            call_text: self.call_text@,
            caller_range: self.caller_range,
            content: self.content@,
        }
    }
}

/// What the calls of a list say.
pub open spec fn callers_view(v: Seq<CallerMatch>) -> Seq<CallerView> {
    v.map_values(|c: CallerMatch| c@)
}

/// A call together with the name of what it calls.
pub open spec fn pair_view(p: (String, CallerMatch)) -> (Seq<char>, CallerView) {
    (p.0@, p.1@)
}

/// What the calls of a list say, each with what it calls.
pub open spec fn pairs_view(v: Seq<(String, CallerMatch)>) -> Seq<(Seq<char>, CallerView)> {
    v.map_values(|p: (String, CallerMatch)| pair_view(p))
}

pub broadcast proof fn lemma_pairs_push(v: Seq<(String, CallerMatch)>, p: (String, CallerMatch))
    ensures
        #[trigger] pairs_view(v.push(p)) == pairs_view(v).push(pair_view(p)),
{
    assert(pairs_view(v.push(p)) =~= pairs_view(v).push(pair_view(p)));
}

// ---------------------------------------------------------------------------
// Finding calls
// ---------------------------------------------------------------------------

/// The node is the one that was captured: it has the same kind and the same bytes.
pub open spec fn is_captured(n: NodeView, c: CaptureView) -> bool {
    n.kind == c.kind && n.start_byte == c.start_byte && n.end_byte == c.end_byte
}

/// The last of the first `n` nodes that is the captured one.
pub open spec fn captured_node(t: Seq<NodeView>, c: CaptureView, n: int) -> Option<int>
    decreases n,
{
    if n <= 0 {
        None
    } else if is_captured(t[n - 1], c) {
        Some(n - 1)
    } else {
        captured_node(t, c, n - 1)
    }
}

/// What is shown of the call of the name at node `i`: the line on which the call starts.
pub open spec fn call_line(t: Seq<NodeView>, lines: Seq<Seq<char>>, i: int, name: Seq<char>) -> Seq<char> {
    let call = match parent(t, i) {
        Some(p) => t[p],
        None => t[i],
    };
    if 0 <= call.start_row < lines.len() {
        trim(lines[call.start_row])
    } else {
        name
    }
}

/// The call of the name at node `i`.
pub open spec fn caller_at(
    t: Seq<NodeView>,
    content: Seq<char>,
    path: Seq<char>,
    i: int,
    name: Seq<char>,
    lang: Lang,
) -> CallerView {
    let l = lines(content);
    CallerView {
        path,
        line: line_number(t[i].start_row),
        calling_function: enclosing(t, l, i, lang).name,
        call_text: call_line(t, l, i, name),
        caller_range: enclosing(t, l, i, lang).range,
        content,
    }
}

/// The calls of the targets among the first `n` captures of a match.
pub open spec fn capture_callers(
    t: Seq<NodeView>,
    content: Seq<char>,
    path: Seq<char>,
    m: Seq<CaptureView>,
    targets: Seq<Seq<char>>,
    lang: Lang,
    n: int,
) -> Seq<(Seq<char>, CallerView)>
    decreases n,
{
    if n <= 0 {
        Seq::empty()
    } else {
        let r = capture_callers(t, content, path, m, targets, lang, n - 1);
        let c = m[n - 1];
        if c.name == "callee"@ && c.text is Some && targets.contains(c.text->0) {
            match captured_node(t, c, t.len() as int) {
                Some(i) => r.push((c.text->0, caller_at(t, content, path, i, c.text->0, lang))),
                None => r,
            }
        } else {
            r
        }
    }
}

/// The calls of the targets in the first `n` matches.
pub open spec fn match_callers(
    t: Seq<NodeView>,
    content: Seq<char>,
    path: Seq<char>,
    ms: Seq<Seq<CaptureView>>,
    targets: Seq<Seq<char>>,
    lang: Lang,
    n: int,
) -> Seq<(Seq<char>, CallerView)>
    decreases n,
{
    if n <= 0 {
        Seq::empty()
    } else {
        match_callers(t, content, path, ms, targets, lang, n - 1) + capture_callers(
            t,
            content,
            path,
            ms[n - 1],
            targets,
            lang,
            ms[n - 1].len() as int,
        )
    }
}

/// The calls of the targets in the content.
pub open spec fn callers_in(path: Seq<char>, targets: Seq<Seq<char>>, content: Seq<char>, lang: Lang) -> Seq<
    (Seq<char>, CallerView),
> {
    match caller_query(lang) {
        Some(q) => match nodes_in(content, lang) {
            Some(t) => {
                let ms = matches_in(content, lang, q);
                match_callers(t, content, path, ms, targets, lang, ms.len() as int)
            },
            None => Seq::empty(),
        },
        None => Seq::empty(),
    }
}

fn find_captured(nodes: &[NodeRecord], c: &CaptureRecord) -> (r: Option<usize>)
    ensures
        r matches Some(i) ==> i < nodes@.len() && captured_node(
            shape(nodes@),
            c@,
            nodes@.len() as int,
        ) == Some(i as int),
        r is None ==> captured_node(shape(nodes@), c@, nodes@.len() as int) is None,
{
    let ghost t = shape(nodes@);
    let mut n: usize = nodes.len();
    while n > 0
        invariant
            n <= nodes@.len(),
            t == shape(nodes@),
            captured_node(t, c@, nodes@.len() as int) == captured_node(t, c@, n as int),
        decreases n,
    {
        let x = &nodes[n - 1];
        assert(t[n - 1] == x@);
        if x.start_byte == c.start_byte && x.end_byte == c.end_byte && same_text(
            x.kind.as_str(),
            c.kind.as_str(),
        ) {
            return Some(n - 1);
        }
        n = n - 1;
    }
    None
}

fn make_caller(
    nodes: &[NodeRecord],
    i: usize,
    lines: &[&[char]],
    path: &str,
    name: &str,
    content: &Arc<String>,
    lang: Lang,
) -> (r: CallerMatch)
    requires
        i < nodes@.len(),
        views(lines@) == crate::text::lines(content@),
    ensures
        r@ == caller_at(shape(nodes@), content@, path@, i as int, name@, lang),
{
    let ghost t = shape(nodes@);
    assert(t[i as int] == nodes@[i as int]@);
    let call: usize = match parent_of(nodes, i) {
        Some(p) => p,
        None => i,
    };
    assert(t[call as int] == nodes@[call as int]@);
    let row: usize = nodes[call].start_row;
    let call_text = if row < lines.len() {
        assert(views(lines@)[row as int] == lines@[row as int]@);
        string_of(trim_of(lines[row]))
    } else {
        name.to_owned()
    };
    let (calling_function, caller_range) = find_enclosing_function(nodes, i, lines, lang);
    CallerMatch {
        path: path.to_owned(),
        line: line_of_row(nodes[i].start_row),
        calling_function,
        call_text,
        caller_range,
        content: content.clone(),
    }
}

fn push_callers(
    nodes: &[NodeRecord],
    lines: &[&[char]],
    path: &str,
    m: &Vec<CaptureRecord>,
    targets: &[String],
    content: &Arc<String>,
    lang: Lang,
    out: &mut Vec<(String, CallerMatch)>,
)
    requires
        views(lines@) == crate::text::lines(content@),
    ensures
        pairs_view(final(out)@) == pairs_view(old(out)@) + capture_callers(
            shape(nodes@),
            content@,
            path@,
            captures_view(m@),
            strs(targets@),
            lang,
            m@.len() as int,
        ),
{
    broadcast use lemma_pairs_push;

    let ghost t = shape(nodes@);
    let ghost c = captures_view(m@);
    let ghost ts = strs(targets@);
    let ghost start = pairs_view(out@);
    let mut i: usize = 0;
    assert(start + capture_callers(t, content@, path@, c, ts, lang, 0) =~= start);
    while i < m.len()
        invariant
            i <= m@.len(),
            t == shape(nodes@),
            c == captures_view(m@),
            ts == strs(targets@),
            views(lines@) == crate::text::lines(content@),
            pairs_view(out@) == start + capture_callers(t, content@, path@, c, ts, lang, i as int),
        decreases m@.len() - i,
    {
        let x = &m[i];
        assert(c[i as int] == x@);
        if same_text(x.name.as_str(), "callee") {
            if let Some(name) = &x.text {
                if has_string(targets, name.as_str()) {
                    if let Some(k) = find_captured(nodes, x) {
                        let ghost before = capture_callers(t, content@, path@, c, ts, lang, i as int);
                        let found = make_caller(nodes, k, lines, path, name.as_str(), content, lang);
                        let ghost p = (name@, found@);
                        out.push((name.clone(), found));
                        assert((start + before).push(p) =~= start + before.push(p));
                    }
                }
            }
        }
        i = i + 1;
    }
}

/// The calls of the targets in the content, each with what it calls.
pub fn find_callers_treesitter_batch(path: &str, targets: &[String], content: &str, lang: Lang) -> (r: Vec<
    (String, CallerMatch),
>)
    ensures
        pairs_view(r@) == callers_in(path@, strs(targets@), content@, lang),
{
    let mut out: Vec<(String, CallerMatch)> = Vec::new();
    assert(pairs_view(out@) =~= Seq::<(Seq<char>, CallerView)>::empty());
    let query = match caller_query_str(lang) {
        Some(q) => q,
        None => {
            return out;
        },
    };
    let nodes = match parse_content(content, lang) {
        Some(n) => n,
        None => {
            return out;
        },
    };
    let ms = find_matches(content, lang, query.as_str());
    let text = chars_of(content);
    let all = lines_of(text.as_slice());
    let shared = Arc::new(content.to_owned());
    let ghost t = shape(nodes@);
    let ghost mv = matches_view(ms@);
    let ghost ts = strs(targets@);
    let mut i: usize = 0;
    while i < ms.len()
        invariant
            i <= ms@.len(),
            t == shape(nodes@),
            mv == matches_view(ms@),
            ts == strs(targets@),
            shared@ == content@,
            views(all@) == lines(content@),
            pairs_view(out@) == match_callers(t, content@, path@, mv, ts, lang, i as int),
        decreases ms@.len() - i,
    {
        assert(mv[i as int] == captures_view(ms@[i as int]@));
        push_callers(
            nodes.as_slice(),
            all.as_slice(),
            path,
            &ms[i],
            targets,
            &shared,
            lang,
            &mut out,
        );
        i = i + 1;
    }
    out
}

/// The calls without the names of what they call.
pub open spec fn without_names(v: Seq<(Seq<char>, CallerView)>) -> Seq<CallerView> {
    v.map_values(|p: (Seq<char>, CallerView)| p.1)
}

fn drop_names(v: Vec<(String, CallerMatch)>) -> (r: Vec<CallerMatch>)
    ensures
        callers_view(r@) == without_names(pairs_view(v@)),
{
    let ghost all = pairs_view(v@);
    let n: usize = v.len();
    let mut left = v;
    let mut r: Vec<CallerMatch> = Vec::new();
    let mut i: usize = 0;
    assert(all.skip(0) =~= all);
    while i < n
        invariant
            i <= n,
            n == all.len(),
            left@.len() == n - i,
            pairs_view(left@) == all.skip(i as int),
            r@.len() == i,
            forall|j: int| 0 <= j < i ==> (#[trigger] r@[j])@ == all[j].1,
        decreases n - i,
    {
        let ghost was = left@;
        let (name, m) = left.remove(0);
        proof {
            assert(pairs_view(was)[0] == pair_view(was[0]));
            assert(all.skip(i as int)[0] == all[i as int]);
            assert(pairs_view(left@) =~= pairs_view(was).skip(1));
            assert(all.skip(i as int).skip(1) =~= all.skip(i + 1));
        }
        r.push(m);
        i = i + 1;
    }
    assert(callers_view(r@) =~= without_names(all));
    r
}

/// The calls of the target in the content.
pub fn find_callers_treesitter(path: &str, target: &str, content: &str, lang: Lang) -> (r: Vec<CallerMatch>)
    ensures
        callers_view(r@) == without_names(callers_in(path@, seq![target@], content@, lang)),
{
    let mut targets: Vec<String> = Vec::new();
    targets.push(target.to_owned());
    assert(strs(targets@) =~= seq![target@]);
    drop_names(find_callers_treesitter_batch(path, targets.as_slice(), content, lang))
}

/// The calls of the targets in the bytes of a file of that size: nothing unless the
/// file is one to search and its language has a grammar.
pub open spec fn callers_in_file(path: Seq<char>, targets: Seq<Seq<char>>, size: u64, bytes: Seq<u8>) -> Seq<
    (Seq<char>, CallerView),
> {
    if !is_candidate(path, size) {
        Seq::empty()
    } else {
        match searched_text(targets, size, bytes) {
            Some(content) => match path_lang(path) {
                Some(lang) => callers_in(path, targets, content, lang),
                None => Seq::empty(),
            },
            None => Seq::empty(),
        }
    }
}

/// The calls of the targets in the bytes of a file of that size.
pub fn find_callers_batch(path: &str, targets: &[String], size: u64, bytes: &[u8]) -> (r: Vec<
    (String, CallerMatch),
>)
    ensures
        pairs_view(r@) == callers_in_file(path@, strs(targets@), size, bytes@),
{
    if candidate_file(path, size) {
        if let Some(content) = text_to_search(targets, size, bytes) {
            if let Some(lang) = grammar_for_path(path) {
                return find_callers_treesitter_batch(path, targets, content, lang);
            }
        }
    }
    let r: Vec<(String, CallerMatch)> = Vec::new();
    assert(pairs_view(r@) =~= Seq::<(Seq<char>, CallerView)>::empty());
    r
}

/// The calls of the target in the bytes of a file of that size.
pub fn find_callers(path: &str, target: &str, size: u64, bytes: &[u8]) -> (r: Vec<CallerMatch>)
    ensures
        callers_view(r@) == without_names(callers_in_file(path@, seq![target@], size, bytes@)),
{
    let mut targets: Vec<String> = Vec::new();
    targets.push(target.to_owned());
    assert(strs(targets@) =~= seq![target@]);
    drop_names(find_callers_batch(path, targets.as_slice(), size, bytes))
}

/// The call as a step of a walk over the call graph.
pub fn call_of(p: &(String, CallerMatch)) -> (r: Call)
    ensures
        r@ == (CallView {
            to: p.0@,
            path: p.1.path@,
            line: p.1.line,
            from: p.1.calling_function@,
            call_text: p.1.call_text@,
        }),
{
    Call {
        to: p.0.clone(),
        path: p.1.path.clone(),
        line: p.1.line,
        from: p.1.calling_function.clone(),
        call_text: p.1.call_text.clone(),
    }
}

// ---------------------------------------------------------------------------
// Ranking
// ---------------------------------------------------------------------------

/// How many components the path has as seen from the scope.
pub open spec fn distance(path: Seq<char>, scope: Seq<char>) -> nat {
    components(shown(path, scope)).len()
}

/// The path is the one that is looked at.
pub open spec fn is_context(path: Seq<char>, context: Option<Seq<char>>) -> bool {
    context matches Some(c) && same_path(path, c)
}

/// The call may precede the other: those in the file that is looked at come first,
/// then those closer to the scope, then by path and line.
pub open spec fn caller_le(a: CallerView, b: CallerView, scope: Seq<char>, context: Option<Seq<char>>) -> bool {
    if is_context(a.path, context) != is_context(b.path, context) {
        is_context(a.path, context)
    } else if distance(a.path, scope) != distance(b.path, scope) {
        distance(a.path, scope) < distance(b.path, scope)
    } else if !same_path(a.path, b.path) {
        path_le(a.path, b.path)
    } else {
        a.line <= b.line
    }
}

/// The order of calls.
pub open spec fn caller_order(scope: Seq<char>, context: Option<Seq<char>>) -> spec_fn(
    CallerView,
    CallerView,
) -> bool {
    |a: CallerView, b: CallerView| caller_le(a, b, scope, context)
}

/// The calls in their order.
pub open spec fn ranked(s: Seq<CallerView>, scope: Seq<char>, context: Option<Seq<char>>) -> Seq<
    CallerView,
> {
    stable_sort(s, caller_order(scope, context))
}

fn in_context(path: &str, context: Option<&str>) -> (r: bool)
    ensures
        r == is_context(
            path@,
            opt_str(context),
        ),
{
    match context {
        Some(c) => equal_paths(path, c),
        None => false,
    }
}

fn callers_ordered(a: &CallerMatch, b: &CallerMatch, scope: &str, context: Option<&str>) -> (r: bool)
    ensures
        r == caller_le(
            a@,
            b@,
            scope@,
            opt_str(context),
        ),
{
    let x = in_context(a.path.as_str(), context);
    let y = in_context(b.path.as_str(), context);
    if x != y {
        return x;
    }
    let ra = rel(a.path.as_str(), scope);
    let rb = rel(b.path.as_str(), scope);
    let ca = components_of(ra.as_str());
    let cb = components_of(rb.as_str());
    if ca.len() != cb.len() {
        ca.len() < cb.len()
    } else if !equal_paths(a.path.as_str(), b.path.as_str()) {
        paths_ordered(a.path.as_str(), b.path.as_str())
    } else {
        a.line <= b.line
    }
}

/// Puts the calls in their order.
pub fn rank_callers(callers: &mut Vec<CallerMatch>, scope: &str, context: Option<&str>)
    ensures
        callers_view(final(callers)@) == ranked(
            callers_view(old(callers)@),
            scope@,
            opt_str(context),
        ),
{
    let ghost le = |a: CallerMatch, b: CallerMatch| caller_le(a@, b@, scope@, opt_str(context));
    let f = |a: &CallerMatch, b: &CallerMatch| -> (r: bool)
        ensures
            r == caller_le(a@, b@, scope@, opt_str(context)),
        { callers_ordered(a, b, scope, context) };
    let ghost was = callers@;
    sort_by(callers, f, Ghost(le));
    proof {
        lemma_sort_map(was, |c: CallerMatch| c@, le, caller_order(scope@, opt_str(context)));
    }
}

/// Any two calls are ordered one way at least, and the order is transitive.
pub proof fn law_caller_order(scope: Seq<char>, context: Option<Seq<char>>)
    ensures
        is_preorder(caller_order(scope, context)),
{
    let le = caller_order(scope, context);
    assert forall|a: CallerView, b: CallerView| #[trigger] le(a, b) || le(b, a) by {
        lemma_path_total(components(a.path), components(b.path), 0);
    }
    assert forall|a: CallerView, b: CallerView, c: CallerView| #[trigger]
        le(a, b) && #[trigger] le(b, c) implies le(a, c) by {
        let (ca, cb, cc) = (components(a.path), components(b.path), components(c.path));
        if path_le(a.path, b.path) && path_le(b.path, c.path) {
            lemma_path_trans(ca, cb, cc, 0);
        }
        assert(ca.take(0) =~= cb.take(0));
        assert(cb.take(0) =~= cc.take(0));
        lemma_same_when_both(ca, cb, 0);
        lemma_same_when_both(cb, cc, 0);
        lemma_same_when_both(ca, cc, 0);
    }
}

/// Two lists of components that may precede each other are the same from there on.
proof fn lemma_same_when_both(a: Seq<Seq<char>>, b: Seq<Seq<char>>, i: int)
    requires
        0 <= i,
    ensures
        i <= a.len() && i <= b.len() && a.take(i) == b.take(i) && components_le(a, b, i)
            && components_le(b, a, i) ==> a == b,
    decreases a.len() - i,
{
    if i <= a.len() && i <= b.len() && a.take(i) == b.take(i) && components_le(a, b, i)
        && components_le(b, a, i) {
        if i < a.len() && i < b.len() {
            if a[i] == b[i] {
                assert(a.take(i + 1) =~= a.take(i).push(a[i]));
                assert(b.take(i + 1) =~= b.take(i).push(b[i]));
                lemma_same_when_both(a, b, i + 1);
            } else {
                crate::text::lemma_text_order(a[i], b[i]);
            }
        } else {
            assert(a.take(i) =~= a);
            assert(b.take(i) =~= b);
        }
    }
}

/// No call in the file that is looked at comes after one in another file.
pub proof fn law_context_first(
    s: Seq<CallerView>,
    scope: Seq<char>,
    context: Option<Seq<char>>,
    i: int,
    j: int,
)
    requires
        0 <= i < j < ranked(s, scope, context).len(),
        is_context(ranked(s, scope, context)[j].path, context),
    ensures
        is_context(ranked(s, scope, context)[i].path, context),
{
    law_caller_order(scope, context);
    law_sort_orders(s, caller_order(scope, context));
    let r = ranked(s, scope, context);
    assert(caller_order(scope, context)(r[i], r[j]));
}

proof fn lemma_captured_node(t: Seq<NodeView>, c: CaptureView, n: int)
    requires
        0 <= n <= t.len(),
    ensures
        match captured_node(t, c, n) {
            Some(i) => 0 <= i < n && is_captured(t[i], c),
            None => forall|i: int| 0 <= i < n ==> !is_captured(#[trigger] t[i], c),
        },
    decreases n,
{
    if n > 0 {
        lemma_captured_node(t, c, n - 1);
    }
}

/// The call is of the name, at a node that the capture marks.
pub open spec fn call_at(
    p: (Seq<char>, CallerView),
    t: Seq<NodeView>,
    content: Seq<char>,
    path: Seq<char>,
    c: CaptureView,
    lang: Lang,
    i: int,
) -> bool {
    &&& 0 <= i < t.len()
    &&& t[i].kind == c.kind
    &&& t[i].start_byte == c.start_byte
    &&& t[i].end_byte == c.end_byte
    &&& Some(p.0) == c.text
    &&& p.1.path == path
    &&& p.1.content == content
    &&& 0 <= t[i].start_row < u32::MAX ==> p.1.line == t[i].start_row + 1
    &&& p.1.calling_function == enclosing(t, lines(content), i, lang).name
    &&& p.1.caller_range == enclosing(t, lines(content), i, lang).range
}

proof fn lemma_capture_callers(
    t: Seq<NodeView>,
    content: Seq<char>,
    path: Seq<char>,
    m: Seq<CaptureView>,
    targets: Seq<Seq<char>>,
    lang: Lang,
    n: int,
)
    requires
        0 <= n <= m.len(),
    ensures
        forall|k: int|
            0 <= k < n && (#[trigger] m[k]).name == "callee"@ && m[k].text is Some
                && targets.contains(m[k].text->0) && captured_node(t, m[k], t.len() as int) is Some
                ==> exists|p: (Seq<char>, CallerView), i: int|
                capture_callers(t, content, path, m, targets, lang, n).contains(p)
                    && #[trigger] call_at(p, t, content, path, m[k], lang, i),
        forall|p: (Seq<char>, CallerView)| #[trigger]
            capture_callers(t, content, path, m, targets, lang, n).contains(p) ==> targets.contains(
                p.0,
            ) && exists|k: int, i: int|
                0 <= k < n && m[k].name == "callee"@ && #[trigger] call_at(
                    p,
                    t,
                    content,
                    path,
                    m[k],
                    lang,
                    i,
                ),
    decreases n,
{
    if n > 0 {
        lemma_capture_callers(t, content, path, m, targets, lang, n - 1);
        let q = capture_callers(t, content, path, m, targets, lang, n - 1);
        let r = capture_callers(t, content, path, m, targets, lang, n);
        lemma_captured_node(t, m[n - 1], t.len() as int);
        assert forall|p: (Seq<char>, CallerView)| q.contains(p) implies #[trigger] r.contains(p) by {
            let a = choose|a: int| 0 <= a < q.len() && q[a] == p;
            assert(r[a] == p);
        }
        assert forall|k: int|
            0 <= k < n && (#[trigger] m[k]).name == "callee"@ && m[k].text is Some
                && targets.contains(m[k].text->0) && captured_node(t, m[k], t.len() as int) is Some
            implies exists|p: (Seq<char>, CallerView), i: int|
            r.contains(p) && #[trigger] call_at(p, t, content, path, m[k], lang, i) by {
            if k < n - 1 {
                let (p, i) = choose|p: (Seq<char>, CallerView), i: int|
                    q.contains(p) && #[trigger] call_at(p, t, content, path, m[k], lang, i);
                assert(r.contains(p));
            } else {
                let i = captured_node(t, m[k], t.len() as int)->0;
                let p = r[q.len() as int];
                assert(r.contains(p));
                assert(call_at(p, t, content, path, m[k], lang, i));
            }
        }
        assert forall|p: (Seq<char>, CallerView)| #[trigger] r.contains(p) implies targets.contains(
            p.0,
        ) && exists|k: int, i: int|
            0 <= k < n && m[k].name == "callee"@ && #[trigger] call_at(
                p,
                t,
                content,
                path,
                m[k],
                lang,
                i,
            ) by {
            let a = choose|a: int| 0 <= a < r.len() && r[a] == p;
            if a < q.len() {
                assert(q[a] == p);
                assert(q.contains(p));
                let (k, i) = choose|k: int, i: int|
                    0 <= k < n - 1 && m[k].name == "callee"@ && #[trigger] call_at(
                        p,
                        t,
                        content,
                        path,
                        m[k],
                        lang,
                        i,
                    );
                assert(call_at(p, t, content, path, m[k], lang, i));
            } else {
                let i = captured_node(t, m[n - 1], t.len() as int)->0;
                assert(call_at(p, t, content, path, m[n - 1], lang, i));
            }
        }
    }
}

proof fn lemma_match_callers(
    t: Seq<NodeView>,
    content: Seq<char>,
    path: Seq<char>,
    ms: Seq<Seq<CaptureView>>,
    targets: Seq<Seq<char>>,
    lang: Lang,
    n: int,
)
    requires
        0 <= n <= ms.len(),
    ensures
        forall|j: int, p: (Seq<char>, CallerView)|
            #![trigger capture_callers(t, content, path, ms[j], targets, lang, ms[j].len() as int).contains(p)]
            0 <= j < n && capture_callers(
                t,
                content,
                path,
                ms[j],
                targets,
                lang,
                ms[j].len() as int,
            ).contains(p) ==> match_callers(t, content, path, ms, targets, lang, n).contains(p),
        forall|p: (Seq<char>, CallerView)| #[trigger]
            match_callers(t, content, path, ms, targets, lang, n).contains(p) ==> exists|j: int|
                0 <= j < n && #[trigger] capture_callers(
                    t,
                    content,
                    path,
                    ms[j],
                    targets,
                    lang,
                    ms[j].len() as int,
                ).contains(p),
    decreases n,
{
    if n > 0 {
        lemma_match_callers(t, content, path, ms, targets, lang, n - 1);
        let q = match_callers(t, content, path, ms, targets, lang, n - 1);
        let own = capture_callers(
            t,
            content,
            path,
            ms[n - 1],
            targets,
            lang,
            ms[n - 1].len() as int,
        );
        let r = match_callers(t, content, path, ms, targets, lang, n);
        assert(r == q + own);
        assert forall|j: int, p: (Seq<char>, CallerView)|
            #![trigger capture_callers(t, content, path, ms[j], targets, lang, ms[j].len() as int).contains(p)]
            0 <= j < n && capture_callers(
                t,
                content,
                path,
                ms[j],
                targets,
                lang,
                ms[j].len() as int,
            ).contains(p) implies r.contains(p) by {
            if j < n - 1 {
                assert(q.contains(p));
                let a = choose|a: int| 0 <= a < q.len() && q[a] == p;
                assert(r[a] == p);
            } else {
                let a = choose|a: int| 0 <= a < own.len() && own[a] == p;
                assert(r[q.len() + a] == p);
            }
        }
        assert forall|p: (Seq<char>, CallerView)| #[trigger] r.contains(p) implies exists|j: int|
            0 <= j < n && #[trigger] capture_callers(
                t,
                content,
                path,
                ms[j],
                targets,
                lang,
                ms[j].len() as int,
            ).contains(p) by {
            let a = choose|a: int| 0 <= a < r.len() && r[a] == p;
            if a < q.len() {
                assert(q[a] == p);
                assert(q.contains(p));
            } else {
                assert(own[a - q.len()] == p);
                assert(own.contains(p));
            }
        }
    }
}

/// Every call of a target is found: wherever the query captures a callee that is one of
/// the targets, there is a call of it, on the line of the captured node, from the
/// function that encloses that node.
pub proof fn law_every_caller_is_found(
    path: Seq<char>,
    targets: Seq<Seq<char>>,
    content: Seq<char>,
    lang: Lang,
    query: Seq<char>,
    t: Seq<NodeView>,
    j: int,
    k: int,
)
    requires
        caller_query(lang) == Some(query),
        nodes_in(content, lang) == Some(t),
        0 <= j < matches_in(content, lang, query).len(),
        0 <= k < matches_in(content, lang, query)[j].len(),
        ({
            let c = matches_in(content, lang, query)[j][k];
            &&& c.name == "callee"@
            &&& c.text is Some
            &&& targets.contains(c.text->0)
            &&& exists|i: int| 0 <= i < t.len() && is_captured(#[trigger] t[i], c)
        }),
    ensures
        exists|p: (Seq<char>, CallerView), i: int|
            callers_in(path, targets, content, lang).contains(p) && #[trigger] call_at(
                p,
                t,
                content,
                path,
                matches_in(content, lang, query)[j][k],
                lang,
                i,
            ),
{
    let ms = matches_in(content, lang, query);
    let c = ms[j][k];
    lemma_captured_node(t, c, t.len() as int);
    lemma_capture_callers(t, content, path, ms[j], targets, lang, ms[j].len() as int);
    let (p, i) = choose|p: (Seq<char>, CallerView), i: int|
        capture_callers(t, content, path, ms[j], targets, lang, ms[j].len() as int).contains(p)
            && #[trigger] call_at(p, t, content, path, ms[j][k], lang, i);
    lemma_match_callers(t, content, path, ms, targets, lang, ms.len() as int);
    assert(callers_in(path, targets, content, lang).contains(p));
    assert(call_at(p, t, content, path, ms[j][k], lang, i));
}

/// Nothing else is found: whatever is listed is a call of one of the targets, at a node
/// that the query captures as a callee.
pub proof fn law_callers_are_calls(
    path: Seq<char>,
    targets: Seq<Seq<char>>,
    content: Seq<char>,
    lang: Lang,
    query: Seq<char>,
    t: Seq<NodeView>,
    p: (Seq<char>, CallerView),
)
    requires
        caller_query(lang) == Some(query),
        nodes_in(content, lang) == Some(t),
        callers_in(path, targets, content, lang).contains(p),
    ensures
        targets.contains(p.0),
        exists|j: int, k: int, i: int|
            0 <= j < matches_in(content, lang, query).len() && 0 <= k < matches_in(
                content,
                lang,
                query,
            )[j].len() && matches_in(content, lang, query)[j][k].name == "callee"@
                && #[trigger] call_at(
                p,
                t,
                content,
                path,
                matches_in(content, lang, query)[j][k],
                lang,
                i,
            ),
{
    let ms = matches_in(content, lang, query);
    lemma_match_callers(t, content, path, ms, targets, lang, ms.len() as int);
    let j = choose|j: int|
        0 <= j < ms.len() && #[trigger] capture_callers(
            t,
            content,
            path,
            ms[j],
            targets,
            lang,
            ms[j].len() as int,
        ).contains(p);
    lemma_capture_callers(t, content, path, ms[j], targets, lang, ms[j].len() as int);
    let (k, i) = choose|k: int, i: int|
        0 <= k < ms[j].len() && ms[j][k].name == "callee"@ && #[trigger] call_at(
            p,
            t,
            content,
            path,
            ms[j][k],
            lang,
            i,
        );
    assert(call_at(p, t, content, path, ms[j][k], lang, i));
}

/// Looking for several targets together finds, of each, what looking for it alone
/// finds, in the same order.
pub proof fn law_together_as_alone(
    path: Seq<char>,
    targets: Seq<Seq<char>>,
    content: Seq<char>,
    lang: Lang,
    x: Seq<char>,
)
    requires
        targets.contains(x),
    ensures
        callers_in(path, targets, content, lang).filter(|p: (Seq<char>, CallerView)| p.0 == x)
            == callers_in(path, seq![x], content, lang),
{
    let of = |p: (Seq<char>, CallerView)| p.0 == x;
    reveal(Seq::filter);
    if let Some(q) = caller_query(lang) {
        if let Some(t) = nodes_in(content, lang) {
            let ms = matches_in(content, lang, q);
            lemma_alone(t, content, path, ms, targets, lang, x, ms.len() as int);
        } else {
            assert(Seq::<(Seq<char>, CallerView)>::empty().filter(of) =~= Seq::empty());
        }
    } else {
        assert(Seq::<(Seq<char>, CallerView)>::empty().filter(of) =~= Seq::empty());
    }
}

proof fn lemma_alone(
    t: Seq<NodeView>,
    content: Seq<char>,
    path: Seq<char>,
    ms: Seq<Seq<CaptureView>>,
    targets: Seq<Seq<char>>,
    lang: Lang,
    x: Seq<char>,
    n: int,
)
    requires
        targets.contains(x),
        0 <= n <= ms.len(),
    ensures
        match_callers(t, content, path, ms, targets, lang, n).filter(
            |p: (Seq<char>, CallerView)| p.0 == x,
        ) == match_callers(t, content, path, ms, seq![x], lang, n),
    decreases n,
{
    let of = |p: (Seq<char>, CallerView)| p.0 == x;
    if n > 0 {
        lemma_alone(t, content, path, ms, targets, lang, x, n - 1);
        let m = ms[n - 1];
        lemma_capture_alone(t, content, path, m, targets, lang, x, m.len() as int);
        lemma_filter_concat(
            match_callers(t, content, path, ms, targets, lang, n - 1),
            capture_callers(t, content, path, m, targets, lang, m.len() as int),
            of,
        );
    } else {
        reveal(Seq::filter);
        assert(Seq::<(Seq<char>, CallerView)>::empty().filter(of) =~= Seq::empty());
    }
}

proof fn lemma_filter_concat(
    a: Seq<(Seq<char>, CallerView)>,
    b: Seq<(Seq<char>, CallerView)>,
    p: spec_fn((Seq<char>, CallerView)) -> bool,
)
    ensures
        (a + b).filter(p) == a.filter(p) + b.filter(p),
    decreases b.len(),
{
    reveal(Seq::filter);
    if b.len() == 0 {
        assert(a + b =~= a);
        assert(a.filter(p) + b.filter(p) =~= a.filter(p));
    } else {
        lemma_filter_concat(a, b.drop_last(), p);
        assert((a + b).drop_last() =~= a + b.drop_last());
        assert((a + b).last() == b.last());
        assert((a + b).filter(p) =~= a.filter(p) + b.filter(p));
    }
}

proof fn lemma_capture_alone(
    t: Seq<NodeView>,
    content: Seq<char>,
    path: Seq<char>,
    m: Seq<CaptureView>,
    targets: Seq<Seq<char>>,
    lang: Lang,
    x: Seq<char>,
    n: int,
)
    requires
        targets.contains(x),
        0 <= n <= m.len(),
    ensures
        capture_callers(t, content, path, m, targets, lang, n).filter(
            |p: (Seq<char>, CallerView)| p.0 == x,
        ) == capture_callers(t, content, path, m, seq![x], lang, n),
    decreases n,
{
    reveal(Seq::filter);
    let of = |p: (Seq<char>, CallerView)| p.0 == x;
    if n > 0 {
        lemma_capture_alone(t, content, path, m, targets, lang, x, n - 1);
        let q = capture_callers(t, content, path, m, targets, lang, n - 1);
        let r = capture_callers(t, content, path, m, targets, lang, n);
        let c = m[n - 1];
        assert forall|y: Seq<char>| #[trigger] seq![x].contains(y) <==> y == x by {
            if seq![x].contains(y) {
                let k = choose|k: int| 0 <= k < 1 && seq![x][k] == y;
            }
            assert(seq![x][0] == x);
        }
        if r.len() > q.len() {
            assert(r.drop_last() =~= q);
            assert(r.filter(of) == if of(r.last()) {
                q.filter(of).push(r.last())
            } else {
                q.filter(of)
            });
        }
    }
}

/// Calls closer to the scope come before those farther away, once those in the file that
/// is looked at have come; ranking keeps every call and adds none.
pub proof fn law_closer_calls_first(
    s: Seq<CallerView>,
    scope: Seq<char>,
    context: Option<Seq<char>>,
    i: int,
    j: int,
    c: CallerView,
)
    ensures
        ranked(s, scope, context).len() == s.len(),
        ranked(s, scope, context).contains(c) <==> s.contains(c),
        0 <= i < j < ranked(s, scope, context).len() && is_context(
            ranked(s, scope, context)[i].path,
            context,
        ) == is_context(ranked(s, scope, context)[j].path, context) ==> distance(
            ranked(s, scope, context)[i].path,
            scope,
        ) <= distance(ranked(s, scope, context)[j].path, scope),
        0 <= i < j < ranked(s, scope, context).len() && same_path(
            ranked(s, scope, context)[i].path,
            ranked(s, scope, context)[j].path,
        ) ==> ranked(s, scope, context)[i].line <= ranked(s, scope, context)[j].line,
{
    law_caller_order(scope, context);
    law_sort_orders(s, caller_order(scope, context));
    crate::sort::law_sort_keeps_elements(s, caller_order(scope, context));
    crate::sort::law_sort_keeps_members(s, caller_order(scope, context), c);
    if 0 <= i < j < ranked(s, scope, context).len() {
        let r = ranked(s, scope, context);
        assert(caller_order(scope, context)(r[i], r[j]));
    }
}

} // verus!
