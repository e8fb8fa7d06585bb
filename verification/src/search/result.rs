//! The answer to a search.
use vstd::prelude::*;
use vstd::string::*;

use crate::paths::{extension, extension_of, file_stem, file_stem_of};
use crate::text::{
    ascii_lower, chars_of, dec, has, has_text, join, join_strings, lines, lines_of, lower_ascii,
    opt_text, push_chars, push_dec, same_text, strs, trim, trim_of, views,
};
use crate::types::{found_view, ints, Match, MatchView, SearchResult};

use super::bfs_format::{push_token_note, rel, shown, token_note};
use super::facets::{facet_positions, facets_of, positions_in, Facet};
use super::format::{
    contexts_view, format_matches, show_matches, ContextView, ExpandState, ExpandView, MatchContext,
    ShowView,
};
use super::io::{escape, escaped, parse_pattern, pattern_of, word_pattern};

verus! {

// ---------------------------------------------------------------------------
// The file that bears the name
// ---------------------------------------------------------------------------

/// How likely a file with the extension is source rather than compiled from it.
pub open spec fn extension_priority(e: Seq<char>) -> u8 {
    if e == "ts"@ || e == "tsx"@ {
        10
    } else if e == "rs"@ || e == "go"@ || e == "py"@ || e == "rb"@ || e == "java"@ || e == "kt"@ || e == "scala"@ || e == "swift"@ || e == "c"@ || e == "cpp"@ || e == "h"@ || e == "cs"@ || e == "php"@ {
        9
    } else if e == "js"@ || e == "jsx"@ || e == "mjs"@ || e == "cjs"@ {
        7
    } else {
        3
    }
}

/// The extension of the path, or nothing.
pub open spec fn extension_or_none(path: Seq<char>) -> Seq<char> {
    match extension(path) {
        Some(e) => e,
        None => ""@,
    }
}

/// How likely the file is source rather than compiled from it.
pub fn source_priority(path: &str) -> (r: u8)
    ensures
        r == extension_priority(extension_or_none(path@)),
{
    let ext = match extension_of(path) {
        Some(e) => e,
        None => "".to_owned(),
    };
    let e = ext.as_str();
    if same_text(e, "ts") || same_text(e, "tsx") {
        10
    } else if same_text(e, "rs") || same_text(e, "go") || same_text(e, "py") || same_text(e, "rb") || same_text(e, "java") || same_text(e, "kt") || same_text(e, "scala") || same_text(e, "swift") || same_text(e, "c") || same_text(e, "cpp") || same_text(e, "h") || same_text(e, "cs") || same_text(e, "php") {
        9
    } else if same_text(e, "js") || same_text(e, "jsx") || same_text(e, "mjs") || same_text(e, "cjs") {
        7
    } else {
        3
    }
}

/// The extension is one of code.
pub open spec fn code_extension(e: Seq<char>) -> bool {
    e == "rs"@ || e == "ts"@ || e == "tsx"@ || e == "js"@ || e == "jsx"@ || e == "go"@ || e == "py"@ || e == "rb"@ || e == "java"@ || e == "c"@ || e == "cpp"@ || e == "h"@ || e == "cs"@ || e == "swift"@ || e == "kt"@ || e == "scala"@ || e == "php"@
}

fn is_code_extension(e: &str) -> (r: bool)
    ensures
        r == code_extension(e@),
{
    same_text(e, "rs") || same_text(e, "ts") || same_text(e, "tsx") || same_text(e, "js") || same_text(e, "jsx") || same_text(e, "go") || same_text(e, "py") || same_text(e, "rb") || same_text(e, "java") || same_text(e, "c") || same_text(e, "cpp") || same_text(e, "h") || same_text(e, "cs") || same_text(e, "swift") || same_text(e, "kt") || same_text(e, "scala") || same_text(e, "php")
}

/// The name of the file without its extension is the query, letter case aside.
pub open spec fn bears_name(path: Seq<char>, query_lower: Seq<char>) -> bool {
    file_stem(path) matches Some(s) && ascii_lower(s) == query_lower
}

fn has_stem(path: &str, query_lower: &str) -> (r: bool)
    ensures
        r == bears_name(path@, query_lower@),
{
    match file_stem_of(path) {
        Some(s) => same_text(lower_ascii(s.as_str()).as_str(), query_lower),
        None => false,
    }
}

/// The best file so far, and how likely it is source.
pub struct BestView {
    pub path: Option<Seq<char>>,
    pub priority: u8,
}

/// The best of the files of the first `n` matches that bear the name: a file of code
/// of a higher priority replaces the one before; one that is no code is taken only
/// where there is none.
pub open spec fn best_match(ms: Seq<MatchView>, query_lower: Seq<char>, n: int) -> BestView
    decreases n,
{
    if n <= 0 {
        BestView { path: None, priority: 0 }
    } else {
        let b = best_match(ms, query_lower, n - 1);
        let p = ms[n - 1].path;
        if !bears_name(p, query_lower) {
            b
        } else if !code_extension(extension_or_none(p)) {
            if b.path is None {
                BestView { path: Some(p), priority: b.priority }
            } else {
                b
            }
        } else if extension_priority(extension_or_none(p)) > b.priority {
            BestView { path: Some(p), priority: extension_priority(extension_or_none(p)) }
        } else {
            b
        }
    }
}

/// The best file among the matches that bears the name.
pub fn find_basename_candidate(matches: &Vec<Match>, query_lower: &str) -> (r: Option<String>)
    ensures
        opt_text(r) == best_match(
            found_view(matches@),
            query_lower@,
            matches@.len() as int,
        ).path,
{
    let ghost v = found_view(matches@);
    let mut best: Option<String> = None;
    let mut priority: u8 = 0;
    let mut i: usize = 0;
    while i < matches.len()
        invariant
            i <= matches@.len(),
            v == found_view(matches@),
            (BestView { path: opt_text(best), priority }) == best_match(
                v,
                query_lower@,
                i as int,
            ),
        decreases matches@.len() - i,
    {
        let p = matches[i].path.as_str();
        assert(v[i as int] == matches@[i as int]@);
        if has_stem(p, query_lower) {
            let ext = match extension_of(p) {
                Some(e) => e,
                None => "".to_owned(),
            };
            if !is_code_extension(ext.as_str()) {
                if best.is_none() {
                    best = Some(p.to_owned());
                }
            } else {
                let q: u8 = source_priority(p);
                if q > priority {
                    priority = q;
                    best = Some(p.to_owned());
                }
            }
        }
        i = i + 1;
    }
    best
}

/// The best of the first `n` files that bear the name.
pub open spec fn best_file(paths: Seq<Seq<char>>, query_lower: Seq<char>, n: int) -> BestView
    decreases n,
{
    if n <= 0 {
        BestView { path: None, priority: 0 }
    } else {
        let b = best_file(paths, query_lower, n - 1);
        let p = paths[n - 1];
        if bears_name(p, query_lower) && extension_priority(extension_or_none(p)) > b.priority {
            BestView { path: Some(p), priority: extension_priority(extension_or_none(p)) }
        } else {
            b
        }
    }
}

/// The best of the files that bears the name.
pub fn find_basename_fallback(paths: &[String], query_lower: &str) -> (r: Option<String>)
    ensures
        opt_text(r) == best_file(strs(paths@), query_lower@, paths@.len() as int).path,
{
    let ghost v = strs(paths@);
    let mut best: Option<String> = None;
    let mut priority: u8 = 0;
    let mut i: usize = 0;
    while i < paths.len()
        invariant
            i <= paths@.len(),
            v == strs(paths@),
            (BestView { path: opt_text(best), priority }) == best_file(
                v,
                query_lower@,
                i as int,
            ),
        decreases paths@.len() - i,
    {
        let p = paths[i].as_str();
        assert(v[i as int] == paths@[i as int]@);
        if has_stem(p, query_lower) {
            let q: u8 = source_priority(p);
            if q > priority {
                priority = q;
                best = Some(p.to_owned());
            }
        }
        i = i + 1;
    }
    best
}

/// The query may be the name of a file: a single word without a path in it.
pub open spec fn may_name_file(query: Seq<char>) -> bool {
    query.len() > 0 && !(has(query, " "@) || has(query, "::"@))
}

/// The query in lower case, where it may be the name of a file.
pub fn basename_query(query: &str) -> (r: Option<String>)
    ensures
        opt_text(r) == (if may_name_file(query@) {
            Some(ascii_lower(query@))
        } else {
            None
        }),
{
    let s = chars_of(query);
    if s.len() == 0 || has_text(s.as_slice(), " ") || has_text(s.as_slice(), "::") {
        None
    } else {
        Some(lower_ascii(query))
    }
}

/// The outline of the file that bears the name of the query, with a heading.
pub open spec fn overview(path: Seq<char>, scope: Seq<char>, content: Seq<char>, outline: Seq<char>) -> Option<
    Seq<char>,
> {
    if trim(outline).len() == 0 {
        None
    } else {
        Some(
            "### File overview: "@ + shown(path, scope) + " ("@ + dec(lines(content).len())
                + " lines)\n"@ + outline,
        )
    }
}

/// The outline of the file that bears the name of the query, with a heading.
pub fn basename_file_outline(path: &str, scope: &str, content: &str, outline: &str) -> (r: Option<String>)
    ensures
        opt_text(r) == overview(path@, scope@, content@, outline@),
{
    let o = chars_of(outline);
    if trim_of(o.as_slice()).len() == 0 {
        return None;
    }
    let c = chars_of(content);
    let l = lines_of(c.as_slice());
    assert(views(l@).len() == l@.len());
    let mut s = "### File overview: ".to_owned();
    s.append(rel(path, scope).as_str());
    s.append(" (");
    push_dec(&mut s, l.len());
    s.append(" lines)\n");
    s.append(outline);
    Some(s)
}

// ---------------------------------------------------------------------------
// Search results
// ---------------------------------------------------------------------------

/// The number of matches above which they are grouped.
pub const FACET_THRESHOLD: usize = 5;

/// The heading of a group.
pub open spec fn facet_heading(title: Seq<char>, n: nat) -> Seq<char> {
    "\n\n### "@ + title + " ("@ + dec(n) + ")"@
}

/// A group shown after what is shown so far, where it has members.
pub open spec fn show_facet(
    ms: Seq<MatchView>,
    cs: Seq<ContextView>,
    ps: Seq<int>,
    title: Seq<char>,
    scope: Seq<char>,
    s: ShowView,
) -> ShowView {
    if ps.len() == 0 {
        s
    } else {
        show_matches(
            ms,
            cs,
            ps,
            scope,
            ShowView { text: s.text + facet_heading(title, ps.len()), state: s.state },
        )
    }
}

/// The lines of the first `n` tests, one for each.
pub open spec fn test_rows(ms: Seq<MatchView>, ps: Seq<int>, scope: Seq<char>, n: int) -> Seq<char>
    decreases n,
{
    if n <= 0 {
        Seq::empty()
    } else {
        let m = ms[ps[n - 1]];
        test_rows(ms, ps, scope, n - 1) + "\n  "@ + shown(m.path, scope) + ":"@ + dec(m.line as nat)
            + " — "@ + trim(m.text)
    }
}

/// The tests shown after what is shown so far, where there are any.
pub open spec fn show_tests(ms: Seq<MatchView>, ps: Seq<int>, scope: Seq<char>, s: ShowView) -> ShowView {
    if ps.len() == 0 {
        s
    } else {
        ShowView {
            text: s.text + facet_heading("Tests"@, ps.len()) + test_rows(
                ms,
                ps,
                scope,
                ps.len() as int,
            ),
            state: s.state,
        }
    }
}

/// All positions.
pub open spec fn all_positions(n: nat) -> Seq<int> {
    Seq::new(n, |i: int| i)
}

/// The matches shown after what is shown so far: many of them in groups, few of them
/// one after the other.
pub open spec fn show_result(
    ms: Seq<MatchView>,
    cs: Seq<ContextView>,
    scope: Seq<char>,
    manifests: Seq<Seq<char>>,
    s: ShowView,
) -> ShowView {
    if ms.len() > FACET_THRESHOLD {
        let s1 = show_facet(
            ms,
            cs,
            facet_positions(ms, Facet::Definition, manifests),
            "Definitions"@,
            scope,
            s,
        );
        let s2 = show_facet(
            ms,
            cs,
            facet_positions(ms, Facet::Implementation, manifests),
            "Implementations"@,
            scope,
            s1,
        );
        let s3 = show_tests(ms, facet_positions(ms, Facet::Test, manifests), scope, s2);
        let s4 = show_facet(
            ms,
            cs,
            facet_positions(ms, Facet::LocalUsage, manifests),
            "Usages — same package"@,
            scope,
            s3,
        );
        show_facet(
            ms,
            cs,
            facet_positions(ms, Facet::OtherUsage, manifests),
            "Usages — other"@,
            scope,
            s4,
        )
    } else {
        show_matches(ms, cs, all_positions(ms.len()), scope, s)
    }
}

/// How many matches are not shown.
pub open spec fn omitted_note(total: int, shown: int) -> Seq<char> {
    if total > shown {
        "\n\n... and "@ + dec((total - shown) as nat) + " more matches. Narrow with scope."@
    } else {
        Seq::empty()
    }
}

fn push_omitted(out: &mut String, total: usize, shown: usize)
    ensures
        final(out)@ == old(out)@ + omitted_note(total as int, shown as int),
{
    let ghost start = out@;
    if total > shown {
        let mut s = "\n\n... and ".to_owned();
        push_dec(&mut s, total - shown);
        s.append(" more matches. Narrow with scope.");
        out.append(s.as_str());
    } else {
        assert(start + Seq::<char>::empty() =~= start);
    }
}

fn push_facet_heading(out: &mut String, title: &str, n: usize)
    ensures
        final(out)@ == old(out)@ + facet_heading(title@, n as nat),
{
    let mut s = "\n\n### ".to_owned();
    s.append(title);
    s.append(" (");
    push_dec(&mut s, n);
    s.append(")");
    out.append(s.as_str());
}

fn push_facet(
    ms: &[Match],
    cs: &[MatchContext],
    ps: &Vec<usize>,
    title: &str,
    scope: &str,
    st: &mut ExpandState,
    out: &mut String,
)
    requires
        cs@.len() == ms@.len(),
        forall|k: int| 0 <= k < ps@.len() ==> #[trigger] ps@[k] < ms@.len(),
    ensures
        (ShowView { text: final(out)@, state: final(st)@ }) == show_facet(
            found_view(ms@),
            contexts_view(cs@),
            ints(ps@),
            title@,
            scope@,
            ShowView { text: old(out)@, state: old(st)@ },
        ),
{
    assert(ints(ps@).len() == ps@.len());
    if ps.len() > 0 {
        push_facet_heading(out, title, ps.len());
        format_matches(ms, cs, ps.as_slice(), scope, st, out);
    }
}

fn push_tests(ms: &[Match], ps: &Vec<usize>, scope: &str, out: &mut String)
    requires
        forall|k: int| 0 <= k < ps@.len() ==> #[trigger] ps@[k] < ms@.len(),
    ensures
        ints(ps@).len() == 0 ==> final(out)@ == old(out)@,
        ints(ps@).len() > 0 ==> final(out)@ == old(out)@ + facet_heading(
            "Tests"@,
            ints(ps@).len(),
        ) + test_rows(found_view(ms@), ints(ps@), scope@, ps@.len() as int),
{
    let ghost v = found_view(ms@);
    let ghost p = ints(ps@);
    assert(p.len() == ps@.len());
    if ps.len() == 0 {
        return ;
    }
    push_facet_heading(out, "Tests", ps.len());
    let ghost head = out@;
    let mut i: usize = 0;
    assert(head + test_rows(v, p, scope@, 0) =~= head);
    while i < ps.len()
        invariant
            i <= ps@.len(),
            v == found_view(ms@),
            p == ints(ps@),
            forall|k: int| 0 <= k < ps@.len() ==> #[trigger] ps@[k] < ms@.len(),
            out@ == head + test_rows(v, p, scope@, i as int),
        decreases ps@.len() - i,
    {
        let m = &ms[ps[i]];
        assert(p[i as int] == ps@[i as int]);
        assert(v[p[i as int]] == m@);
        let mut s = "\n  ".to_owned();
        s.append(rel(m.path.as_str(), scope).as_str());
        s.append(":");
        push_dec(&mut s, m.line as usize);
        s.append(" — ");
        let t = chars_of(m.text.as_str());
        push_chars(&mut s, trim_of(t.as_slice()));
        out.append(s.as_str());
        assert(out@ =~= head + test_rows(v, p, scope@, i + 1));
        i = i + 1;
    }
}

fn positions_up_to(n: usize) -> (r: Vec<usize>)
    ensures
        ints(r@) == all_positions(n as nat),
        forall|k: int| 0 <= k < r@.len() ==> #[trigger] r@[k] < n,
{
    let mut r: Vec<usize> = Vec::new();
    let mut i: usize = 0;
    while i < n
        invariant
            i <= n,
            r@.len() == i,
            forall|k: int| 0 <= k < i ==> #[trigger] r@[k] == k,
        decreases n - i,
    {
        r.push(i);
        i = i + 1;
    }
    assert(ints(r@) =~= all_positions(n as nat));
    r
}

/// Shows the matches: many of them in groups, few of them one after the other.
pub fn push_result(
    ms: &Vec<Match>,
    cs: &[MatchContext],
    scope: &str,
    manifests: &[String],
    st: &mut ExpandState,
    out: &mut String,
)
    requires
        cs@.len() == ms@.len(),
    ensures
        (ShowView { text: final(out)@, state: final(st)@ }) == show_result(
            found_view(ms@),
            contexts_view(cs@),
            scope@,
            strs(manifests@),
            ShowView { text: old(out)@, state: old(st)@ },
        ),
{
    let ghost v = found_view(ms@);
    let ghost mf = strs(manifests@);
    assert(v.len() == ms@.len());
    if ms.len() > FACET_THRESHOLD {
        let facets = facets_of(ms, manifests);
        let defs = positions_in(&facets, Facet::Definition, Ghost(v), Ghost(mf));
        push_facet(ms.as_slice(), cs, &defs, "Definitions", scope, st, out);
        let impls = positions_in(&facets, Facet::Implementation, Ghost(v), Ghost(mf));
        push_facet(ms.as_slice(), cs, &impls, "Implementations", scope, st, out);
        let tests = positions_in(&facets, Facet::Test, Ghost(v), Ghost(mf));
        push_tests(ms.as_slice(), &tests, scope, out);
        assert(ints(tests@).len() == tests@.len());
        let local = positions_in(&facets, Facet::LocalUsage, Ghost(v), Ghost(mf));
        push_facet(ms.as_slice(), cs, &local, "Usages — same package", scope, st, out);
        let other = positions_in(&facets, Facet::OtherUsage, Ghost(v), Ghost(mf));
        push_facet(ms.as_slice(), cs, &other, "Usages — other", scope, st, out);
    } else {
        let all = positions_up_to(ms.len());
        format_matches(ms.as_slice(), cs, all.as_slice(), scope, st, out);
    }
}

/// What the answer starts with: the heading, and the outline of the file that bears
/// the name of the query.
pub open spec fn result_head(header: Seq<char>, file_outline: Option<Seq<char>>) -> Seq<char> {
    match file_outline {
        Some(o) => header + "\n\n"@ + o,
        None => header,
    }
}

/// The answer without the note on its size, and the state that it leaves.
pub open spec fn result_body(
    header: Seq<char>,
    file_outline: Option<Seq<char>>,
    ms: Seq<MatchView>,
    cs: Seq<ContextView>,
    scope: Seq<char>,
    manifests: Seq<Seq<char>>,
    total: int,
    state: ExpandView,
) -> ShowView {
    let s = show_result(
        ms,
        cs,
        scope,
        manifests,
        ShowView { text: result_head(header, file_outline), state },
    );
    ShowView { text: s.text + omitted_note(total, ms.len() as int), state: s.state }
}

/// The answer to a search. The contexts are those of the matches, in their order.
pub fn format_search_result(
    result: &SearchResult,
    header: &str,
    file_outline: &Option<String>,
    contexts: &[MatchContext],
    manifests: &[String],
    state: &mut ExpandState,
) -> (r: String)
    requires
        contexts@.len() == result.matches@.len(),
    ensures
        ({
            let b = result_body(
                header@,
                opt_text(*file_outline),
                found_view(result.matches@),
                contexts_view(contexts@),
                result.scope@,
                strs(manifests@),
                result.total_found as int,
                old(state)@,
            );
            r@ == b.text + "\n\n"@ + token_note(b.text) && final(state)@ == b.state
        }),
{
    let mut out = header.to_owned();
    if let Some(o) = file_outline {
        out.append("\n\n");
        out.append(o.as_str());
    }
    push_result(
        &result.matches,
        contexts,
        result.scope.as_str(),
        manifests,
        state,
        &mut out,
    );
    assert(found_view(result.matches@).len() == result.matches@.len());
    push_omitted(&mut out, result.total_found, result.matches.len());
    let body = out.clone();
    out.append("\n\n");
    push_token_note(&mut out, body.as_str());
    out
}

/// How many matches of several queries are shown with their source: at least one for
/// each query, unless none are to be.
pub open spec fn shared_budget(expand: nat, queries: nat) -> nat {
    if expand == 0 {
        0
    } else if expand < queries {
        queries
    } else {
        expand
    }
}

/// How many matches of several queries are shown with their source.
pub fn shared_expand_budget(expand: usize, queries: usize) -> (r: usize)
    ensures
        r == shared_budget(expand as nat, queries as nat),
{
    if expand == 0 {
        0
    } else if expand < queries {
        queries
    } else {
        expand
    }
}

/// The answer to one of several queries, and the state that it leaves.
pub open spec fn section_body(
    header: Seq<char>,
    ms: Seq<MatchView>,
    cs: Seq<ContextView>,
    scope: Seq<char>,
    total: int,
    state: ExpandView,
) -> ShowView {
    let s = show_matches(
        ms,
        cs,
        all_positions(ms.len()),
        scope,
        ShowView { text: header, state },
    );
    ShowView { text: s.text + omitted_note(total, ms.len() as int), state: s.state }
}

/// The answer to one of several queries. The budget and what was shown carry over
/// from one query to the next.
pub fn format_query_section(
    result: &SearchResult,
    header: &str,
    contexts: &[MatchContext],
    state: &mut ExpandState,
) -> (r: String)
    requires
        contexts@.len() == result.matches@.len(),
    ensures
        ({
            let b = section_body(
                header@,
                found_view(result.matches@),
                contexts_view(contexts@),
                result.scope@,
                result.total_found as int,
                old(state)@,
            );
            r@ == b.text && final(state)@ == b.state
        }),
{
    let mut out = header.to_owned();
    let all = positions_up_to(result.matches.len());
    assert(found_view(result.matches@).len() == result.matches@.len());
    format_matches(
        result.matches.as_slice(),
        contexts,
        all.as_slice(),
        result.scope.as_str(),
        state,
        &mut out,
    );
    push_omitted(&mut out, result.total_found, result.matches.len());
    out
}

/// The answers to several queries as one.
pub fn join_sections(sections: &[String]) -> (r: String)
    ensures
        r@ == join(strs(sections@), "\n\n---\n"@),
{
    join_strings(sections, "\n\n---\n")
}

// ---------------------------------------------------------------------------
// Which search
// ---------------------------------------------------------------------------

/// A search: for a symbol, for a text or for a pattern.
#[derive(Debug)]
pub enum SearchRequest {
    /// The words that the pattern stands for, and the definitions of the symbol.
    Symbol { query: String, pattern: String },
    /// The lines that hold the text.
    Content(String),
    /// The lines that the pattern matches.
    Regex(String),
}

/// What a request asks for.
pub enum RequestView {
    Symbol { query: Seq<char>, pattern: Seq<char> },
    Content(Seq<char>),
    Regex(Seq<char>),
}

impl View for SearchRequest {
    type V = RequestView;

    open spec fn view(&self) -> RequestView {
        match self {
            SearchRequest::Symbol { query, pattern } => RequestView::Symbol {
                query: query@,
                pattern: pattern@,
            },
            SearchRequest::Content(q) => RequestView::Content(q@),
            SearchRequest::Regex(p) => RequestView::Regex(p@),
        }
    }
}

/// The search for a symbol.
pub fn search_symbol_raw(query: &str) -> (r: SearchRequest)
    ensures
        r@ == (RequestView::Symbol {
            query: query@,
            pattern: "\\b"@ + escaped(query@) + "\\b"@,
        }),
{
    SearchRequest::Symbol { query: query.to_owned(), pattern: word_pattern(query) }
}

/// The search for a text, or for a pattern between slashes.
pub fn search_content_raw(query: &str) -> (r: SearchRequest)
    ensures
        r@ == (if pattern_of(query@).1 {
            RequestView::Regex(pattern_of(query@).0)
        } else {
            RequestView::Content(query@)
        }),
{
    let (pattern, is_regex) = parse_pattern(query);
    if is_regex {
        SearchRequest::Regex(pattern)
    } else {
        SearchRequest::Content(pattern)
    }
}

/// The search for a pattern.
pub fn search_regex_raw(pattern: &str) -> (r: SearchRequest)
    ensures
        r@ == RequestView::Regex(pattern@),
{
    SearchRequest::Regex(pattern.to_owned())
}

/// The pattern that a search goes by: a text stands for itself.
pub open spec fn pattern_for(r: RequestView) -> Seq<char> {
    match r {
        RequestView::Symbol { query: _, pattern } => pattern,
        RequestView::Content(q) => escaped(q),
        RequestView::Regex(p) => p,
    }
}

/// The pattern that a search goes by.
pub fn request_pattern(request: &SearchRequest) -> (r: String)
    ensures
        r@ == pattern_for(request@),
{
    match request {
        SearchRequest::Symbol { query: _, pattern } => pattern.clone(),
        SearchRequest::Content(q) => escape(q.as_str()),
        SearchRequest::Regex(p) => p.clone(),
    }
}

// ---------------------------------------------------------------------------
// Files
// ---------------------------------------------------------------------------

/// A file that a glob found, with a line on what it holds.
#[derive(Debug)]
pub struct GlobFile {
    pub path: String,
    pub preview: Option<String>,
}

/// What a glob found.
#[derive(Debug)]
pub struct GlobResult {
    pub pattern: String,
    pub files: Vec<GlobFile>,
    pub total_found: usize,
    pub available_extensions: Vec<String>,
}

/// The lines of the first `n` files.
pub open spec fn file_rows(files: Seq<GlobFile>, scope: Seq<char>, n: int) -> Seq<char>
    decreases n,
{
    if n <= 0 {
        Seq::empty()
    } else {
        file_rows(files, scope, n - 1) + "\n  "@ + shown(files[n - 1].path@, scope) + (
        match files[n - 1].preview {
            Some(p) => "  ("@ + p@ + ")"@,
            None => Seq::empty(),
        })
    }
}

/// The files that a glob found.
pub open spec fn glob_text(r: GlobResult, scope: Seq<char>) -> Seq<char> {
    "# Glob: \""@ + r.pattern@ + "\" in "@ + scope + " — "@ + dec(r.files@.len()) + " files"@ + file_rows(
        r.files@,
        scope,
        r.files@.len() as int,
    ) + (if r.total_found > r.files@.len() {
        "\n\n... and "@ + dec((r.total_found - r.files@.len()) as nat)
            + " more files. Narrow with scope."@
    } else {
        Seq::empty()
    }) + (if r.files@.len() == 0 && r.available_extensions@.len() > 0 {
        "\n\nNo matches. Available extensions in scope: "@ + join(
            strs(r.available_extensions@),
            ", "@,
        )
    } else {
        Seq::empty()
    })
}

/// The files that a glob found.
pub fn format_glob_result(result: &GlobResult, scope: &str) -> (r: String)
    ensures
        r@ == glob_text(*result, scope@),
{
    let mut out = "# Glob: \"".to_owned();
    out.append(result.pattern.as_str());
    out.append("\" in ");
    out.append(scope);
    out.append(" — ");
    push_dec(&mut out, result.files.len());
    out.append(" files");
    let ghost head = out@;
    let ghost f = result.files@;
    let mut i: usize = 0;
    assert(head + file_rows(f, scope@, 0) =~= head);
    while i < result.files.len()
        invariant
            i <= result.files@.len(),
            f == result.files@,
            out@ == head + file_rows(f, scope@, i as int),
        decreases result.files@.len() - i,
    {
        let x = &result.files[i];
        let ghost before = out@;
        out.append("\n  ");
        out.append(rel(x.path.as_str(), scope).as_str());
        if let Some(p) = &x.preview {
            out.append("  (");
            out.append(p.as_str());
            out.append(")");
        }
        assert(out@ =~= head + file_rows(f, scope@, i + 1));
        i = i + 1;
    }
    let ghost rows = out@;
    let n: usize = result.files.len();
    if result.total_found > n {
        out.append("\n\n... and ");
        push_dec(&mut out, result.total_found - n);
        out.append(" more files. Narrow with scope.");
        assert(out@ =~= rows + ("\n\n... and "@ + dec((result.total_found - n) as nat)
            + " more files. Narrow with scope."@));
    } else {
        assert(out@ =~= rows + Seq::<char>::empty());
    }
    let ghost noted = out@;
    if n == 0 && result.available_extensions.len() > 0 {
        out.append("\n\nNo matches. Available extensions in scope: ");
        out.append(join_strings(result.available_extensions.as_slice(), ", ").as_str());
        assert(out@ =~= noted + ("\n\nNo matches. Available extensions in scope: "@ + join(
            strs(result.available_extensions@),
            ", "@,
        )));
    } else {
        assert(out@ =~= noted + Seq::<char>::empty());
    }
    out
}

/// The best match is a file that bears the name. Where a file of code does, it is one of
/// code, and no other is more likely source.
pub proof fn law_best_match_is_most_likely_source(
    ms: Seq<MatchView>,
    query_lower: Seq<char>,
    n: int,
    k: int,
)
    requires
        0 <= k < n <= ms.len(),
        bears_name(ms[k].path, query_lower),
    ensures
        best_match(ms, query_lower, n).path matches Some(p) && bears_name(p, query_lower) && (
        code_extension(extension_or_none(ms[k].path)) ==> code_extension(extension_or_none(p))
            && extension_priority(extension_or_none(p)) >= extension_priority(
            extension_or_none(ms[k].path),
        )),
    decreases n,
{
    lemma_best_match(ms, query_lower, n);
    if k < n - 1 {
        law_best_match_is_most_likely_source(ms, query_lower, n - 1, k);
        lemma_best_match(ms, query_lower, n - 1);
    }
}

proof fn lemma_best_match(ms: Seq<MatchView>, query_lower: Seq<char>, n: int)
    requires
        0 <= n <= ms.len(),
    ensures
        match best_match(ms, query_lower, n).path {
            Some(p) => bears_name(p, query_lower) && (if code_extension(extension_or_none(p)) {
                best_match(ms, query_lower, n).priority == extension_priority(extension_or_none(p))
            } else {
                best_match(ms, query_lower, n).priority == 0
            }),
            None => best_match(ms, query_lower, n).priority == 0,
        },
    decreases n,
{
    if n > 0 {
        lemma_best_match(ms, query_lower, n - 1);
    }
}

/// The best match is one of the matches: no file before it is as likely source.
pub proof fn law_best_match_is_the_first(ms: Seq<MatchView>, query_lower: Seq<char>, n: int) -> (k:
    int)
    requires
        0 <= n <= ms.len(),
        best_match(ms, query_lower, n).path is Some,
    ensures
        0 <= k < n,
        best_match(ms, query_lower, n).path == Some(ms[k].path),
        forall|j: int|
            0 <= j < k && bears_name((#[trigger] ms[j]).path, query_lower) ==> code_extension(
                extension_or_none(ms[k].path),
            ) && (code_extension(extension_or_none(ms[j].path)) ==> extension_priority(
                extension_or_none(ms[j].path),
            ) < extension_priority(extension_or_none(ms[k].path))),
    decreases n,
{
    lemma_best_match(ms, query_lower, n - 1);
    if best_match(ms, query_lower, n) == best_match(ms, query_lower, n - 1) {
        law_best_match_is_the_first(ms, query_lower, n - 1)
    } else {
        assert forall|j: int|
            0 <= j < n - 1 && bears_name((#[trigger] ms[j]).path, query_lower) implies code_extension(
            extension_or_none(ms[n - 1].path),
        ) && (code_extension(extension_or_none(ms[j].path)) ==> extension_priority(
            extension_or_none(ms[j].path),
        ) < extension_priority(extension_or_none(ms[n - 1].path))) by {
            law_best_match_is_most_likely_source(ms, query_lower, n - 1, j);
        }
        n - 1
    }
}

/// The best of the files is the first of those that bear the name and are most likely
/// source; there is one wherever a file bears the name.
pub proof fn law_best_file_is_most_likely_source(
    paths: Seq<Seq<char>>,
    query_lower: Seq<char>,
    n: int,
)
    requires
        0 <= n <= paths.len(),
    ensures
        match best_file(paths, query_lower, n).path {
            Some(p) => exists|k: int|
                0 <= k < n && #[trigger] paths[k] == p && bears_name(p, query_lower) && best_file(
                    paths,
                    query_lower,
                    n,
                ).priority == extension_priority(extension_or_none(p)) && forall|j: int|
                    0 <= j < n && bears_name(#[trigger] paths[j], query_lower) ==> {
                        &&& extension_priority(extension_or_none(paths[j])) <= extension_priority(
                            extension_or_none(p),
                        )
                        &&& j < k ==> extension_priority(extension_or_none(paths[j]))
                            < extension_priority(extension_or_none(p))
                    },
            None => best_file(paths, query_lower, n).priority == 0 && forall|j: int|
                0 <= j < n ==> !bears_name(#[trigger] paths[j], query_lower),
        },
    decreases n,
{
    if n > 0 {
        law_best_file_is_most_likely_source(paths, query_lower, n - 1);
        let q = best_file(paths, query_lower, n - 1);
        let b = best_file(paths, query_lower, n);
        match q.path {
            Some(p) => {
                let k = choose|k: int|
                    0 <= k < n - 1 && #[trigger] paths[k] == p && forall|j: int|
                        0 <= j < n - 1 && bears_name(#[trigger] paths[j], query_lower) ==> {
                            &&& extension_priority(extension_or_none(paths[j]))
                                <= extension_priority(extension_or_none(p))
                            &&& j < k ==> extension_priority(extension_or_none(paths[j]))
                                < extension_priority(extension_or_none(p))
                        };
                if b.path == q.path && b.priority == q.priority {
                    assert(paths[k] == p);
                } else {
                    assert(paths[n - 1] == b.path->Some_0);
                }
            },
            None => {
                if bears_name(paths[n - 1], query_lower) {
                    assert(paths[n - 1] == b.path->Some_0);
                }
            },
        }
    }
}

/// The line that shows a test.
spec fn test_row(m: MatchView, scope: Seq<char>) -> Seq<char> {
    "\n  "@ + shown(m.path, scope) + ":"@ + dec(m.line as nat) + " — "@ + trim(m.text)
}

proof fn lemma_six_together(
    m: Seq<char>,
    a: Seq<char>,
    b: Seq<char>,
    c: Seq<char>,
    d: Seq<char>,
    e: Seq<char>,
    f: Seq<char>,
)
    ensures
        m + a + b + c + d + e + f == m + (a + b + c + d + e + f),
{
    assert(m + a + b + c + d + e + f =~= m + (a + b + c + d + e + f));
}

/// Every test is shown on a line with its place and its text.
pub proof fn law_every_test_is_shown(
    ms: Seq<MatchView>,
    ps: Seq<int>,
    scope: Seq<char>,
    n: int,
    i: int,
)
    requires
        0 <= i < n <= ps.len(),
    ensures
        has(
            test_rows(ms, ps, scope, n),
            "\n  "@ + shown(ms[ps[i]].path, scope) + ":"@ + dec(ms[ps[i]].line as nat) + " — "@
                + trim(ms[ps[i]].text),
        ),
    decreases n,
{
    let m = ms[ps[n - 1]];
    let q = test_rows(ms, ps, scope, n - 1);
    let own = test_row(m, scope);
    lemma_six_together(
        q,
        "\n  "@,
        shown(m.path, scope),
        ":"@,
        dec(m.line as nat),
        " — "@,
        trim(m.text),
    );
    assert(test_rows(ms, ps, scope, n) == q + own);
    if i < n - 1 {
        law_every_test_is_shown(ms, ps, scope, n - 1, i);
        crate::text::lemma_has_left(q, own, test_row(ms[ps[i]], scope));
    } else {
        crate::text::lemma_has_self(own);
        crate::text::lemma_has_right(q, own, own);
    }
}

proof fn lemma_groups_grow(
    ms: Seq<MatchView>,
    cs: Seq<ContextView>,
    groups: Seq<Seq<int>>,
    scope: Seq<char>,
    multi_file: bool,
    s: ShowView,
    n: int,
    p: Seq<char>,
)
    requires
        has(s.text, p),
    ensures
        has(super::format::show_groups(ms, cs, groups, scope, multi_file, s, n).text, p),
    decreases n,
{
    if n > 0 {
        lemma_groups_grow(ms, cs, groups, scope, multi_file, s, n - 1, p);
        let q = super::format::show_groups(ms, cs, groups, scope, multi_file, s, n - 1);
        let g = groups[n - 1];
        if g.len() == 1 {
            crate::text::lemma_has_left(
                q.text,
                super::format::single_text(ms[g[0]], cs[g[0]], scope, multi_file, q.state),
                p,
            );
        } else {
            crate::text::lemma_has_left(
                q.text,
                super::format::group_text(ms, cs, g, scope),
                p,
            );
        }
    }
}

proof fn lemma_facet_grows(
    ms: Seq<MatchView>,
    cs: Seq<ContextView>,
    ps: Seq<int>,
    title: Seq<char>,
    scope: Seq<char>,
    s: ShowView,
    p: Seq<char>,
)
    ensures
        has(s.text, p) ==> has(show_facet(ms, cs, ps, title, scope, s).text, p),
        ps.len() > 0 ==> has(
            show_facet(ms, cs, ps, title, scope, s).text,
            facet_heading(title, ps.len()),
        ),
{
    if ps.len() > 0 {
        let h = facet_heading(title, ps.len());
        let t = ShowView { text: s.text + h, state: s.state };
        let g = super::format::match_groups(ms, cs, ps, ps.len() as int);
        let multi = super::format::in_several_files(ms, ps);
        if has(s.text, p) {
            crate::text::lemma_has_left(s.text, h, p);
            lemma_groups_grow(ms, cs, g, scope, multi, t, g.len() as int, p);
        }
        crate::text::lemma_has_self(h);
        crate::text::lemma_has_right(s.text, h, h);
        lemma_groups_grow(ms, cs, g, scope, multi, t, g.len() as int, h);
    }
}

proof fn lemma_tests_grow(
    ms: Seq<MatchView>,
    ps: Seq<int>,
    scope: Seq<char>,
    s: ShowView,
    p: Seq<char>,
)
    ensures
        has(s.text, p) ==> has(show_tests(ms, ps, scope, s).text, p),
        ps.len() > 0 ==> has(show_tests(ms, ps, scope, s).text, facet_heading("Tests"@, ps.len())),
        ps.len() > 0 && has(test_rows(ms, ps, scope, ps.len() as int), p) ==> has(
            show_tests(ms, ps, scope, s).text,
            p,
        ),
{
    if ps.len() > 0 {
        let h = facet_heading("Tests"@, ps.len());
        let r = test_rows(ms, ps, scope, ps.len() as int);
        crate::text::lemma_has_self(h);
        crate::text::lemma_has_right(s.text, h, h);
        crate::text::lemma_has_left(s.text + h, r, h);
        if has(s.text, p) {
            crate::text::lemma_has_left(s.text, h, p);
            crate::text::lemma_has_left(s.text + h, r, p);
        }
        if has(r, p) {
            crate::text::lemma_has_right(s.text + h, r, p);
        }
    }
}

/// Where there are more than five matches, each group that has members is shown under
/// its heading with their number, and every test on a line of its own.
pub proof fn law_every_group_has_its_heading(
    ms: Seq<MatchView>,
    cs: Seq<ContextView>,
    scope: Seq<char>,
    manifests: Seq<Seq<char>>,
    s: ShowView,
    f: Facet,
)
    requires
        ms.len() > 5,
        facet_positions(ms, f, manifests).len() > 0,
    ensures
        has(
            show_result(ms, cs, scope, manifests, s).text,
            "\n\n### "@ + (match f {
                Facet::Definition => "Definitions"@,
                Facet::Implementation => "Implementations"@,
                Facet::Test => "Tests"@,
                Facet::LocalUsage => "Usages — same package"@,
                Facet::OtherUsage => "Usages — other"@,
            }) + " ("@ + dec(facet_positions(ms, f, manifests).len()) + ")"@,
        ),
        f == Facet::Test ==> forall|i: int|
            0 <= i < facet_positions(ms, f, manifests).len() ==> has(
                show_result(ms, cs, scope, manifests, s).text,
                "\n  "@ + shown(
                    ms[#[trigger] facet_positions(ms, f, manifests)[i]].path,
                    scope,
                ) + ":"@ + dec(ms[facet_positions(ms, f, manifests)[i]].line as nat) + " — "@ + trim(
                    ms[facet_positions(ms, f, manifests)[i]].text,
                ),
            ),
{
    let d = facet_positions(ms, Facet::Definition, manifests);
    let m = facet_positions(ms, Facet::Implementation, manifests);
    let t = facet_positions(ms, Facet::Test, manifests);
    let l = facet_positions(ms, Facet::LocalUsage, manifests);
    let o = facet_positions(ms, Facet::OtherUsage, manifests);
    let s1 = show_facet(ms, cs, d, "Definitions"@, scope, s);
    let s2 = show_facet(ms, cs, m, "Implementations"@, scope, s1);
    let s3 = show_tests(ms, t, scope, s2);
    let s4 = show_facet(ms, cs, l, "Usages — same package"@, scope, s3);
    let title = match f {
        Facet::Definition => "Definitions"@,
        Facet::Implementation => "Implementations"@,
        Facet::Test => "Tests"@,
        Facet::LocalUsage => "Usages — same package"@,
        Facet::OtherUsage => "Usages — other"@,
    };
    let h = facet_heading(title, facet_positions(ms, f, manifests).len());
    lemma_facet_grows(ms, cs, d, "Definitions"@, scope, s, h);
    lemma_facet_grows(ms, cs, m, "Implementations"@, scope, s1, h);
    lemma_tests_grow(ms, t, scope, s2, h);
    lemma_facet_grows(ms, cs, l, "Usages — same package"@, scope, s3, h);
    lemma_facet_grows(ms, cs, o, "Usages — other"@, scope, s4, h);
    if f == Facet::Test {
        assert forall|i: int| 0 <= i < t.len() implies has(
            show_result(ms, cs, scope, manifests, s).text,
            test_row(ms[#[trigger] t[i]], scope),
        ) by {
            let row = test_row(ms[t[i]], scope);
            law_every_test_is_shown(ms, t, scope, t.len() as int, i);
            lemma_tests_grow(ms, t, scope, s2, row);
            lemma_facet_grows(ms, cs, l, "Usages — same package"@, scope, s3, row);
            lemma_facet_grows(ms, cs, o, "Usages — other"@, scope, s4, row);
        }
    }
}

/// Every file that a glob found is shown.
pub proof fn law_every_file_is_shown(files: Seq<GlobFile>, scope: Seq<char>, n: int, i: int)
    requires
        0 <= i < n <= files.len(),
    ensures
        has(file_rows(files, scope, n), "\n  "@ + shown(files[i].path@, scope)),
    decreases n,
{
    let q = file_rows(files, scope, n - 1);
    let x = files[n - 1];
    let note = match x.preview {
        Some(p) => "  ("@ + p@ + ")"@,
        None => Seq::empty(),
    };
    let own = "\n  "@ + shown(x.path@, scope);
    let piece = "\n  "@ + shown(files[i].path@, scope);
    crate::text::lemma_two_together(q, "\n  "@, shown(x.path@, scope));
    assert(file_rows(files, scope, n) == q + own + note);
    if i < n - 1 {
        law_every_file_is_shown(files, scope, n - 1, i);
        crate::text::lemma_has_left(q, own, piece);
    } else {
        crate::text::lemma_has_self(own);
        crate::text::lemma_has_right(q, own, own);
    }
    crate::text::lemma_has_left(q + own, note, piece);
}

/// The budget that several queries share is enough for one match of each, and no less
/// than what was asked for; nothing is shown where nothing was asked for.
pub proof fn law_shared_budget_is_enough(expand: nat, queries: nat)
    ensures
        expand == 0 ==> shared_budget(expand, queries) == 0,
        expand > 0 ==> shared_budget(expand, queries) >= expand && shared_budget(expand, queries)
            >= queries,
        shared_budget(expand, queries) == expand || shared_budget(expand, queries) == queries,
{
}

} // verus!
