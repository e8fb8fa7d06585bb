//! Finding the definitions and the usages of a symbol in a file.
use vstd::prelude::*;
use vstd::slice::slice_subrange;
use vstd::string::*;
use vstd::utf8::*;

use crate::lang::outline::{grammar_of, line_number, line_of_row, nodes_in, parse_content};
use crate::lang::treesitter::{
    definition_name, definition_weight, extract_definition_name, extract_impl_trait, extract_impl_type,
    extract_implemented_interfaces, field_line, interfaces, is_definition, is_definition_kind, weight,
};
use crate::lang::{detect_file_type, file_type};
use crate::paths::{equal_paths, same_path};
use crate::syntax::{children, shape, NodeRecord, NodeView};
use crate::text::{
    chars_of, has, has_prefix, has_string, has_text, lines, lines_of, opt_text, same_text, string_of, strs,
    trim, trim_end, trim_end_of, trim_of, views,
};
use crate::types::{found_view, lemma_found_push, FileType, Lang, Match, MatchView, SearchResult};

use super::io::{
    bytes_at, candidate_file, decode, find_bytes, hit_mask, is_candidate, looks_minified, minified_content,
    scan_mask, scan_possible, searched_text, text_to_search, MINIFIED_CHECK_THRESHOLD,
};

verus! {

/// A file whose definitions are listed.
pub struct FileFacts {
    pub path: String,
    pub file_lines: u32,
    pub mtime: u64,
}

/// What is known of a file.
pub struct FactsView {
    pub path: Seq<char>,
    pub file_lines: u32,
    pub mtime: u64,
}

impl View for FileFacts {
    type V = FactsView;

    open spec fn view(&self) -> FactsView {
        FactsView { path: self.path@, file_lines: self.file_lines, mtime: self.mtime }
    }
}

// ---------------------------------------------------------------------------
// Definitions in a syntax tree
// ---------------------------------------------------------------------------

/// The line that a row holds, without white space at its end.
pub open spec fn row_text(lines: Seq<Seq<char>>, row: int) -> Seq<char> {
    if 0 <= row < lines.len() {
        trim_end(lines[row])
    } else {
        trim_end(Seq::empty())
    }
}

/// The match of a definition at a node.
pub open spec fn node_match(
    n: NodeView,
    lines: Seq<Seq<char>>,
    f: FactsView,
    name: Seq<char>,
    weight: u16,
    target: Option<Seq<char>>,
) -> MatchView {
    MatchView {
        path: f.path,
        line: line_number(n.start_row),
        text: row_text(lines, n.start_row),
        is_definition: true,
        exact: true,
        file_lines: f.file_lines,
        mtime: f.mtime,
        def_range: Some((line_number(n.start_row), line_number(n.end_row))),
        def_name: Some(name),
        def_weight: weight,
        impl_target: target,
    }
}

/// The match of a node that defines the symbol itself.
pub open spec fn own_match(
    t: Seq<NodeView>,
    lines: Seq<Seq<char>>,
    f: FactsView,
    query: Seq<char>,
    i: int,
) -> Seq<MatchView> {
    if definition_name(t, lines, i) == Some(query) {
        seq![node_match(t[i], lines, f, query, weight(t[i].kind), None)]
    } else {
        Seq::empty()
    }
}

/// The match of a node that implements the symbol: a Rust implementation of the
/// trait, or a class that implements the interface.
pub open spec fn impl_match(
    t: Seq<NodeView>,
    lines: Seq<Seq<char>>,
    f: FactsView,
    query: Seq<char>,
    i: int,
) -> Seq<MatchView> {
    let kind = t[i].kind;
    let kids = children(t, i);
    if kind == "impl_item"@ {
        if field_line(t, lines, i, "trait"@) == Some(query) {
            let impl_type = match field_line(t, lines, i, "type"@) {
                Some(n) => n,
                None => "<unknown>"@,
            };
            seq![
                node_match(
                    t[i],
                    lines,
                    f,
                    "impl "@ + query + " for "@ + impl_type,
                    80,
                    Some(query),
                ),
            ]
        } else {
            Seq::empty()
        }
    } else if kind == "class_declaration"@ || kind == "class_definition"@ {
        if interfaces(t, lines, kids, kids.len() as int).contains(query) {
            let name = match definition_name(t, lines, i) {
                Some(n) => n,
                None => "<anonymous>"@,
            };
            seq![node_match(t[i], lines, f, name + " implements "@ + query, 80, Some(query))]
        } else {
            Seq::empty()
        }
    } else {
        Seq::empty()
    }
}

/// How deep definitions are looked for.
pub const MAX_DEFINITION_DEPTH: usize = 3;

/// The matches among the first `n` nodes: definitions that are not too deep.
pub open spec fn tree_matches(
    t: Seq<NodeView>,
    lines: Seq<Seq<char>>,
    f: FactsView,
    query: Seq<char>,
    n: int,
) -> Seq<MatchView>
    decreases n,
{
    if n <= 0 {
        Seq::empty()
    } else {
        let r = tree_matches(t, lines, f, query, n - 1);
        let i = n - 1;
        if t[i].depth <= MAX_DEFINITION_DEPTH && is_definition(t[i].kind) {
            r + own_match(t, lines, f, query, i) + impl_match(t, lines, f, query, i)
        } else {
            r
        }
    }
}

fn make_match(
    n: &NodeRecord,
    lines: &[&[char]],
    f: &FileFacts,
    name: String,
    def_weight: u16,
    target: Option<String>,
) -> (r: Match)
    ensures
        r@ == node_match(n@, views(lines@), f@, name@, def_weight, opt_text(target)),
{
    let empty: &[char] = &[];
    assert(empty@ =~= Seq::<char>::empty());
    let text = if n.start_row < lines.len() {
        assert(views(lines@)[n.start_row as int] == lines@[n.start_row as int]@);
        trim_end_of(lines[n.start_row])
    } else {
        trim_end_of(empty)
    };
    Match {
        path: f.path.clone(),
        line: line_of_row(n.start_row),
        text: string_of(text),
        is_definition: true,
        exact: true,
        file_lines: f.file_lines,
        mtime: f.mtime,
        def_range: Some((line_of_row(n.start_row), line_of_row(n.end_row))),
        def_name: Some(name),
        def_weight,
        impl_target: target,
    }
}

/// Adds the match of a node that defines the symbol itself.
fn push_own(
    nodes: &[NodeRecord],
    i: usize,
    lines: &[&[char]],
    f: &FileFacts,
    query: &str,
    out: &mut Vec<Match>,
)
    requires
        i < nodes@.len(),
    ensures
        found_view(final(out)@) == found_view(old(out)@) + own_match(
            shape(nodes@),
            views(lines@),
            f@,
            query@,
            i as int,
        ),
{
    broadcast use lemma_found_push;

    let ghost start = found_view(out@);
    assert(shape(nodes@)[i as int] == nodes@[i as int]@);
    if let Some(name) = extract_definition_name(nodes, i, lines) {
        if same_text(name.as_str(), query) {
            let w: u16 = definition_weight(nodes[i].kind.as_str());
            let m = make_match(&nodes[i], lines, f, query.to_owned(), w, None);
            let ghost mv = m@;
            out.push(m);
            assert(found_view(out@) =~= start + seq![mv]);
            return ;
        }
    }
    assert(start + Seq::<MatchView>::empty() =~= start);
}

/// Adds the match of a node that implements the symbol.
fn push_impl(
    nodes: &[NodeRecord],
    i: usize,
    lines: &[&[char]],
    f: &FileFacts,
    query: &str,
    out: &mut Vec<Match>,
)
    requires
        i < nodes@.len(),
    ensures
        found_view(final(out)@) == found_view(old(out)@) + impl_match(
            shape(nodes@),
            views(lines@),
            f@,
            query@,
            i as int,
        ),
{
    broadcast use lemma_found_push;

    let ghost start = found_view(out@);
    assert(shape(nodes@)[i as int] == nodes@[i as int]@);
    let kind = nodes[i].kind.as_str();
    if same_text(kind, "impl_item") {
        if let Some(trait_name) = extract_impl_trait(nodes, i, lines) {
            if same_text(trait_name.as_str(), query) {
                let impl_type = match extract_impl_type(nodes, i, lines) {
                    Some(n) => n,
                    None => "<unknown>".to_owned(),
                };
                let mut name = "impl ".to_owned();
                name.append(query);
                name.append(" for ");
                name.append(impl_type.as_str());
                let m = make_match(&nodes[i], lines, f, name, 80, Some(query.to_owned()));
                let ghost mv = m@;
                out.push(m);
                assert(found_view(out@) =~= start + seq![mv]);
                return ;
            }
        }
    } else if same_text(kind, "class_declaration") || same_text(kind, "class_definition") {
        let found = extract_implemented_interfaces(nodes, i, lines);
        if has_string(found.as_slice(), query) {
            let mut name = match extract_definition_name(nodes, i, lines) {
                Some(n) => n,
                None => "<anonymous>".to_owned(),
            };
            name.append(" implements ");
            name.append(query);
            let m = make_match(&nodes[i], lines, f, name, 80, Some(query.to_owned()));
            let ghost mv = m@;
            out.push(m);
            assert(found_view(out@) =~= start + seq![mv]);
            return ;
        }
    }
    assert(start + Seq::<MatchView>::empty() =~= start);
}

/// Adds the matches of the definitions that are not too deep.
fn walk_for_definitions(
    nodes: &[NodeRecord],
    query: &str,
    f: &FileFacts,
    lines: &[&[char]],
    out: &mut Vec<Match>,
)
    ensures
        found_view(final(out)@) == found_view(old(out)@) + tree_matches(
            shape(nodes@),
            views(lines@),
            f@,
            query@,
            nodes@.len() as int,
        ),
{
    let ghost t = shape(nodes@);
    let ghost l = views(lines@);
    let ghost start = found_view(out@);
    let mut i: usize = 0;
    assert(start + tree_matches(t, l, f@, query@, 0) =~= start);
    while i < nodes.len()
        invariant
            i <= nodes@.len(),
            t == shape(nodes@),
            l == views(lines@),
            found_view(out@) == start + tree_matches(t, l, f@, query@, i as int),
        decreases nodes@.len() - i,
    {
        assert(t[i as int] == nodes@[i as int]@);
        if nodes[i].depth <= MAX_DEFINITION_DEPTH && is_definition_kind(nodes[i].kind.as_str()) {
            let ghost before = tree_matches(t, l, f@, query@, i as int);
            push_own(nodes, i, lines, f, query, out);
            push_impl(nodes, i, lines, f, query, out);
            assert(found_view(out@) =~= start + (before + own_match(t, l, f@, query@, i as int)
                + impl_match(t, l, f@, query@, i as int)));
        }
        i = i + 1;
    }
}

/// The definitions of the symbol in the syntax tree of the content.
pub open spec fn defs_in_tree(content: Seq<char>, lang: Lang, f: FactsView, query: Seq<char>) -> Seq<
    MatchView,
> {
    match nodes_in(content, lang) {
        Some(t) => tree_matches(t, lines(content), f, query, t.len() as int),
        None => Seq::empty(),
    }
}

/// The definitions of the symbol in the syntax tree of the content.
pub fn find_defs_treesitter(f: &FileFacts, query: &str, content: &str, lang: Lang) -> (r: Vec<Match>)
    ensures
        found_view(r@) == defs_in_tree(content@, lang, f@, query@),
{
    let mut out: Vec<Match> = Vec::new();
    assert(found_view(out@) =~= Seq::<MatchView>::empty());
    if let Some(nodes) = parse_content(content, lang) {
        let text = chars_of(content);
        let lines = lines_of(text.as_slice());
        walk_for_definitions(nodes.as_slice(), query, f, lines.as_slice(), &mut out);
        assert(found_view(out@) =~= defs_in_tree(content@, lang, f@, query@));
    }
    out
}

// ---------------------------------------------------------------------------
// Definitions by keyword
// ---------------------------------------------------------------------------

/// The line starts with a keyword of a definition.
pub open spec fn definition_line(line: Seq<char>) -> bool {
    let s = trim(line);
    ||| "fn "@.is_prefix_of(s)
    ||| "pub fn "@.is_prefix_of(s)
    ||| "pub(crate) fn "@.is_prefix_of(s)
    ||| "async fn "@.is_prefix_of(s)
    ||| "pub async fn "@.is_prefix_of(s)
    ||| "function "@.is_prefix_of(s)
    ||| "export function "@.is_prefix_of(s)
    ||| "export default function "@.is_prefix_of(s)
    ||| "export async function "@.is_prefix_of(s)
    ||| "async function "@.is_prefix_of(s)
    ||| "const "@.is_prefix_of(s)
    ||| "export const "@.is_prefix_of(s)
    ||| "let "@.is_prefix_of(s)
    ||| "export let "@.is_prefix_of(s)
    ||| "var "@.is_prefix_of(s)
    ||| "export var "@.is_prefix_of(s)
    ||| "class "@.is_prefix_of(s)
    ||| "export class "@.is_prefix_of(s)
    ||| "interface "@.is_prefix_of(s)
    ||| "export interface "@.is_prefix_of(s)
    ||| "type "@.is_prefix_of(s)
    ||| "export type "@.is_prefix_of(s)
    ||| "struct "@.is_prefix_of(s)
    ||| "pub struct "@.is_prefix_of(s)
    ||| "enum "@.is_prefix_of(s)
    ||| "pub enum "@.is_prefix_of(s)
    ||| "trait "@.is_prefix_of(s)
    ||| "pub trait "@.is_prefix_of(s)
    ||| "impl "@.is_prefix_of(s)
    ||| "def "@.is_prefix_of(s)
    ||| "async def "@.is_prefix_of(s)
    ||| "func "@.is_prefix_of(s)
}

/// Whether the line starts with a keyword of a definition.
pub fn is_definition_line(line: &[char]) -> (r: bool)
    ensures
        r == definition_line(line@),
{
    let s = trim_of(line);
    has_prefix(s, "fn ") || has_prefix(s, "pub fn ") || has_prefix(s, "pub(crate) fn ") || has_prefix(s, "async fn ") || has_prefix(s, "pub async fn ") || has_prefix(s, "function ") || has_prefix(s, "export function ") || has_prefix(s, "export default function ") || has_prefix(s, "export async function ") || has_prefix(s, "async function ") || has_prefix(s, "const ") || has_prefix(s, "export const ") || has_prefix(s, "let ") || has_prefix(s, "export let ") || has_prefix(s, "var ") || has_prefix(s, "export var ") || has_prefix(s, "class ") || has_prefix(s, "export class ") || has_prefix(s, "interface ") || has_prefix(s, "export interface ") || has_prefix(s, "type ") || has_prefix(s, "export type ") || has_prefix(s, "struct ") || has_prefix(s, "pub struct ") || has_prefix(s, "enum ") || has_prefix(s, "pub enum ") || has_prefix(s, "trait ") || has_prefix(s, "pub trait ") || has_prefix(s, "impl ") || has_prefix(s, "def ") || has_prefix(s, "async def ") || has_prefix(s, "func ")
}

/// The match of a line that seems to define the symbol.
pub open spec fn line_match(line: Seq<char>, number: u32, f: FactsView, query: Seq<char>) -> MatchView {
    MatchView {
        path: f.path,
        line: number,
        text: trim_end(line),
        is_definition: true,
        exact: true,
        file_lines: f.file_lines,
        mtime: f.mtime,
        def_range: None,
        def_name: Some(query),
        def_weight: 60,
        impl_target: None,
    }
}

/// The matches among the first `n` lines: those that mention the symbol and start
/// like a definition.
pub open spec fn line_matches(lines: Seq<Seq<char>>, f: FactsView, query: Seq<char>, n: int) -> Seq<
    MatchView,
>
    decreases n,
{
    if n <= 0 {
        Seq::empty()
    } else {
        let r = line_matches(lines, f, query, n - 1);
        if has(lines[n - 1], query) && definition_line(lines[n - 1]) {
            r.push(line_match(lines[n - 1], line_number(n - 1), f, query))
        } else {
            r
        }
    }
}

/// The lines of the content that seem to define the symbol.
pub fn find_defs_heuristic_buf(f: &FileFacts, query: &str, content: &str) -> (r: Vec<Match>)
    ensures
        found_view(r@) == line_matches(
            lines(content@),
            f@,
            query@,
            lines(content@).len() as int,
        ),
{
    broadcast use lemma_found_push;

    let text = chars_of(content);
    let all = lines_of(text.as_slice());
    let ghost l = views(all@);
    let mut r: Vec<Match> = Vec::new();
    let mut i: usize = 0;
    assert(found_view(r@) =~= Seq::<MatchView>::empty());
    while i < all.len()
        invariant
            i <= all@.len(),
            l == views(all@),
            found_view(r@) == line_matches(l, f@, query@, i as int),
        decreases all@.len() - i,
    {
        let line = all[i];
        assert(l[i as int] == line@);
        if has_text(line, query) && is_definition_line(line) {
            r.push(
                Match {
                    path: f.path.clone(),
                    line: line_of_row(i),
                    text: string_of(trim_end_of(line)),
                    is_definition: true,
                    exact: true,
                    file_lines: f.file_lines,
                    mtime: f.mtime,
                    def_range: None,
                    def_name: Some(query.to_owned()),
                    def_weight: 60,
                    impl_target: None,
                },
            );
        }
        i = i + 1;
    }
    r
}

// ---------------------------------------------------------------------------
// Files
// ---------------------------------------------------------------------------

/// The grammar that the path calls for.
pub open spec fn path_lang(path: Seq<char>) -> Option<Lang> {
    match file_type(path) {
        FileType::Code(l) => if grammar_of(l) is Some {
            Some(l)
        } else {
            None
        },
        _ => None,
    }
}

/// The definitions of the symbol in a file: by its syntax where its language has a
/// grammar, else by keyword.
pub open spec fn defs_in_content(f: FactsView, query: Seq<char>, content: Seq<char>) -> Seq<MatchView> {
    match path_lang(f.path) {
        Some(l) => defs_in_tree(content, l, f, query),
        None => line_matches(lines(content), f, query, lines(content).len() as int),
    }
}

/// The language of the path, where it has a grammar.
pub fn grammar_for_path(path: &str) -> (r: Option<Lang>)
    ensures
        r == path_lang(path@),
{
    match detect_file_type(path) {
        FileType::Code(l) => match l {
            Lang::Dockerfile => None,
            Lang::Make => None,
            _ => Some(l),
        },
        _ => None,
    }
}

/// The definitions of the symbol in a file.
pub fn definitions_in_content(f: &FileFacts, query: &str, content: &str) -> (r: Vec<Match>)
    ensures
        found_view(r@) == defs_in_content(f@, query@, content@),
{
    match grammar_for_path(f.path.as_str()) {
        Some(l) => find_defs_treesitter(f, query, content, l),
        None => find_defs_heuristic_buf(f, query, content),
    }
}

/// The definitions of the symbol in the bytes of a file of that size: nothing unless
/// the file is one to search.
pub open spec fn defs_in_file(f: FactsView, query: Seq<char>, size: u64, bytes: Seq<u8>) -> Seq<MatchView> {
    if !is_candidate(f.path, size) {
        Seq::empty()
    } else {
        match searched_text(seq![query], size, bytes) {
            Some(content) => defs_in_content(f, query, content),
            None => Seq::empty(),
        }
    }
}

/// The definitions of the symbol in the bytes of a file of that size.
pub fn find_definitions(f: &FileFacts, query: &str, size: u64, bytes: &[u8]) -> (r: Vec<Match>)
    ensures
        found_view(r@) == defs_in_file(f@, query@, size, bytes@),
{
    if candidate_file(f.path.as_str(), size) {
        let mut targets: Vec<String> = Vec::new();
        targets.push(query.to_owned());
        assert(strs(targets@) =~= seq![query@]);
        if let Some(content) = text_to_search(targets.as_slice(), size, bytes) {
            return definitions_in_content(f, query, content);
        }
    }
    let r: Vec<Match> = Vec::new();
    assert(found_view(r@) =~= Seq::<MatchView>::empty());
    r
}

/// What the buckets of a batch hold.
pub open spec fn buckets_view(v: Seq<Vec<Match>>) -> Seq<Seq<MatchView>> {
    v.map_values(|b: Vec<Match>| found_view(b@))
}

/// The definitions of each of the symbols that a scan meets, in its own bucket.
pub open spec fn batch_defs(
    f: FactsView,
    queries: Seq<Seq<char>>,
    mask: Seq<bool>,
    content: Seq<char>,
) -> Seq<Seq<MatchView>> {
    Seq::new(
        queries.len(),
        |i: int|
            if mask[i] {
                defs_in_content(f, queries[i], content)
            } else {
                Seq::empty()
            },
    )
}

/// The definitions of each of the symbols that the mask admits.
pub fn definitions_in_batch(f: &FileFacts, queries: &[String], mask: &[bool], content: &str) -> (r: Vec<
    Vec<Match>,
>)
    requires
        mask@.len() == queries@.len(),
    ensures
        buckets_view(r@) == batch_defs(f@, strs(queries@), mask@, content@),
{
    let ghost q = strs(queries@);
    let ghost all = batch_defs(f@, q, mask@, content@);
    let mut r: Vec<Vec<Match>> = Vec::new();
    let mut i: usize = 0;
    while i < queries.len()
        invariant
            i <= queries@.len(),
            mask@.len() == queries@.len(),
            q == strs(queries@),
            all == batch_defs(f@, q, mask@, content@),
            r@.len() == i,
            forall|j: int| 0 <= j < i ==> found_view((#[trigger] r@[j])@) == all[j],
        decreases queries@.len() - i,
    {
        assert(q[i as int] == queries@[i as int]@);
        if mask[i] {
            r.push(definitions_in_content(f, queries[i].as_str(), content));
        } else {
            let none: Vec<Match> = Vec::new();
            assert(found_view(none@) =~= Seq::<MatchView>::empty());
            r.push(none);
        }
        i = i + 1;
    }
    assert(buckets_view(r@) =~= all);
    r
}

/// Empty buckets for that many symbols.
pub open spec fn no_matches(n: nat) -> Seq<Seq<MatchView>> {
    Seq::new(n, |i: int| Seq::empty())
}

/// Empty buckets for that many symbols.
pub(crate) fn empty_buckets(n: usize) -> (r: Vec<Vec<Match>>)
    ensures
        r@.len() == n,
        buckets_view(r@) == no_matches(n as nat),
{
    let mut r: Vec<Vec<Match>> = Vec::new();
    let mut i: usize = 0;
    while i < n
        invariant
            i <= n,
            r@.len() == i,
            forall|k: int| 0 <= k < i ==> found_view((#[trigger] r@[k])@).len() == 0,
        decreases n - i,
    {
        let none: Vec<Match> = Vec::new();
        assert(found_view(none@).len() == 0);
        r.push(none);
        i = i + 1;
    }
    let ghost want = no_matches(n as nat);
    assert forall|k: int| 0 <= k < n implies #[trigger] buckets_view(r@)[k] == want[k] by {
        assert(found_view(r@[k]@) =~= want[k]);
    }
    assert(buckets_view(r@) =~= want);
    r
}

/// The definitions of each of the symbols in the bytes of a file of that size, where
/// the mask tells which of them a scan met: nothing unless the file is one to search.
pub open spec fn batch_defs_in_file(
    f: FactsView,
    queries: Seq<Seq<char>>,
    size: u64,
    bytes: Seq<u8>,
    mask: Seq<bool>,
) -> Seq<Seq<MatchView>> {
    if is_candidate(f.path, size) && mask.contains(true) && !(size >= MINIFIED_CHECK_THRESHOLD
        && minified_content(bytes)) && valid_utf8(bytes) {
        batch_defs(f, queries, mask, decode_utf8(bytes))
    } else {
        no_matches(queries.len())
    }
}

fn any_set(mask: &[bool]) -> (r: bool)
    ensures
        r == mask@.contains(true),
{
    let mut i: usize = 0;
    while i < mask.len()
        invariant
            i <= mask@.len(),
            forall|k: int| 0 <= k < i ==> !#[trigger] mask@[k],
        decreases mask@.len() - i,
    {
        if mask[i] {
            assert(mask@[i as int] == true);
            return true;
        }
        i = i + 1;
    }
    false
}

/// The definitions of each of the symbols that a scan met, in the bytes of a file of
/// that size.
pub fn definitions_by_mask(f: &FileFacts, queries: &[String], size: u64, bytes: &[u8], mask: &[bool]) -> (r: Vec<
    Vec<Match>,
>)
    requires
        mask@.len() == queries@.len(),
    ensures
        buckets_view(r@) == batch_defs_in_file(f@, strs(queries@), size, bytes@, mask@),
{
    assert(strs(queries@).len() == queries@.len());
    if candidate_file(f.path.as_str(), size) && any_set(mask) && !(size >= MINIFIED_CHECK_THRESHOLD
        && looks_minified(bytes)) {
        if let Some(content) = decode(bytes) {
            return definitions_in_batch(f, queries, mask, content);
        }
    }
    empty_buckets(queries.len())
}

/// The definitions of each of the symbols in the bytes of a file of that size. Nothing
/// where the symbols cannot be looked for together.
pub fn find_definitions_batch(f: &FileFacts, queries: &[String], size: u64, bytes: &[u8]) -> (r: Option<
    Vec<Vec<Match>>,
>)
    ensures
        r is Some <==> scan_possible(strs(queries@)),
        r matches Some(v) ==> buckets_view(v@) == batch_defs_in_file(
            f@,
            strs(queries@),
            size,
            bytes@,
            scan_mask(strs(queries@), bytes@),
        ),
{
    match hit_mask(queries, bytes) {
        Some(mask) => {
            assert(strs(queries@).len() == queries@.len());
            Some(definitions_by_mask(f, queries, size, bytes, mask.as_slice()))
        },
        None => None,
    }
}

// ---------------------------------------------------------------------------
// Usages
// ---------------------------------------------------------------------------

/// The byte may be part of an identifier.
pub open spec fn word_byte(b: u8) -> bool {
    (0x30 <= b <= 0x39) || (0x41 <= b <= 0x5a) || (0x61 <= b <= 0x7a) || b == 0x5f
}

/// Whether the byte may be part of an identifier.
pub fn is_word_byte(b: u8) -> (r: bool)
    ensures
        r == word_byte(b),
{
    (0x30 <= b && b <= 0x39) || (0x41 <= b && b <= 0x5a) || (0x61 <= b && b <= 0x7a) || b == 0x5f
}

/// The query stands at `i` as a whole word.
pub open spec fn whole_word_at(s: Seq<u8>, q: Seq<u8>, i: int) -> bool {
    &&& bytes_at(s, q, i)
    &&& i == 0 || !word_byte(s[i - 1])
    &&& i + q.len() >= s.len() || !word_byte(s[i + q.len()])
}

/// The query stands somewhere as a whole word.
pub open spec fn has_whole_word(s: Seq<u8>, q: Seq<u8>) -> bool {
    exists|i: int| whole_word_at(s, q, i)
}

proof fn lemma_bytes_at_suffix(s: Seq<u8>, q: Seq<u8>, start: int, i: int)
    requires
        0 <= start <= s.len(),
        0 <= i,
    ensures
        bytes_at(s.subrange(start, s.len() as int), q, i) == bytes_at(s, q, start + i),
{
    let t = s.subrange(start, s.len() as int);
    if start + i + q.len() <= s.len() {
        assert(t.subrange(i, i + q.len()) =~= s.subrange(start + i, start + i + q.len()));
    }
}

/// Whether the query stands in the line as a whole word.
pub fn has_word(line: &str, query: &str) -> (r: bool)
    ensures
        r == has_whole_word(encode_utf8(line@), encode_utf8(query@)),
{
    let s = line.as_bytes();
    let q = query.as_bytes();
    let n: usize = s.len();
    let k: usize = q.len();
    let mut start: usize = 0;
    while start <= n
        invariant
            start <= n + 1,
            n == s@.len(),
            k == q@.len(),
            s@ == encode_utf8(line@),
            q@ == encode_utf8(query@),
            forall|i: int| 0 <= i < start ==> !whole_word_at(s@, q@, i),
        decreases n + 1 - start,
    {
        let rest = slice_subrange(s, start, n);
        match find_bytes(rest, q) {
            None => {
                assert forall|i: int| !whole_word_at(s@, q@, i) by {
                    if i >= start && bytes_at(s@, q@, i) {
                        lemma_bytes_at_suffix(s@, q@, start as int, i - start);
                        assert(bytes_at(rest@, q@, i - start));
                    }
                }
                return false;
            },
            Some(p) => {
                let at: usize = start + p;
                proof {
                    lemma_bytes_at_suffix(s@, q@, start as int, p as int);
                    assert forall|i: int| start <= i < at implies !whole_word_at(s@, q@, i) by {
                        lemma_bytes_at_suffix(s@, q@, start as int, i - start);
                        assert(!bytes_at(rest@, q@, i - start));
                    }
                }
                let before_ok = at == 0 || !is_word_byte(s[at - 1]);
                let after: usize = at + k;
                let after_ok = after >= n || !is_word_byte(s[after]);
                if before_ok && after_ok {
                    assert(whole_word_at(s@, q@, at as int));
                    return true;
                }
                if at == n {
                    assert forall|i: int| !whole_word_at(s@, q@, i) by {}
                    return false;
                }
                start = at + 1;
            },
        }
    }
    assert forall|i: int| !whole_word_at(s@, q@, i) by {}
    false
}

/// The match of a line that uses the symbol.
pub open spec fn usage_match(f: FactsView, number: u32, line: Seq<char>, exact: bool) -> MatchView {
    MatchView {
        path: f.path,
        line: number,
        text: trim_end(line),
        is_definition: false,
        exact,
        file_lines: f.file_lines,
        mtime: f.mtime,
        def_range: None,
        def_name: None,
        def_weight: 0,
        impl_target: None,
    }
}

pub(crate) fn make_usage(f: &FileFacts, number: u32, line: &str, exact: bool) -> (r: Match)
    ensures
        r@ == usage_match(f@, number, line@, exact),
{
    let s = chars_of(line);
    Match {
        path: f.path.clone(),
        line: number,
        text: string_of(trim_end_of(s.as_slice())),
        is_definition: false,
        exact,
        file_lines: f.file_lines,
        mtime: f.mtime,
        def_range: None,
        def_name: None,
        def_weight: 0,
        impl_target: None,
    }
}

/// The match of a line that the search for the word found.
pub fn find_usage(f: &FileFacts, query: &str, number: u32, line: &str) -> (r: Match)
    ensures
        r@ == usage_match(f@, number, line@, has(line@, query@)),
{
    let s = chars_of(line);
    let exact = has_text(s.as_slice(), query);
    make_usage(f, number, line, exact)
}

/// The buckets with the line added to those of the symbols that it uses as whole
/// words.
pub open spec fn usage_buckets(
    b: Seq<Seq<MatchView>>,
    f: FactsView,
    queries: Seq<Seq<char>>,
    number: u32,
    line: Seq<char>,
) -> Seq<Seq<MatchView>> {
    Seq::new(
        b.len(),
        |i: int|
            if i < queries.len() && has_whole_word(encode_utf8(line), encode_utf8(queries[i])) {
                b[i].push(usage_match(f, number, line, true))
            } else {
                b[i]
            },
    )
}

/// Adds a line to the buckets of the symbols that it uses.
pub fn dispatch_usage(
    buckets: &mut Vec<Vec<Match>>,
    f: &FileFacts,
    queries: &[String],
    number: u32,
    line: &str,
)
    requires
        old(buckets)@.len() == queries@.len(),
    ensures
        buckets_view(final(buckets)@) == usage_buckets(
            buckets_view(old(buckets)@),
            f@,
            strs(queries@),
            number,
            line@,
        ),
{
    broadcast use lemma_found_push;

    let ghost start = buckets_view(buckets@);
    let ghost q = strs(queries@);
    let ghost goal = usage_buckets(start, f@, q, number, line@);
    let mut i: usize = 0;
    while i < queries.len()
        invariant
            i <= queries@.len(),
            buckets@.len() == queries@.len(),
            start.len() == queries@.len(),
            q == strs(queries@),
            goal == usage_buckets(start, f@, q, number, line@),
            forall|j: int| 0 <= j < i ==> found_view((#[trigger] buckets@[j])@) == goal[j],
            forall|j: int|
                i <= j < buckets@.len() ==> found_view((#[trigger] buckets@[j])@) == start[j],
        decreases queries@.len() - i,
    {
        assert(q[i as int] == queries@[i as int]@);
        if has_word(line, queries[i].as_str()) {
            let mut b: Vec<Match> = Vec::new();
            std::mem::swap(&mut b, &mut buckets[i]);
            let m = make_usage(f, number, line, true);
            b.push(m);
            buckets[i] = b;
        }
        i = i + 1;
    }
    assert(buckets_view(buckets@) =~= goal);
}

// ---------------------------------------------------------------------------
// Merging
// ---------------------------------------------------------------------------

/// One of the definitions is at the place.
pub open spec fn defined_at(defs: Seq<MatchView>, m: MatchView) -> bool {
    exists|i: int|
        0 <= i < defs.len() && same_path((#[trigger] defs[i]).path, m.path) && defs[i].line == m.line
}

/// The definitions, then those of the first `n` usages that are at another place.
pub open spec fn merged(defs: Seq<MatchView>, usages: Seq<MatchView>, n: int) -> Seq<MatchView>
    decreases n,
{
    if n <= 0 {
        defs
    } else {
        let r = merged(defs, usages, n - 1);
        if defined_at(defs, usages[n - 1]) {
            r
        } else {
            r.push(usages[n - 1])
        }
    }
}

fn at_definition(v: &Vec<Match>, n: usize, m: &Match) -> (r: bool)
    requires
        n <= v@.len(),
    ensures
        r == defined_at(found_view(v@).take(n as int), m@),
{
    let ghost d = found_view(v@).take(n as int);
    let mut i: usize = 0;
    while i < n
        invariant
            i <= n <= v@.len(),
            d == found_view(v@).take(n as int),
            forall|j: int|
                0 <= j < i ==> !(same_path((#[trigger] d[j]).path, m.path@) && d[j].line == m.line),
        decreases n - i,
    {
        assert(d[i as int] == v@[i as int]@);
        if v[i].line == m.line && equal_paths(v[i].path.as_str(), m.path.as_str()) {
            return true;
        }
        i = i + 1;
    }
    false
}

/// What a search found: definitions first, then the usages elsewhere.
pub fn merge_matches(query: &str, scope: &str, defs: Vec<Match>, usages: Vec<Match>) -> (r: SearchResult)
    requires
        defs@.len() + usages@.len() <= usize::MAX,
    ensures
        r.query@ == query@,
        r.scope@ == scope@,
        found_view(r.matches@) == merged(
            found_view(defs@),
            found_view(usages@),
            usages@.len() as int,
        ),
        r.definitions == defs@.len(),
        r.total_found == r.matches@.len(),
        r.usages == r.matches@.len() - defs@.len(),
        !r.has_more,
        r.offset == 0,
{
    broadcast use lemma_found_push;

    let ghost d = found_view(defs@);
    let ghost u = found_view(usages@);
    let def_count: usize = defs.len();
    let n: usize = usages.len();
    let mut out = defs;
    let mut left = usages;
    let mut i: usize = 0;
    assert(u.skip(0) =~= u);
    assert(found_view(out@).take(def_count as int) =~= d);
    while i < n
        invariant
            i <= n,
            n == u.len(),
            def_count == d.len(),
            def_count <= out@.len() <= def_count + i,
            left@.len() == n - i,
            found_view(left@) == u.skip(i as int),
            found_view(out@).take(def_count as int) == d,
            found_view(out@) == merged(d, u, i as int),
        decreases n - i,
    {
        let ghost was = left@;
        let m = left.remove(0);
        let ghost mv = m@;
        let ghost before = found_view(out@);
        proof {
            assert(found_view(was)[0] == mv);
            assert(u.skip(i as int)[0] == u[i as int]);
            assert(found_view(left@) =~= found_view(was).skip(1));
            assert(u.skip(i as int).skip(1) =~= u.skip(i + 1));
        }
        if !at_definition(&out, def_count, &m) {
            out.push(m);
            assert(found_view(out@).take(def_count as int) =~= before.take(def_count as int));
        }
        i = i + 1;
    }
    let total: usize = out.len();
    SearchResult {
        query: query.to_owned(),
        scope: scope.to_owned(),
        matches: out,
        total_found: total,
        definitions: def_count,
        usages: total - def_count,
        has_more: false,
        offset: 0,
    }
}

/// The definitions stay first, in their order, when usages are merged in.
pub proof fn law_definitions_first(defs: Seq<MatchView>, usages: Seq<MatchView>, n: int)
    ensures
        defs.is_prefix_of(merged(defs, usages, n)),
        forall|k: int|
            defs.len() <= k < merged(defs, usages, n).len() ==> !defined_at(
                defs,
                #[trigger] merged(defs, usages, n)[k],
            ),
    decreases n,
{
    if n > 0 {
        law_definitions_first(defs, usages, n - 1);
        let r = merged(defs, usages, n - 1);
        let all = merged(defs, usages, n);
        assert(defs =~= r.subrange(0, defs.len() as int));
        assert forall|i: int| 0 <= i < defs.len() implies defs[i] == all[i] by {
            assert(r.subrange(0, defs.len() as int)[i] == r[i]);
        }
        assert(defs =~= all.subrange(0, defs.len() as int));
        assert forall|k: int| defs.len() <= k < all.len() implies !defined_at(defs, #[trigger] all[k]) by {
            if k < r.len() {
                assert(all[k] == r[k]);
            }
        }
    } else {
        assert(defs =~= defs.subrange(0, defs.len() as int));
    }
}

/// The match is one of the query in the file, on the rows.
pub open spec fn match_on(m: MatchView, f: FactsView, start_row: int, end_row: int) -> bool {
    &&& m.path == f.path
    &&& m.file_lines == f.file_lines
    &&& m.mtime == f.mtime
    &&& m.is_definition
    &&& m.exact
    &&& m.line == start_row + 1
    &&& m.def_range == Some(((start_row + 1) as u32, (end_row + 1) as u32))
}

/// The rows of the nodes can be told as line numbers.
pub open spec fn rows_fit(t: Seq<NodeView>) -> bool {
    forall|i: int|
        0 <= i < t.len() ==> 0 <= (#[trigger] t[i]).start_row < u32::MAX && 0 <= t[i].end_row
            < u32::MAX
}

proof fn lemma_tree_matches_grow(
    t: Seq<NodeView>,
    lines: Seq<Seq<char>>,
    f: FactsView,
    query: Seq<char>,
    i: int,
    n: int,
)
    requires
        0 <= i < n <= t.len(),
        t[i].depth <= 3,
        is_definition(t[i].kind),
    ensures
        forall|m: MatchView|
            own_match(t, lines, f, query, i).contains(m) || impl_match(
                t,
                lines,
                f,
                query,
                i,
            ).contains(m) ==> #[trigger] tree_matches(t, lines, f, query, n).contains(m),
    decreases n,
{
    let q = tree_matches(t, lines, f, query, n - 1);
    let own = own_match(t, lines, f, query, n - 1);
    let imp = impl_match(t, lines, f, query, n - 1);
    let r = tree_matches(t, lines, f, query, n);
    if i < n - 1 {
        lemma_tree_matches_grow(t, lines, f, query, i, n - 1);
    }
    assert forall|m: MatchView|
        own_match(t, lines, f, query, i).contains(m) || impl_match(
            t,
            lines,
            f,
            query,
            i,
        ).contains(m) implies #[trigger] r.contains(m) by {
        if i < n - 1 {
            assert(q.contains(m));
            let k = choose|k: int| 0 <= k < q.len() && q[k] == m;
            assert(r[k] == m);
        } else if own.contains(m) {
            let k = choose|k: int| 0 <= k < own.len() && own[k] == m;
            assert(r[q.len() + k] == m);
        } else {
            let k = choose|k: int| 0 <= k < imp.len() && imp[k] == m;
            assert(r[q.len() + own.len() + k] == m);
        }
    }
}

/// Every definition of the symbol that lies no more than three levels deep is found,
/// with the lines it takes.
pub proof fn law_definitions_are_found(
    t: Seq<NodeView>,
    lines: Seq<Seq<char>>,
    f: FactsView,
    query: Seq<char>,
    i: int,
)
    requires
        rows_fit(t),
        0 <= i < t.len(),
        t[i].depth <= 3,
        is_definition(t[i].kind),
        definition_name(t, lines, i) == Some(query),
    ensures
        exists|m: MatchView| #[trigger]
            tree_matches(t, lines, f, query, t.len() as int).contains(m) && match_on(
                m,
                f,
                t[i].start_row,
                t[i].end_row,
            ) && m.def_name == Some(query) && m.impl_target is None && m.def_weight == weight(
                t[i].kind,
            ),
{
    lemma_tree_matches_grow(t, lines, f, query, i, t.len() as int);
    let own = own_match(t, lines, f, query, i);
    assert(own.contains(own[0]));
    assert(tree_matches(t, lines, f, query, t.len() as int).contains(own[0]));
}

/// Every implementation of a trait, and every class that implements an interface, is
/// found under the name of the trait or interface, unless it lies more than three
/// levels deep.
pub proof fn law_implementations_are_found(
    t: Seq<NodeView>,
    lines: Seq<Seq<char>>,
    f: FactsView,
    query: Seq<char>,
    i: int,
)
    requires
        rows_fit(t),
        0 <= i < t.len(),
        t[i].depth <= 3,
        (t[i].kind == "impl_item"@ && field_line(t, lines, i, "trait"@) == Some(query)) || ((
        t[i].kind == "class_declaration"@ || t[i].kind == "class_definition"@) && interfaces(
            t,
            lines,
            children(t, i),
            children(t, i).len() as int,
        ).contains(query)),
    ensures
        exists|m: MatchView| #[trigger]
            tree_matches(t, lines, f, query, t.len() as int).contains(m) && match_on(
                m,
                f,
                t[i].start_row,
                t[i].end_row,
            ) && m.impl_target == Some(query),
{
    reveal_strlit("impl_item");
    reveal_strlit("class_declaration");
    reveal_strlit("class_definition");
    assert("impl_item"@.len() != "class_declaration"@.len());
    assert("impl_item"@.len() != "class_definition"@.len());
    lemma_tree_matches_grow(t, lines, f, query, i, t.len() as int);
    let imp = impl_match(t, lines, f, query, i);
    assert(imp.contains(imp[0]));
    assert(tree_matches(t, lines, f, query, t.len() as int).contains(imp[0]));
}

/// Whatever is found in a syntax tree stands on the lines of a definition that is not
/// too deep, and that defines the symbol or implements it.
pub proof fn law_matches_are_definitions(
    t: Seq<NodeView>,
    lines: Seq<Seq<char>>,
    f: FactsView,
    query: Seq<char>,
    n: int,
    k: int,
)
    requires
        rows_fit(t),
        0 <= n <= t.len(),
        0 <= k < tree_matches(t, lines, f, query, n).len(),
    ensures
        exists|i: int|
            0 <= i < n && (#[trigger] t[i]).depth <= 3 && is_definition(t[i].kind) && match_on(
                tree_matches(t, lines, f, query, n)[k],
                f,
                t[i].start_row,
                t[i].end_row,
            ) && (tree_matches(t, lines, f, query, n)[k].impl_target == Some(query) || (
            tree_matches(t, lines, f, query, n)[k].def_name == Some(query) && definition_name(
                t,
                lines,
                i,
            ) == Some(query))),
    decreases n,
{
    if n > 0 {
        let q = tree_matches(t, lines, f, query, n - 1);
        let r = tree_matches(t, lines, f, query, n);
        if k < q.len() {
            law_matches_are_definitions(t, lines, f, query, n - 1, k);
            let i = choose|i: int|
                0 <= i < n - 1 && (#[trigger] t[i]).depth <= 3 && is_definition(t[i].kind)
                    && match_on(q[k], f, t[i].start_row, t[i].end_row) && (q[k].impl_target == Some(
                    query,
                ) || (q[k].def_name == Some(query) && definition_name(t, lines, i) == Some(query)));
            assert(r[k] == q[k]);
            assert(t[i].depth <= 3);
        } else {
            let own = own_match(t, lines, f, query, n - 1);
            let imp = impl_match(t, lines, f, query, n - 1);
            assert(r =~= q + own + imp);
            assert(own.len() <= 1 && imp.len() <= 1);
            if k - q.len() < own.len() {
                assert(r[k] == own[0]);
            } else {
                assert(r[k] == imp[0]);
            }
            assert(t[n - 1].depth <= 3);
        }
    }
}

/// A file whose language has a grammar gives every definition of the symbol that its
/// tree holds.
pub proof fn law_file_definitions_are_found(
    f: FactsView,
    query: Seq<char>,
    content: Seq<char>,
    lang: Lang,
    t: Seq<NodeView>,
    i: int,
)
    requires
        path_lang(f.path) == Some(lang),
        nodes_in(content, lang) == Some(t),
        rows_fit(t),
        0 <= i < t.len(),
        t[i].depth <= 3,
        is_definition(t[i].kind),
        definition_name(t, lines(content), i) == Some(query),
    ensures
        exists|m: MatchView| #[trigger]
            defs_in_content(f, query, content).contains(m) && match_on(
                m,
                f,
                t[i].start_row,
                t[i].end_row,
            ) && m.def_name == Some(query),
{
    law_definitions_are_found(t, lines(content), f, query, i);
    let m = choose|m: MatchView| #[trigger]
        tree_matches(t, lines(content), f, query, t.len() as int).contains(m) && match_on(
            m,
            f,
            t[i].start_row,
            t[i].end_row,
        ) && m.def_name == Some(query) && m.impl_target is None && m.def_weight == weight(t[i].kind);
    assert(defs_in_content(f, query, content).contains(m));
}

/// A file without a grammar gives every line that names the symbol and starts like a
/// definition, and no other line.
pub proof fn law_definition_lines_are_found(
    lines: Seq<Seq<char>>,
    f: FactsView,
    query: Seq<char>,
    n: int,
)
    requires
        0 <= n <= lines.len() < u32::MAX,
    ensures
        forall|i: int|
            0 <= i < n && has(#[trigger] lines[i], query) && definition_line(lines[i]) ==> exists|
                k: int,
            |
                0 <= k < line_matches(lines, f, query, n).len() && (#[trigger] line_matches(
                    lines,
                    f,
                    query,
                    n,
                )[k]).line == i + 1,
        forall|k: int|
            #![trigger line_matches(lines, f, query, n)[k]]
            0 <= k < line_matches(lines, f, query, n).len() ==> {
                let m = line_matches(lines, f, query, n)[k];
                &&& 1 <= m.line <= n
                &&& has(lines[m.line - 1], query)
                &&& definition_line(lines[m.line - 1])
                &&& m.text == trim_end(lines[m.line - 1])
                &&& m.is_definition
                &&& m.path == f.path
                &&& m.def_name == Some(query)
            },
        forall|a: int, b: int|
            0 <= a < b < line_matches(lines, f, query, n).len() ==> (#[trigger] line_matches(
                lines,
                f,
                query,
                n,
            )[a]).line < (#[trigger] line_matches(lines, f, query, n)[b]).line,
    decreases n,
{
    if n > 0 {
        law_definition_lines_are_found(lines, f, query, n - 1);
        let q = line_matches(lines, f, query, n - 1);
        let r = line_matches(lines, f, query, n);
        assert forall|i: int|
            0 <= i < n && has(#[trigger] lines[i], query) && definition_line(lines[i]) implies exists|
            k: int,
        | 0 <= k < r.len() && (#[trigger] r[k]).line == i + 1 by {
            if i < n - 1 {
                let k = choose|k: int| 0 <= k < q.len() && (#[trigger] q[k]).line == i + 1;
                assert(r[k] == q[k]);
            } else {
                assert(r[q.len() as int].line == i + 1);
            }
        }
        assert forall|k: int| 0 <= k < r.len() implies {
            let m = #[trigger] r[k];
            &&& 1 <= m.line <= n
            &&& has(lines[m.line - 1], query)
            &&& definition_line(lines[m.line - 1])
            &&& m.text == trim_end(lines[m.line - 1])
            &&& m.is_definition
            &&& m.path == f.path
            &&& m.def_name == Some(query)
        } by {
            if k < q.len() {
                assert(r[k] == q[k]);
            }
        }
        assert forall|a: int, b: int| 0 <= a < b < r.len() implies (#[trigger] r[a]).line < (
        #[trigger] r[b]).line by {
            assert(r[a] == q[a]);
            if b < q.len() {
                assert(r[b] == q[b]);
            }
        }
    }
}

/// Looking for several symbols together finds, of each that the scan met, what
/// looking for it alone finds.
pub proof fn law_batch_is_each_alone(
    f: FactsView,
    queries: Seq<Seq<char>>,
    size: u64,
    bytes: Seq<u8>,
    mask: Seq<bool>,
    i: int,
)
    requires
        0 <= i < queries.len(),
        mask.len() == queries.len(),
        mask[i],
        super::io::bytes_have(bytes, encode_utf8(queries[i])),
    ensures
        batch_defs_in_file(f, queries, size, bytes, mask).len() == queries.len(),
        batch_defs_in_file(f, queries, size, bytes, mask)[i] == defs_in_file(
            f,
            queries[i],
            size,
            bytes,
        ),
{
    let one = seq![queries[i]];
    assert(one[0] == queries[i]);
    assert(super::io::mentions_any(one, bytes));
    assert(mask.contains(true));
    if is_candidate(f.path, size) && !(size >= MINIFIED_CHECK_THRESHOLD && minified_content(bytes))
        && valid_utf8(bytes) {
        assert(batch_defs_in_file(f, queries, size, bytes, mask)[i] == defs_in_content(
            f,
            queries[i],
            decode_utf8(bytes),
        ));
    } else {
        assert(batch_defs_in_file(f, queries, size, bytes, mask)[i] =~= Seq::<MatchView>::empty());
        assert(defs_in_file(f, queries[i], size, bytes) =~= Seq::<MatchView>::empty());
    }
}

/// A line goes to the bucket of every symbol that it has as a whole word, and to no
/// other bucket.
pub proof fn law_usage_reaches_every_bucket(
    b: Seq<Seq<MatchView>>,
    f: FactsView,
    queries: Seq<Seq<char>>,
    number: u32,
    line: Seq<char>,
    i: int,
)
    requires
        0 <= i < b.len() == queries.len(),
    ensures
        usage_buckets(b, f, queries, number, line).len() == b.len(),
        b[i].is_prefix_of(usage_buckets(b, f, queries, number, line)[i]),
        has_whole_word(encode_utf8(line), encode_utf8(queries[i])) ==> {
            let r = usage_buckets(b, f, queries, number, line)[i];
            &&& r.len() == b[i].len() + 1
            &&& r.last().line == number
            &&& r.last().path == f.path
            &&& r.last().text == trim_end(line)
            &&& !r.last().is_definition
            &&& r.last().exact
        },
        !has_whole_word(encode_utf8(line), encode_utf8(queries[i])) ==> usage_buckets(
            b,
            f,
            queries,
            number,
            line,
        )[i] == b[i],
{
    let r = usage_buckets(b, f, queries, number, line)[i];
    assert(b[i] =~= r.subrange(0, b[i].len() as int));
}

/// Merging loses no usage but those at the place of a definition, and adds nothing:
/// every match is a definition or a usage.
pub proof fn law_usages_are_kept(defs: Seq<MatchView>, usages: Seq<MatchView>, n: int)
    requires
        0 <= n <= usages.len(),
    ensures
        forall|i: int|
            0 <= i < n ==> merged(defs, usages, n).contains(#[trigger] usages[i]) || exists|d: int|
                0 <= d < defs.len() && same_path((#[trigger] defs[d]).path, usages[i].path)
                    && defs[d].line == usages[i].line,
        forall|m: MatchView| #[trigger]
            merged(defs, usages, n).contains(m) ==> defs.contains(m) || usages.contains(m),
        forall|i: int| 0 <= i < defs.len() ==> merged(defs, usages, n).contains(#[trigger] defs[i]),
        merged(defs, usages, n).len() <= defs.len() + n,
    decreases n,
{
    let r = merged(defs, usages, n);
    law_definitions_first(defs, usages, n);
    assert forall|i: int| 0 <= i < defs.len() implies r.contains(#[trigger] defs[i]) by {
        assert(r.subrange(0, defs.len() as int)[i] == defs[i]);
        assert(r[i] == defs[i]);
    }
    if n > 0 {
        law_usages_are_kept(defs, usages, n - 1);
        let q = merged(defs, usages, n - 1);
        assert forall|i: int| 0 <= i < n implies r.contains(#[trigger] usages[i]) || exists|d: int|
            0 <= d < defs.len() && same_path((#[trigger] defs[d]).path, usages[i].path)
                && defs[d].line == usages[i].line by {
            if i < n - 1 {
                if q.contains(usages[i]) {
                    let k = choose|k: int| 0 <= k < q.len() && q[k] == usages[i];
                    assert(r[k] == usages[i]);
                }
            } else if !defined_at(defs, usages[i]) {
                assert(r[q.len() as int] == usages[i]);
            }
        }
        assert forall|m: MatchView| #[trigger] r.contains(m) implies defs.contains(m)
            || usages.contains(m) by {
            let k = choose|k: int| 0 <= k < r.len() && r[k] == m;
            if k < q.len() {
                assert(q[k] == m);
                assert(q.contains(m));
            } else {
                assert(usages[n - 1] == m);
            }
        }
    }
}

} // verus!
