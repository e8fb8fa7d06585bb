//! The functions that a definition calls, and where they are defined.
use vstd::prelude::*;

use crate::lang::outline::{
    get_outline_entries, grammar_of, line_number, line_of_row, outline_language, outline_of,
};
use crate::paths::{equal_paths, file_name, file_name_of, path_le, paths_ordered, same_path};
use crate::sort::{lemma_sort_map, sort_by, stable_sort};
use crate::syntax::{
    captures_view, found_matches, matches_view, parse, parsed, run_query, CaptureRecord, CaptureView,
};
use crate::text::{
    chars_of, clone_opt, has_string, has_suffix, lemma_strs_push, opt_text, same_text, strs,
};
use crate::types::{entries_view, EntryView, Lang, OutlineEntry};

use super::bfs_format::{sorted_names, sorted_names_of};

verus! {

/// A function that is called, with its definition.
#[derive(Debug)]
pub struct ResolvedCallee {
    pub name: String,
    pub file: String,
    pub start_line: u32,
    pub end_line: u32,
    pub signature: Option<String>,
}

/// A function that is called, with those that it calls in turn.
#[derive(Debug)]
pub struct ResolvedCalleeNode {
    pub callee: ResolvedCallee,
    pub children: Vec<ResolvedCallee>,
}

/// What a resolved callee says.
pub struct CalleeView {
    pub name: Seq<char>,
    pub file: Seq<char>,
    pub start_line: u32,
    pub end_line: u32,
    pub signature: Option<Seq<char>>,
}

impl View for ResolvedCallee {
    type V = CalleeView;

    open spec fn view(&self) -> CalleeView {
        CalleeView {
            name: self.name@,
            file: self.file@,
            start_line: self.start_line,
            end_line: self.end_line,
            signature: opt_text(self.signature),
        }
    }
}

/// What the callees of a list say.
pub open spec fn callees_view(v: Seq<ResolvedCallee>) -> Seq<CalleeView> {
    v.map_values(|c: ResolvedCallee| c@)
}

/// What a resolved callee and its children say.
pub struct CalleeTreeView {
    pub callee: CalleeView,
    pub children: Seq<CalleeView>,
}

impl View for ResolvedCalleeNode {
    type V = CalleeTreeView;

    open spec fn view(&self) -> CalleeTreeView {
        CalleeTreeView { callee: self.callee@, children: callees_view(self.children@) }
    }
}

/// What the callees of a list and their children say.
pub open spec fn trees_view(v: Seq<ResolvedCalleeNode>) -> Seq<CalleeTreeView> {
    v.map_values(|n: ResolvedCalleeNode| n@)
}

// ---------------------------------------------------------------------------
// Names
// ---------------------------------------------------------------------------

/// The query for calls in the language.
pub open spec fn callee_query(lang: Lang) -> Option<Seq<char>> {
    match lang {
        Lang::Rust => Some(
            "(call_expression function: (identifier) @callee)\n(call_expression function: (field_expression field: (field_identifier) @callee))\n(call_expression function: (scoped_identifier name: (identifier) @callee))\n(macro_invocation macro: (identifier) @callee)\n"@,
        ),
        Lang::TypeScript => Some(
            "(call_expression function: (identifier) @callee)\n(call_expression function: (member_expression property: (property_identifier) @callee))\n"@,
        ),
        Lang::Tsx => Some(
            "(call_expression function: (identifier) @callee)\n(call_expression function: (member_expression property: (property_identifier) @callee))\n"@,
        ),
        Lang::JavaScript => Some(
            "(call_expression function: (identifier) @callee)\n(call_expression function: (member_expression property: (property_identifier) @callee))\n"@,
        ),
        Lang::Python => Some(
            "(call function: (identifier) @callee)\n(call function: (attribute attribute: (identifier) @callee))\n"@,
        ),
        Lang::Go => Some(
            "(call_expression function: (identifier) @callee)\n(call_expression function: (selector_expression field: (field_identifier) @callee))\n"@,
        ),
        Lang::Java => Some(
            "(method_invocation name: (identifier) @callee)\n"@,
        ),
        Lang::Scala => Some(
            "(call_expression function: (identifier) @callee)\n(call_expression function: (field_expression field: (identifier) @callee))\n(infix_expression operator: (identifier) @callee)\n"@,
        ),
        Lang::C => Some(
            "(call_expression function: (identifier) @callee)\n(call_expression function: (field_expression field: (field_identifier) @callee))\n"@,
        ),
        Lang::Cpp => Some(
            "(call_expression function: (identifier) @callee)\n(call_expression function: (field_expression field: (field_identifier) @callee))\n"@,
        ),
        Lang::Ruby => Some(
            "(call method: (identifier) @callee)\n"@,
        ),
        Lang::Php => Some(
            "(function_call_expression function: (name) @callee)\n(function_call_expression function: (qualified_name) @callee)\n(function_call_expression function: (relative_name) @callee)\n(member_call_expression name: (name) @callee)\n(nullsafe_member_call_expression name: (name) @callee)\n(scoped_call_expression name: (name) @callee)\n"@,
        ),
        Lang::Swift => Some(
            "(call_expression (simple_identifier) @callee)\n(call_expression (navigation_expression suffix: (navigation_suffix suffix: (simple_identifier) @callee)))\n"@,
        ),
        Lang::Kotlin => Some(
            "(call_expression (identifier) @callee)\n(call_expression (navigation_expression (identifier) @callee .))\n"@,
        ),
        Lang::CSharp => Some(
            "(invocation_expression function: (identifier) @callee)\n(invocation_expression function: (member_access_expression name: (identifier) @callee))\n"@,
        ),
        Lang::Elixir => Some(
            "(call target: (identifier) @callee)\n(call target: (dot right: (identifier) @callee))\n"@,
        ),
        Lang::Dockerfile => None,
        Lang::Make => None,
    }
}

/// The query for calls in the language.
pub fn callee_query_str(lang: Lang) -> (r: Option<&'static str>)
    ensures
        r matches Some(q) ==> callee_query(lang) == Some(q@),
        r is None ==> callee_query(lang) is None,
{
    match lang {
        Lang::Rust => Some(
            "(call_expression function: (identifier) @callee)\n(call_expression function: (field_expression field: (field_identifier) @callee))\n(call_expression function: (scoped_identifier name: (identifier) @callee))\n(macro_invocation macro: (identifier) @callee)\n",
        ),
        Lang::TypeScript => Some(
            "(call_expression function: (identifier) @callee)\n(call_expression function: (member_expression property: (property_identifier) @callee))\n",
        ),
        Lang::Tsx => Some(
            "(call_expression function: (identifier) @callee)\n(call_expression function: (member_expression property: (property_identifier) @callee))\n",
        ),
        Lang::JavaScript => Some(
            "(call_expression function: (identifier) @callee)\n(call_expression function: (member_expression property: (property_identifier) @callee))\n",
        ),
        Lang::Python => Some(
            "(call function: (identifier) @callee)\n(call function: (attribute attribute: (identifier) @callee))\n",
        ),
        Lang::Go => Some(
            "(call_expression function: (identifier) @callee)\n(call_expression function: (selector_expression field: (field_identifier) @callee))\n",
        ),
        Lang::Java => Some(
            "(method_invocation name: (identifier) @callee)\n",
        ),
        Lang::Scala => Some(
            "(call_expression function: (identifier) @callee)\n(call_expression function: (field_expression field: (identifier) @callee))\n(infix_expression operator: (identifier) @callee)\n",
        ),
        Lang::C => Some(
            "(call_expression function: (identifier) @callee)\n(call_expression function: (field_expression field: (field_identifier) @callee))\n",
        ),
        Lang::Cpp => Some(
            "(call_expression function: (identifier) @callee)\n(call_expression function: (field_expression field: (field_identifier) @callee))\n",
        ),
        Lang::Ruby => Some(
            "(call method: (identifier) @callee)\n",
        ),
        Lang::Php => Some(
            "(function_call_expression function: (name) @callee)\n(function_call_expression function: (qualified_name) @callee)\n(function_call_expression function: (relative_name) @callee)\n(member_call_expression name: (name) @callee)\n(nullsafe_member_call_expression name: (name) @callee)\n(scoped_call_expression name: (name) @callee)\n",
        ),
        Lang::Swift => Some(
            "(call_expression (simple_identifier) @callee)\n(call_expression (navigation_expression suffix: (navigation_suffix suffix: (simple_identifier) @callee)))\n",
        ),
        Lang::Kotlin => Some(
            "(call_expression (identifier) @callee)\n(call_expression (navigation_expression (identifier) @callee .))\n",
        ),
        Lang::CSharp => Some(
            "(invocation_expression function: (identifier) @callee)\n(invocation_expression function: (member_access_expression name: (identifier) @callee))\n",
        ),
        Lang::Elixir => Some(
            "(call target: (identifier) @callee)\n(call target: (dot right: (identifier) @callee))\n",
        ),
        Lang::Dockerfile => None,
        Lang::Make => None,
    }
}

/// The query for expressions that construct a value of a type: literals of structures,
/// and what `new` is written before. Where a type is called like a function, the query
/// for calls sees it.
pub open spec fn constructor_query(lang: Lang) -> Seq<char> {
    match lang {
        Lang::Rust => "(struct_expression name: (type_identifier) @callee)\n(struct_expression name: (scoped_type_identifier name: (type_identifier) @callee))\n(struct_expression name: (generic_type_with_turbofish type: (type_identifier) @callee))\n"@,
        Lang::TypeScript => "(new_expression constructor: (identifier) @callee)\n(new_expression constructor: (member_expression property: (property_identifier) @callee))\n"@,
        Lang::Tsx => "(new_expression constructor: (identifier) @callee)\n(new_expression constructor: (member_expression property: (property_identifier) @callee))\n"@,
        Lang::JavaScript => "(new_expression constructor: (identifier) @callee)\n(new_expression constructor: (member_expression property: (property_identifier) @callee))\n"@,
        Lang::Python => ""@,
        Lang::Go => "(composite_literal type: (type_identifier) @callee)\n(composite_literal type: (qualified_type name: (type_identifier) @callee))\n(composite_literal type: (generic_type type: (type_identifier) @callee))\n"@,
        Lang::Java => "(object_creation_expression type: (type_identifier) @callee)\n(object_creation_expression type: (generic_type (type_identifier) @callee))\n(object_creation_expression type: (scoped_type_identifier (type_identifier) @callee .))\n"@,
        Lang::Scala => "(instance_expression (type_identifier) @callee)\n(instance_expression (generic_type type: (type_identifier) @callee))\n"@,
        Lang::C => "(compound_literal_expression type: (type_descriptor type: (type_identifier) @callee))\n(compound_literal_expression type: (type_descriptor type: (struct_specifier name: (type_identifier) @callee)))\n"@,
        Lang::Cpp => "(new_expression type: (type_identifier) @callee)\n(new_expression type: (template_type name: (type_identifier) @callee))\n(new_expression type: (qualified_identifier name: (type_identifier) @callee))\n(compound_literal_expression type: (type_identifier) @callee)\n(compound_literal_expression type: (template_type name: (type_identifier) @callee))\n(compound_literal_expression type: (qualified_identifier name: (type_identifier) @callee))\n"@,
        Lang::Ruby => "(call receiver: (constant) @callee method: (identifier) @method (#eq? @method \"new\"))\n(call receiver: (scope_resolution name: (constant) @callee) method: (identifier) @method (#eq? @method \"new\"))\n"@,
        Lang::Php => "(object_creation_expression (name) @callee)\n(object_creation_expression (qualified_name (name) @callee))\n"@,
        Lang::Swift => "(constructor_expression constructed_type: (user_type (type_identifier) @callee))\n"@,
        Lang::Kotlin => ""@,
        Lang::CSharp => "(object_creation_expression type: (identifier) @callee)\n(object_creation_expression type: (generic_name (identifier) @callee))\n(object_creation_expression type: (qualified_name name: (identifier) @callee))\n"@,
        Lang::Elixir => "(struct (alias) @callee)\n"@,
        Lang::Dockerfile => ""@,
        Lang::Make => ""@,
    }
}

/// The query for expressions that construct a value of a type.
pub fn constructor_query_str(lang: Lang) -> (r: &'static str)
    ensures
        r@ == constructor_query(lang),
{
    match lang {
        Lang::Rust => "(struct_expression name: (type_identifier) @callee)\n(struct_expression name: (scoped_type_identifier name: (type_identifier) @callee))\n(struct_expression name: (generic_type_with_turbofish type: (type_identifier) @callee))\n",
        Lang::TypeScript => "(new_expression constructor: (identifier) @callee)\n(new_expression constructor: (member_expression property: (property_identifier) @callee))\n",
        Lang::Tsx => "(new_expression constructor: (identifier) @callee)\n(new_expression constructor: (member_expression property: (property_identifier) @callee))\n",
        Lang::JavaScript => "(new_expression constructor: (identifier) @callee)\n(new_expression constructor: (member_expression property: (property_identifier) @callee))\n",
        Lang::Python => "",
        Lang::Go => "(composite_literal type: (type_identifier) @callee)\n(composite_literal type: (qualified_type name: (type_identifier) @callee))\n(composite_literal type: (generic_type type: (type_identifier) @callee))\n",
        Lang::Java => "(object_creation_expression type: (type_identifier) @callee)\n(object_creation_expression type: (generic_type (type_identifier) @callee))\n(object_creation_expression type: (scoped_type_identifier (type_identifier) @callee .))\n",
        Lang::Scala => "(instance_expression (type_identifier) @callee)\n(instance_expression (generic_type type: (type_identifier) @callee))\n",
        Lang::C => "(compound_literal_expression type: (type_descriptor type: (type_identifier) @callee))\n(compound_literal_expression type: (type_descriptor type: (struct_specifier name: (type_identifier) @callee)))\n",
        Lang::Cpp => "(new_expression type: (type_identifier) @callee)\n(new_expression type: (template_type name: (type_identifier) @callee))\n(new_expression type: (qualified_identifier name: (type_identifier) @callee))\n(compound_literal_expression type: (type_identifier) @callee)\n(compound_literal_expression type: (template_type name: (type_identifier) @callee))\n(compound_literal_expression type: (qualified_identifier name: (type_identifier) @callee))\n",
        Lang::Ruby => "(call receiver: (constant) @callee method: (identifier) @method (#eq? @method \"new\"))\n(call receiver: (scope_resolution name: (constant) @callee) method: (identifier) @method (#eq? @method \"new\"))\n",
        Lang::Php => "(object_creation_expression (name) @callee)\n(object_creation_expression (qualified_name (name) @callee))\n",
        Lang::Swift => "(constructor_expression constructed_type: (user_type (type_identifier) @callee))\n",
        Lang::Kotlin => "",
        Lang::CSharp => "(object_creation_expression type: (identifier) @callee)\n(object_creation_expression type: (generic_name (identifier) @callee))\n(object_creation_expression type: (qualified_name name: (identifier) @callee))\n",
        Lang::Elixir => "(struct (alias) @callee)\n",
        Lang::Dockerfile => "",
        Lang::Make => "",
    }
}

/// The query for what counts as a use by a caller: calls, and expressions that construct
/// a value.
pub open spec fn caller_query(lang: Lang) -> Option<Seq<char>> {
    match callee_query(lang) {
        Some(q) => Some(q + constructor_query(lang)),
        None => None,
    }
}

/// The query for what counts as a use by a caller.
pub fn caller_query_str(lang: Lang) -> (r: Option<String>)
    ensures
        opt_text(r) == caller_query(lang),
{
    match callee_query_str(lang) {
        Some(q) => {
            let mut s = q.to_owned();
            s.append(constructor_query_str(lang));
            Some(s)
        },
        None => None,
    }
}

/// What the query of the language finds in the content.
pub open spec fn matches_in(content: Seq<char>, lang: Lang, query: Seq<char>) -> Seq<Seq<CaptureView>> {
    match grammar_of(lang) {
        Some(g) => if parsed(g, content) is Some {
            found_matches(g, query, content)
        } else {
            Seq::empty()
        },
        None => Seq::empty(),
    }
}

/// What the query finds in the content.
pub fn find_matches(content: &str, lang: Lang, query: &str) -> (r: Vec<Vec<CaptureRecord>>)
    ensures
        matches_view(r@) == matches_in(content@, lang, query@),
{
    if let Some(g) = outline_language(lang) {
        if let Some(tree) = parse(&g, content) {
            return run_query(&g, query, &tree, content);
        }
    }
    let r: Vec<Vec<CaptureRecord>> = Vec::new();
    assert(matches_view(r@) =~= Seq::<Seq<CaptureView>>::empty());
    r
}

/// The line is in the range, where there is one.
pub open spec fn in_lines(row: int, range: Option<(u32, u32)>) -> bool {
    match range {
        Some((start, end)) => start <= line_number(row) <= end,
        None => true,
    }
}

/// The texts of the captures among the first `n` of that name and in the range.
pub open spec fn capture_texts(
    m: Seq<CaptureView>,
    name: Seq<char>,
    range: Option<(u32, u32)>,
    n: int,
) -> Seq<Seq<char>>
    decreases n,
{
    if n <= 0 {
        Seq::empty()
    } else {
        let r = capture_texts(m, name, range, n - 1);
        let c = m[n - 1];
        if c.name == name && in_lines(c.start_row, range) && c.text is Some {
            r.push(c.text->0)
        } else {
            r
        }
    }
}

/// The texts of the captures in the first `n` matches.
pub open spec fn match_texts(
    ms: Seq<Seq<CaptureView>>,
    name: Seq<char>,
    range: Option<(u32, u32)>,
    n: int,
) -> Seq<Seq<char>>
    decreases n,
{
    if n <= 0 {
        Seq::empty()
    } else {
        match_texts(ms, name, range, n - 1) + capture_texts(
            ms[n - 1],
            name,
            range,
            ms[n - 1].len() as int,
        )
    }
}

/// Appends the texts of the captures of that name and in the range.
pub fn push_capture_texts(
    out: &mut Vec<String>,
    m: &Vec<CaptureRecord>,
    name: &str,
    range: Option<(u32, u32)>,
)
    ensures
        strs(final(out)@) == strs(old(out)@) + capture_texts(
            captures_view(m@),
            name@,
            range,
            m@.len() as int,
        ),
{
    broadcast use lemma_strs_push;

    let ghost c = captures_view(m@);
    let ghost start = strs(out@);
    let mut i: usize = 0;
    assert(start + capture_texts(c, name@, range, 0) =~= start);
    while i < m.len()
        invariant
            i <= m@.len(),
            c == captures_view(m@),
            strs(out@) == start + capture_texts(c, name@, range, i as int),
        decreases m@.len() - i,
    {
        let x = &m[i];
        assert(c[i as int] == x@);
        let line: u32 = line_of_row(x.start_row);
        let inside = match range {
            Some((a, b)) => a <= line && line <= b,
            None => true,
        };
        if same_text(x.name.as_str(), name) && inside {
            if let Some(t) = &x.text {
                let ghost before = capture_texts(c, name@, range, i as int);
                out.push(t.clone());
                assert((start + before).push(t@) =~= start + before.push(t@));
            }
        }
        i = i + 1;
    }
}

/// The word defines or imports something in Elixir, where that looks like a call.
pub open spec fn elixir_keyword(name: Seq<char>) -> bool {
    name == "def"@ || name == "defp"@ || name == "defmodule"@ || name == "defmacro"@ || name == "defmacrop"@ || name == "defguard"@ || name == "defguardp"@ || name == "defdelegate"@ || name == "defstruct"@ || name == "defexception"@ || name == "defprotocol"@ || name == "defimpl"@ || name == "defoverridable"@ || name == "use"@ || name == "import"@ || name == "alias"@ || name == "require"@
}

/// Whether the word defines or imports something in Elixir.
pub fn is_elixir_keyword(name: &str) -> (r: bool)
    ensures
        r == elixir_keyword(name@),
{
    same_text(name, "def") || same_text(name, "defp") || same_text(name, "defmodule") || same_text(name, "defmacro") || same_text(name, "defmacrop") || same_text(name, "defguard") || same_text(name, "defguardp") || same_text(name, "defdelegate") || same_text(name, "defstruct") || same_text(name, "defexception") || same_text(name, "defprotocol") || same_text(name, "defimpl") || same_text(name, "defoverridable") || same_text(name, "use") || same_text(name, "import") || same_text(name, "alias") || same_text(name, "require")
}

/// The names of the functions that are called in the range of lines, in order and
/// each once.
pub open spec fn callee_names(content: Seq<char>, lang: Lang, range: Option<(u32, u32)>) -> Seq<
    Seq<char>,
> {
    match callee_query(lang) {
        None => Seq::empty(),
        Some(q) => {
            let ms = matches_in(content, lang, q);
            let names = sorted_names(match_texts(ms, "callee"@, range, ms.len() as int));
            if lang == Lang::Elixir {
                names.filter(|n: Seq<char>| !elixir_keyword(n))
            } else {
                names
            }
        },
    }
}

fn drop_keywords(names: Vec<String>) -> (r: Vec<String>)
    ensures
        strs(r@) == strs(names@).filter(|n: Seq<char>| !elixir_keyword(n)),
{
    broadcast use lemma_strs_push;

    let ghost all = strs(names@);
    let ghost keep = |n: Seq<char>| !elixir_keyword(n);
    let mut r: Vec<String> = Vec::new();
    let mut i: usize = 0;
    proof {
        reveal(Seq::filter);
        assert(strs(r@) =~= all.take(0).filter(keep));
    }
    while i < names.len()
        invariant
            i <= names@.len(),
            all == strs(names@),
            keep == (|n: Seq<char>| !elixir_keyword(n)),
            strs(r@) == all.take(i as int).filter(keep),
        decreases names@.len() - i,
    {
        proof {
            reveal(Seq::filter);
            assert(all.take(i + 1).drop_last() =~= all.take(i as int));
            assert(all.take(i + 1).last() == names@[i as int]@);
        }
        if !is_elixir_keyword(names[i].as_str()) {
            r.push(names[i].clone());
        }
        i = i + 1;
    }
    assert(all.take(names@.len() as int) =~= all);
    r
}

/// The names of the functions that are called in the range of lines.
pub fn extract_callee_names(content: &str, lang: Lang, def_range: Option<(u32, u32)>) -> (r: Vec<
    String,
>)
    ensures
        strs(r@) == callee_names(content@, lang, def_range),
{
    let mut names: Vec<String> = Vec::new();
    assert(strs(names@) =~= Seq::<Seq<char>>::empty());
    let query = match callee_query_str(lang) {
        Some(q) => q,
        None => {
            return names;
        },
    };
    let matches = find_matches(content, lang, query);
    let ghost ms = matches_view(matches@);
    let mut i: usize = 0;
    while i < matches.len()
        invariant
            i <= matches@.len(),
            ms == matches_view(matches@),
            strs(names@) == match_texts(ms, "callee"@, def_range, i as int),
        decreases matches@.len() - i,
    {
        assert(ms[i as int] == captures_view(matches@[i as int]@));
        push_capture_texts(&mut names, &matches[i], "callee", def_range);
        i = i + 1;
    }
    let sorted = sorted_names_of(&names);
    if lang == Lang::Elixir {
        drop_keywords(sorted)
    } else {
        sorted
    }
}

// ---------------------------------------------------------------------------
// Definitions
// ---------------------------------------------------------------------------

/// The sequence without its first element that equals `x`.
pub open spec fn without(s: Seq<Seq<char>>, x: Seq<char>) -> Seq<Seq<char>>
    decreases s.len(),
{
    if s.len() == 0 {
        s
    } else if s[0] == x {
        s.drop_first()
    } else {
        seq![s[0]] + without(s.drop_first(), x)
    }
}

/// What is still to be resolved and what is resolved.
pub struct ResolveView {
    pub remaining: Seq<Seq<char>>,
    pub resolved: Seq<CalleeView>,
}

/// The callee that an entry of the file defines.
pub open spec fn callee_at(e: EntryView, file: Seq<char>) -> CalleeView {
    CalleeView {
        name: e.name,
        file,
        start_line: e.start_line,
        end_line: e.end_line,
        signature: e.signature,
    }
}

/// The entry resolves its name, where that remains.
pub open spec fn resolve_entry(s: ResolveView, e: EntryView, file: Seq<char>) -> ResolveView {
    if s.remaining.contains(e.name) {
        ResolveView {
            remaining: without(s.remaining, e.name),
            resolved: s.resolved.push(callee_at(e, file)),
        }
    } else {
        s
    }
}

/// Each of the entries resolves its name.
pub open spec fn resolve_flat(s: ResolveView, entries: Seq<EntryView>, file: Seq<char>) -> ResolveView
    decreases entries.len(),
{
    if entries.len() == 0 {
        s
    } else {
        resolve_entry(resolve_flat(s, entries.drop_last(), file), entries.last(), file)
    }
}

/// Each of the entries and then its children resolve their names.
pub open spec fn resolve_entries(s: ResolveView, entries: Seq<EntryView>, file: Seq<char>) -> ResolveView
    decreases entries.len(),
{
    if entries.len() == 0 {
        s
    } else {
        let e = entries.last();
        resolve_flat(
            resolve_entry(resolve_entries(s, entries.drop_last(), file), e, file),
            e.children,
            file,
        )
    }
}

fn remove_name(v: &mut Vec<String>, name: &str)
    ensures
        strs(final(v)@) == without(strs(old(v)@), name@),
{
    let ghost s = strs(v@);
    let mut i: usize = 0;
    assert(s.skip(0) =~= s);
    assert(s.take(0) + without(s, name@) =~= without(s, name@));
    while i < v.len()
        invariant
            i <= v@.len(),
            s == strs(v@),
            s == strs(old(v)@),
            without(s, name@) == s.take(i as int) + without(s.skip(i as int), name@),
        decreases v@.len() - i,
    {
        let ghost rest = s.skip(i as int);
        assert(rest[0] == v@[i as int]@);
        assert(rest.drop_first() =~= s.skip(i + 1));
        if same_text(v[i].as_str(), name) {
            let _ = v.remove(i);
            assert(strs(v@) =~= s.take(i as int) + s.skip(i + 1));
            return ;
        }
        assert(s.take(i as int) + (seq![rest[0]] + without(s.skip(i + 1), name@)) =~= s.take(i + 1)
            + without(s.skip(i + 1), name@));
        i = i + 1;
    }
    assert(without(s.skip(i as int), name@) =~= Seq::empty());
    assert(s.take(i as int) + Seq::<Seq<char>>::empty() =~= s);
}

fn resolve_one(
    e: &OutlineEntry,
    file_path: &str,
    remaining: &mut Vec<String>,
    resolved: &mut Vec<ResolvedCallee>,
)
    ensures
        (ResolveView {
            remaining: strs(final(remaining)@),
            resolved: callees_view(final(resolved)@),
        }) == resolve_entry(
            ResolveView {
                remaining: strs(old(remaining)@),
                resolved: callees_view(old(resolved)@),
            },
            e@,
            file_path@,
        ),
{
    if has_string(remaining.as_slice(), e.name.as_str()) {
        remove_name(remaining, e.name.as_str());
        let c = ResolvedCallee {
            name: e.name.clone(),
            file: file_path.to_owned(),
            start_line: e.start_line,
            end_line: e.end_line,
            signature: clone_opt(&e.signature),
        };
        let ghost before = resolved@;
        resolved.push(c);
        assert(callees_view(resolved@) =~= callees_view(before).push(c@));
    }
}

/// Resolves the names that the entries of a file define.
pub fn resolve_from_entries(
    entries: &[OutlineEntry],
    file_path: &str,
    remaining: &mut Vec<String>,
    resolved: &mut Vec<ResolvedCallee>,
)
    ensures
        (ResolveView {
            remaining: strs(final(remaining)@),
            resolved: callees_view(final(resolved)@),
        }) == resolve_entries(
            ResolveView {
                remaining: strs(old(remaining)@),
                resolved: callees_view(old(resolved)@),
            },
            entries_view(entries@),
            file_path@,
        ),
{
    let ghost es = entries_view(entries@);
    let ghost s0 = ResolveView {
        remaining: strs(remaining@),
        resolved: callees_view(resolved@),
    };
    let mut i: usize = 0;
    assert(es.take(0) =~= Seq::<EntryView>::empty());
    assert(resolve_entries(s0, es.take(0), file_path@) == s0);
    while i < entries.len()
        invariant
            i <= entries@.len(),
            es == entries_view(entries@),
            (ResolveView {
                remaining: strs(remaining@),
                resolved: callees_view(resolved@),
            }) == resolve_entries(s0, es.take(i as int), file_path@),
        decreases entries@.len() - i,
    {
        let e = &entries[i];
        assert(es.take(i + 1).drop_last() =~= es.take(i as int));
        assert(es.take(i + 1).last() == e@);
        resolve_one(e, file_path, remaining, resolved);
        let ghost s1 = ResolveView {
            remaining: strs(remaining@),
            resolved: callees_view(resolved@),
        };
        let ghost kids = entries_view(e.children@);
        proof {
            crate::types::lemma_children(*e);
            assert(kids.take(0) =~= Seq::<EntryView>::empty());
            assert(resolve_flat(s1, kids.take(0), file_path@) == s1);
        }
        let mut j: usize = 0;
        while j < e.children.len()
            invariant
                j <= e.children@.len(),
                kids == entries_view(e.children@),
                (ResolveView {
                    remaining: strs(remaining@),
                    resolved: callees_view(resolved@),
                }) == resolve_flat(s1, kids.take(j as int), file_path@),
            decreases e.children@.len() - j,
        {
            assert(kids.take(j + 1).drop_last() =~= kids.take(j as int));
            assert(kids.take(j + 1).last() == e.children@[j as int]@);
            resolve_one(&e.children[j], file_path, remaining, resolved);
            j = j + 1;
        }
        assert(kids.take(e.children@.len() as int) =~= kids);
        i = i + 1;
    }
    assert(es.take(entries@.len() as int) =~= es);
}

/// Resolves the names that a file defines.
pub fn resolve_in_content(
    content: &str,
    lang: Lang,
    file_path: &str,
    remaining: &mut Vec<String>,
    resolved: &mut Vec<ResolvedCallee>,
)
    ensures
        (ResolveView {
            remaining: strs(final(remaining)@),
            resolved: callees_view(final(resolved)@),
        }) == resolve_entries(
            ResolveView {
                remaining: strs(old(remaining)@),
                resolved: callees_view(old(resolved)@),
            },
            outline_of(content@, lang),
            file_path@,
        ),
{
    let entries = get_outline_entries(content, lang);
    resolve_from_entries(entries.as_slice(), file_path, remaining, resolved);
}

/// Every name that was to be resolved is resolved once or remains.
pub proof fn law_resolved_or_remaining(s: ResolveView, entries: Seq<EntryView>, file: Seq<char>)
    ensures
        resolve_entries(s, entries, file).remaining.len() + resolve_entries(
            s,
            entries,
            file,
        ).resolved.len() == s.remaining.len() + s.resolved.len(),
    decreases entries.len(),
{
    if entries.len() > 0 {
        let e = entries.last();
        law_resolved_or_remaining(s, entries.drop_last(), file);
        let a = resolve_entries(s, entries.drop_last(), file);
        lemma_resolve_count(a, e, file);
        lemma_flat_count(resolve_entry(a, e, file), e.children, file);
    }
}

proof fn lemma_without(s: Seq<Seq<char>>, x: Seq<char>)
    requires
        s.contains(x),
    ensures
        without(s, x).len() == s.len() - 1,
    decreases s.len(),
{
    if s[0] != x {
        let k = choose|k: int| 0 <= k < s.len() && s[k] == x;
        assert(s.drop_first()[k - 1] == x);
        lemma_without(s.drop_first(), x);
    }
}

proof fn lemma_resolve_count(s: ResolveView, e: EntryView, file: Seq<char>)
    ensures
        resolve_entry(s, e, file).remaining.len() + resolve_entry(s, e, file).resolved.len()
            == s.remaining.len() + s.resolved.len(),
{
    if s.remaining.contains(e.name) {
        lemma_without(s.remaining, e.name);
    }
}

proof fn lemma_flat_count(s: ResolveView, entries: Seq<EntryView>, file: Seq<char>)
    ensures
        resolve_flat(s, entries, file).remaining.len() + resolve_flat(s, entries, file).resolved.len()
            == s.remaining.len() + s.resolved.len(),
    decreases entries.len(),
{
    if entries.len() > 0 {
        lemma_flat_count(s, entries.drop_last(), file);
        lemma_resolve_count(resolve_flat(s, entries.drop_last(), file), entries.last(), file);
    }
}

// ---------------------------------------------------------------------------
// Files of one package
// ---------------------------------------------------------------------------

/// The largest number of files of a package that are looked into.
pub const MAX_PACKAGE_FILES: usize = 20;

/// The largest size of such a file.
pub const MAX_PACKAGE_FILE_SIZE: u64 = 100_000;

/// A file of a directory.
#[derive(Debug)]
pub struct DirFile {
    pub path: String,
    pub size: u64,
}

/// What a file says.
pub struct DirFileView {
    pub path: Seq<char>,
    pub size: u64,
}

impl View for DirFile {
    type V = DirFileView;

    open spec fn view(&self) -> DirFileView {
        DirFileView { path: self.path@, size: self.size }
    }
}

/// What the files of a list say.
pub open spec fn dir_view(v: Seq<DirFile>) -> Seq<DirFileView> {
    v.map_values(|f: DirFile| f@)
}

/// The file is a Go file of the same package: another one, no test, not too large.
pub open spec fn is_package_file(f: DirFileView, source: Seq<char>) -> bool {
    &&& !same_path(f.path, source)
    &&& f.size <= MAX_PACKAGE_FILE_SIZE
    &&& match file_name(f.path) {
        Some(n) => ".go"@.is_suffix_of(n) && !"_test.go"@.is_suffix_of(n),
        None => false,
    }
}

/// The order of paths.
pub open spec fn path_order() -> spec_fn(Seq<char>, Seq<char>) -> bool {
    |a: Seq<char>, b: Seq<char>| path_le(a, b)
}

/// The paths of the files of the package among the first `n`.
pub open spec fn package_paths(files: Seq<DirFileView>, source: Seq<char>, n: int) -> Seq<Seq<char>>
    decreases n,
{
    if n <= 0 {
        Seq::empty()
    } else {
        let r = package_paths(files, source, n - 1);
        if is_package_file(files[n - 1], source) {
            r.push(files[n - 1].path)
        } else {
            r
        }
    }
}

/// The files of the package to look into: the first ones by their paths.
pub open spec fn package_files(files: Seq<DirFileView>, source: Seq<char>) -> Seq<Seq<char>> {
    let s = stable_sort(package_paths(files, source, files.len() as int), path_order());
    if s.len() > MAX_PACKAGE_FILES {
        s.take(MAX_PACKAGE_FILES as int)
    } else {
        s
    }
}

pub open spec fn string_path_le() -> spec_fn(String, String) -> bool {
    |a: String, b: String| path_le(a@, b@)
}

pub fn string_paths_ordered(a: &String, b: &String) -> (r: bool)
    ensures
        r == string_path_le()(*a, *b),
{
    paths_ordered(a.as_str(), b.as_str())
}

/// The files of the package to look into.
pub fn go_package_files(files: &[DirFile], source_path: &str) -> (r: Vec<String>)
    ensures
        strs(r@) == package_files(dir_view(files@), source_path@),
{
    broadcast use lemma_strs_push;

    let ghost d = dir_view(files@);
    let mut r: Vec<String> = Vec::new();
    let mut i: usize = 0;
    assert(strs(r@) =~= Seq::<Seq<char>>::empty());
    while i < files.len()
        invariant
            i <= files@.len(),
            d == dir_view(files@),
            strs(r@) == package_paths(d, source_path@, i as int),
        decreases files@.len() - i,
    {
        let f = &files[i];
        assert(d[i as int] == f@);
        let named = match file_name_of(f.path.as_str()) {
            Some(n) => {
                let s = chars_of(n.as_str());
                has_suffix(s.as_slice(), ".go") && !has_suffix(s.as_slice(), "_test.go")
            },
            None => false,
        };
        if named && f.size <= MAX_PACKAGE_FILE_SIZE && !equal_paths(f.path.as_str(), source_path) {
            r.push(f.path.clone());
        }
        i = i + 1;
    }
    proof {
        lemma_sort_map(r@, |s: String| s@, string_path_le(), path_order());
    }
    sort_by(&mut r, string_paths_ordered, Ghost(string_path_le()));
    let ghost s = strs(r@);
    if r.len() > MAX_PACKAGE_FILES {
        r.truncate(MAX_PACKAGE_FILES);
        assert(strs(r@) =~= s.take(MAX_PACKAGE_FILES as int));
    }
    r
}

// ---------------------------------------------------------------------------
// The second hop
// ---------------------------------------------------------------------------

/// A definition by its place.
#[derive(Debug)]
pub struct Place {
    pub file: String,
    pub line: u32,
}

/// What a place says.
pub struct PlaceView {
    pub file: Seq<char>,
    pub line: u32,
}

impl View for Place {
    type V = PlaceView;

    open spec fn view(&self) -> PlaceView {
        PlaceView { file: self.file@, line: self.line }
    }
}

/// What the places of a list say.
pub open spec fn places_view(v: Seq<Place>) -> Seq<PlaceView> {
    v.map_values(|p: Place| p@)
}

/// The place is among the places.
pub open spec fn is_known(v: Seq<PlaceView>, file: Seq<char>, line: u32) -> bool {
    exists|i: int|
        0 <= i < v.len() && (#[trigger] v[i]).line == line && same_path(v[i].file, file)
}

/// The callee may be a child: it is neither the parent nor known.
pub open spec fn is_new_child(c: CalleeView, parent: CalleeView, known: Seq<PlaceView>) -> bool {
    !(same_path(c.file, parent.file) && c.start_line == parent.start_line) && !is_known(
        known,
        c.file,
        c.start_line,
    )
}

/// Those of the first `n` callees that may be children.
pub open spec fn new_children(
    cs: Seq<CalleeView>,
    parent: CalleeView,
    known: Seq<PlaceView>,
    n: int,
) -> Seq<CalleeView>
    decreases n,
{
    if n <= 0 {
        Seq::empty()
    } else {
        let r = new_children(cs, parent, known, n - 1);
        if is_new_child(cs[n - 1], parent, known) {
            r.push(cs[n - 1])
        } else {
            r
        }
    }
}

/// The children that a parent gets: those that may be, as far as the budget goes.
pub open spec fn children_within(
    cs: Seq<CalleeView>,
    parent: CalleeView,
    known: Seq<PlaceView>,
    budget: int,
) -> Seq<CalleeView> {
    let r = new_children(cs, parent, known, cs.len() as int);
    if r.len() > budget {
        r.take(budget)
    } else {
        r
    }
}

/// The places of the callees.
pub open spec fn places_of(cs: Seq<CalleeView>) -> Seq<PlaceView> {
    cs.map_values(|c: CalleeView| PlaceView { file: c.file, line: c.start_line })
}

/// What is known and how many more children there may be.
#[derive(Debug)]
pub struct SecondHop {
    pub known: Vec<Place>,
    pub budget: usize,
}

fn knows(v: &Vec<Place>, file: &str, line: u32) -> (r: bool)
    ensures
        r == is_known(places_view(v@), file@, line),
{
    let ghost p = places_view(v@);
    let mut i: usize = 0;
    while i < v.len()
        invariant
            i <= v@.len(),
            p == places_view(v@),
            forall|j: int|
                0 <= j < i ==> !((#[trigger] p[j]).line == line && same_path(p[j].file, file@)),
        decreases v@.len() - i,
    {
        assert(p[i as int] == v@[i as int]@);
        if v[i].line == line && equal_paths(v[i].file.as_str(), file) {
            return true;
        }
        i = i + 1;
    }
    false
}

fn add_places(v: &mut Vec<Place>, cs: &Vec<ResolvedCallee>)
    ensures
        places_view(final(v)@) == places_view(old(v)@) + places_of(callees_view(cs@)),
{
    let ghost start = places_view(v@);
    let ghost all = places_of(callees_view(cs@));
    let mut i: usize = 0;
    assert(start + all.take(0) =~= start);
    while i < cs.len()
        invariant
            i <= cs@.len(),
            all == places_of(callees_view(cs@)),
            places_view(v@) == start + all.take(i as int),
        decreases cs@.len() - i,
    {
        let ghost before = v@;
        let p = Place { file: cs[i].file.clone(), line: cs[i].start_line };
        let ghost pv = p@;
        v.push(p);
        proof {
            assert(callees_view(cs@)[i as int] == cs@[i as int]@);
            assert(all[i as int] == pv);
            assert(places_view(v@) =~= places_view(before).push(pv));
            assert((start + all.take(i as int)).push(pv) =~= start + all.take(i + 1));
        }
        i = i + 1;
    }
    assert(all.take(cs@.len() as int) =~= all);
}

impl SecondHop {
    /// A second hop after the callees of the first, with at most `budget` children.
    pub fn new(first_hop: &Vec<ResolvedCallee>, budget: usize) -> (r: Self)
        ensures
            places_view(r.known@) == places_of(callees_view(first_hop@)),
            r.budget == budget,
    {
        let mut known: Vec<Place> = Vec::new();
        assert(places_view(known@) =~= Seq::<PlaceView>::empty());
        add_places(&mut known, first_hop);
        assert(Seq::<PlaceView>::empty() + places_of(callees_view(first_hop@)) =~= places_of(
            callees_view(first_hop@),
        ));
        SecondHop { known, budget }
    }

    /// The children that the parent gets of the callees that were resolved for it.
    /// They are known from now on, and the budget is less by their number.
    pub fn resolve_second_hop(
        &mut self,
        parent: &ResolvedCallee,
        resolved: Vec<ResolvedCallee>,
    ) -> (r: Vec<ResolvedCallee>)
        ensures
            callees_view(r@) == children_within(
                callees_view(resolved@),
                parent@,
                places_view(old(self).known@),
                old(self).budget as int,
            ),
            places_view(final(self).known@) == places_view(old(self).known@) + places_of(
                callees_view(r@),
            ),
            final(self).budget == old(self).budget - r@.len(),
    {
        let ghost cs = callees_view(resolved@);
        let ghost known = places_view(self.known@);
        let n: usize = resolved.len();
        let mut left = resolved;
        let mut r: Vec<ResolvedCallee> = Vec::new();
        let mut i: usize = 0;
        assert(callees_view(r@) =~= Seq::<CalleeView>::empty());
        assert(cs.skip(0) =~= cs);
        while i < n
            invariant
                i <= n,
                n == cs.len(),
                left@.len() == n - i,
                callees_view(left@) == cs.skip(i as int),
                known == places_view(self.known@),
                callees_view(r@) == new_children(cs, parent@, known, i as int),
                self.budget == old(self).budget,
                self.known@ == old(self).known@,
            decreases n - i,
        {
            let ghost was = left@;
            let c = left.remove(0);
            let ghost cv = c@;
            let ghost before = callees_view(r@);
            proof {
                assert(callees_view(was)[0] == cv);
                assert(cs.skip(i as int)[0] == cs[i as int]);
                assert(callees_view(left@) =~= callees_view(was).skip(1));
                assert(cs.skip(i as int).skip(1) =~= cs.skip(i + 1));
            }
            let own = equal_paths(c.file.as_str(), parent.file.as_str()) && c.start_line
                == parent.start_line;
            if !own && !knows(&self.known, c.file.as_str(), c.start_line) {
                r.push(c);
                assert(callees_view(r@) =~= before.push(cv));
            }
            i = i + 1;
        }
        let ghost all = callees_view(r@);
        if r.len() > self.budget {
            r.truncate(self.budget);
            assert(callees_view(r@) =~= all.take(self.budget as int));
        }
        add_places(&mut self.known, &r);
        self.budget = self.budget - r.len();
        r
    }
}

/// The children of all parents together are no more than the budget, and none of
/// them was known before.
pub proof fn law_children_within_budget(
    cs: Seq<CalleeView>,
    parent: CalleeView,
    known: Seq<PlaceView>,
    budget: int,
)
    requires
        0 <= budget,
    ensures
        children_within(cs, parent, known, budget).len() <= budget,
        forall|i: int|
            0 <= i < children_within(cs, parent, known, budget).len() ==> is_new_child(
                #[trigger] children_within(cs, parent, known, budget)[i],
                parent,
                known,
            ),
{
    lemma_new_children(cs, parent, known, cs.len() as int);
}

proof fn lemma_new_children(
    cs: Seq<CalleeView>,
    parent: CalleeView,
    known: Seq<PlaceView>,
    n: int,
)
    ensures
        forall|i: int|
            0 <= i < new_children(cs, parent, known, n).len() ==> is_new_child(
                #[trigger] new_children(cs, parent, known, n)[i],
                parent,
                known,
            ),
    decreases n,
{
    if n > 0 {
        lemma_new_children(cs, parent, known, n - 1);
        let r = new_children(cs, parent, known, n - 1);
        let all = new_children(cs, parent, known, n);
        assert forall|i: int| 0 <= i < all.len() implies is_new_child(
            #[trigger] all[i],
            parent,
            known,
        ) by {
            if i < r.len() {
                assert(all[i] == r[i]);
            }
        }
    }
}

/// The entry is one of the outline, or a child of one.
pub open spec fn listed(entries: Seq<EntryView>, e: EntryView) -> bool {
    entries.contains(e) || exists|i: int|
        0 <= i < entries.len() && (#[trigger] entries[i]).children.contains(e)
}

/// The callee is what the entry of the file defines.
pub open spec fn defined_by(c: CalleeView, e: EntryView, file: Seq<char>) -> bool {
    &&& c.name == e.name
    &&& c.file == file
    &&& c.start_line == e.start_line
    &&& c.end_line == e.end_line
    &&& c.signature == e.signature
}

proof fn lemma_without_members(s: Seq<Seq<char>>, x: Seq<char>)
    requires
        s.no_duplicates(),
    ensures
        without(s, x).no_duplicates(),
        forall|y: Seq<char>| #[trigger] without(s, x).contains(y) <==> s.contains(y) && y != x,
    decreases s.len(),
{
    if s.len() > 0 {
        let t = s.drop_first();
        assert(t.no_duplicates()) by {
            assert forall|i: int, j: int| 0 <= i < t.len() && 0 <= j < t.len() && i != j implies t[i]
                != t[j] by {
                assert(s[i + 1] != s[j + 1]);
            }
        }
        lemma_without_members(t, x);
        let r = without(s, x);
        assert forall|y: Seq<char>| s.contains(y) <==> y == s[0] || #[trigger] t.contains(y) by {
            if s.contains(y) {
                let k = choose|k: int| 0 <= k < s.len() && s[k] == y;
                if k > 0 {
                    assert(t[k - 1] == y);
                }
            }
            if t.contains(y) {
                let k = choose|k: int| 0 <= k < t.len() && t[k] == y;
                assert(s[k + 1] == y);
            }
        }
        assert(!t.contains(s[0])) by {
            if t.contains(s[0]) {
                let k = choose|k: int| 0 <= k < t.len() && t[k] == s[0];
                assert(s[k + 1] == s[0]);
            }
        }
        if s[0] == x {
            assert forall|y: Seq<char>| #[trigger] r.contains(y) <==> s.contains(y) && y != x by {
                assert(t.contains(y) || !t.contains(y));
            }
        } else {
            let q = without(t, x);
            assert(r =~= seq![s[0]] + q);
            assert forall|y: Seq<char>| #[trigger] r.contains(y) <==> s.contains(y) && y != x by {
                assert(q.contains(y) <==> t.contains(y) && y != x);
                if r.contains(y) {
                    let k = choose|k: int| 0 <= k < r.len() && r[k] == y;
                    if k > 0 {
                        assert(q[k - 1] == y);
                    }
                }
                if q.contains(y) {
                    let k = choose|k: int| 0 <= k < q.len() && q[k] == y;
                    assert(r[k + 1] == y);
                }
                assert(r[0] == s[0]);
            }
            assert forall|i: int, j: int| 0 <= i < r.len() && 0 <= j < r.len() && i != j implies r[i]
                != r[j] by {
                if i > 0 && j > 0 {
                    assert(q[i - 1] != q[j - 1]);
                } else if i > 0 {
                    assert(q.contains(q[i - 1]));
                } else {
                    assert(q.contains(q[j - 1]));
                }
            }
        }
    }
}

/// How what is resolved grows: `pool` are the entries that were looked at.
spec fn resolves(s: ResolveView, r: ResolveView, pool: Set<EntryView>, file: Seq<char>) -> bool {
    &&& r.remaining.no_duplicates()
    &&& s.resolved.is_prefix_of(r.resolved)
    &&& forall|y: Seq<char>| #[trigger]
        r.remaining.contains(y) ==> s.remaining.contains(y) && forall|e: EntryView| #[trigger]
            pool.contains(e) ==> e.name != y
    &&& forall|y: Seq<char>| #[trigger]
        s.remaining.contains(y) ==> r.remaining.contains(y) || exists|k: int|
            s.resolved.len() <= k < r.resolved.len() && (#[trigger] r.resolved[k]).name == y
    &&& forall|k: int|
        s.resolved.len() <= k < r.resolved.len() ==> s.remaining.contains(
            (#[trigger] r.resolved[k]).name,
        ) && exists|e: EntryView| #[trigger]
            pool.contains(e) && defined_by(r.resolved[k], e, file)
}

proof fn lemma_resolves_step(
    s: ResolveView,
    q: ResolveView,
    pool: Set<EntryView>,
    e: EntryView,
    file: Seq<char>,
)
    requires
        resolves(s, q, pool, file),
    ensures
        resolves(s, resolve_entry(q, e, file), pool.insert(e), file),
{
    let r = resolve_entry(q, e, file);
    let more = pool.insert(e);
    assert forall|k: int| 0 <= k < s.resolved.len() implies s.resolved[k] == r.resolved[k] by {
        assert(q.resolved.subrange(0, s.resolved.len() as int)[k] == q.resolved[k]);
    }
    assert(s.resolved =~= r.resolved.subrange(0, s.resolved.len() as int));
    lemma_without_members(q.remaining, e.name);
    assert forall|y: Seq<char>| #[trigger] r.remaining.contains(y) implies s.remaining.contains(y)
        && forall|x: EntryView| #[trigger] more.contains(x) ==> x.name != y by {
        assert(q.remaining.contains(y));
        assert forall|x: EntryView| #[trigger] more.contains(x) implies x.name != y by {
            if x != e {
                assert(pool.contains(x));
            }
        }
    }
    assert forall|y: Seq<char>| #[trigger] s.remaining.contains(y) implies r.remaining.contains(y)
        || exists|k: int|
        s.resolved.len() <= k < r.resolved.len() && (#[trigger] r.resolved[k]).name == y by {
        if q.remaining.contains(y) {
            if y == e.name {
                assert(r.resolved[q.resolved.len() as int].name == y);
            } else if q.remaining.contains(e.name) {
                assert(without(q.remaining, e.name).contains(y));
            }
        } else {
            let k = choose|k: int|
                s.resolved.len() <= k < q.resolved.len() && (#[trigger] q.resolved[k]).name == y;
            assert(r.resolved[k] == q.resolved[k]);
        }
    }
    assert forall|k: int| s.resolved.len() <= k < r.resolved.len() implies s.remaining.contains(
        (#[trigger] r.resolved[k]).name,
    ) && exists|x: EntryView| #[trigger] more.contains(x) && defined_by(r.resolved[k], x, file) by {
        if k < q.resolved.len() {
            assert(r.resolved[k] == q.resolved[k]);
            let x = choose|x: EntryView| #[trigger]
                pool.contains(x) && defined_by(q.resolved[k], x, file);
            assert(more.contains(x));
        } else {
            assert(more.contains(e));
        }
    }
}

proof fn lemma_resolves_flat(
    s: ResolveView,
    q: ResolveView,
    pool: Set<EntryView>,
    entries: Seq<EntryView>,
    file: Seq<char>,
)
    requires
        resolves(s, q, pool, file),
    ensures
        resolves(s, resolve_flat(q, entries, file), pool.union(entries.to_set()), file),
    decreases entries.len(),
{
    if entries.len() == 0 {
        assert(pool.union(entries.to_set()) =~= pool);
    } else {
        let t = entries.drop_last();
        lemma_resolves_flat(s, q, pool, t, file);
        lemma_resolves_step(
            s,
            resolve_flat(q, t, file),
            pool.union(t.to_set()),
            entries.last(),
            file,
        );
        lemma_last_to_set(entries);
        assert(pool.union(t.to_set()).insert(entries.last()) =~= pool.union(entries.to_set()));
    }
}

proof fn lemma_last_to_set(entries: Seq<EntryView>)
    requires
        entries.len() > 0,
    ensures
        entries.to_set() == entries.drop_last().to_set().insert(entries.last()),
{
    let t = entries.drop_last();
    assert forall|e: EntryView| entries.to_set().contains(e) <==> #[trigger] t.to_set().insert(
        entries.last(),
    ).contains(e) by {
        if entries.contains(e) {
            let k = choose|k: int| 0 <= k < entries.len() && entries[k] == e;
            if k < t.len() {
                assert(t[k] == e);
            }
        }
        if t.contains(e) {
            let k = choose|k: int| 0 <= k < t.len() && t[k] == e;
            assert(entries[k] == e);
        }
        assert(entries[entries.len() - 1] == entries.last());
    }
    assert(entries.to_set() =~= t.to_set().insert(entries.last()));
}

proof fn lemma_resolves_all(s: ResolveView, entries: Seq<EntryView>, file: Seq<char>)
    requires
        s.remaining.no_duplicates(),
    ensures
        resolves(
            s,
            resolve_entries(s, entries, file),
            Set::new(|e: EntryView| listed(entries, e)),
            file,
        ),
    decreases entries.len(),
{
    let all = Set::new(|e: EntryView| listed(entries, e));
    if entries.len() == 0 {
        assert(all =~= Set::empty());
        assert(s.resolved =~= s.resolved.subrange(0, s.resolved.len() as int));
    } else {
        let t = entries.drop_last();
        let e = entries.last();
        let before = Set::new(|e: EntryView| listed(t, e));
        lemma_resolves_all(s, t, file);
        let q = resolve_entries(s, t, file);
        lemma_resolves_step(s, q, before, e, file);
        lemma_resolves_flat(s, resolve_entry(q, e, file), before.insert(e), e.children, file);
        let pool = before.insert(e).union(e.children.to_set());
        assert forall|x: EntryView| #[trigger] all.contains(x) <==> pool.contains(x) by {
            if listed(entries, x) {
                if entries.contains(x) {
                    let k = choose|k: int| 0 <= k < entries.len() && entries[k] == x;
                    if k < t.len() {
                        assert(t[k] == x);
                        assert(listed(t, x));
                    }
                } else {
                    let i = choose|i: int|
                        0 <= i < entries.len() && (#[trigger] entries[i]).children.contains(x);
                    if i < t.len() {
                        assert(t[i].children.contains(x));
                        assert(listed(t, x));
                    }
                }
            }
            if listed(t, x) {
                if t.contains(x) {
                    let k = choose|k: int| 0 <= k < t.len() && t[k] == x;
                    assert(entries[k] == x);
                } else {
                    let i = choose|i: int| 0 <= i < t.len() && (#[trigger] t[i]).children.contains(x);
                    assert(entries[i].children.contains(x));
                }
            }
            assert(entries[entries.len() - 1] == e);
        }
        assert(all =~= pool);
    }
}

/// A name that an entry of the outline bears, or a child of one, is resolved: it
/// remains no longer, and if it was to be resolved there is a callee of that name, on
/// the lines of an entry or child that bears it.
pub proof fn law_listed_names_are_resolved(
    s: ResolveView,
    entries: Seq<EntryView>,
    file: Seq<char>,
    e: EntryView,
)
    requires
        s.remaining.no_duplicates(),
        listed(entries, e),
    ensures
        !resolve_entries(s, entries, file).remaining.contains(e.name),
        s.remaining.contains(e.name) ==> exists|k: int, x: EntryView|
            s.resolved.len() <= k < resolve_entries(s, entries, file).resolved.len() && listed(
                entries,
                x,
            ) && x.name == e.name && #[trigger] defined_by(
                resolve_entries(s, entries, file).resolved[k],
                x,
                file,
            ),
{
    lemma_resolves_all(s, entries, file);
    let all = Set::new(|e: EntryView| listed(entries, e));
    let r = resolve_entries(s, entries, file);
    assert(all.contains(e));
    if s.remaining.contains(e.name) {
        let k = choose|k: int|
            s.resolved.len() <= k < r.resolved.len() && (#[trigger] r.resolved[k]).name == e.name;
        let x = choose|x: EntryView| #[trigger] all.contains(x) && defined_by(r.resolved[k], x, file);
        assert(defined_by(r.resolved[k], x, file));
    }
}

/// Nothing else is resolved: what was resolved stays, each callee that is added was to
/// be resolved and stands on the lines of an entry or child of its name, and a name that
/// none bears remains.
pub proof fn law_only_listed_names_are_resolved(
    s: ResolveView,
    entries: Seq<EntryView>,
    file: Seq<char>,
)
    requires
        s.remaining.no_duplicates(),
    ensures
        s.resolved.is_prefix_of(resolve_entries(s, entries, file).resolved),
        forall|k: int|
            s.resolved.len() <= k < resolve_entries(s, entries, file).resolved.len()
                ==> s.remaining.contains(
                (#[trigger] resolve_entries(s, entries, file).resolved[k]).name,
            ) && exists|x: EntryView| #[trigger]
                listed(entries, x) && defined_by(
                    resolve_entries(s, entries, file).resolved[k],
                    x,
                    file,
                ),
        forall|y: Seq<char>| #[trigger]
            s.remaining.contains(y) && !(exists|x: EntryView| #[trigger]
                listed(entries, x) && x.name == y) ==> resolve_entries(
                s,
                entries,
                file,
            ).remaining.contains(y),
{
    lemma_resolves_all(s, entries, file);
    let all = Set::new(|e: EntryView| listed(entries, e));
    let r = resolve_entries(s, entries, file);
    assert forall|k: int| s.resolved.len() <= k < r.resolved.len() implies s.remaining.contains(
        (#[trigger] r.resolved[k]).name,
    ) && exists|x: EntryView| #[trigger]
        listed(entries, x) && defined_by(r.resolved[k], x, file) by {
        let x = choose|x: EntryView| #[trigger] all.contains(x) && defined_by(r.resolved[k], x, file);
        assert(listed(entries, x));
    }
    assert forall|y: Seq<char>| #[trigger]
        s.remaining.contains(y) && !(exists|x: EntryView| #[trigger]
            listed(entries, x) && x.name == y) implies r.remaining.contains(y) by {
        if !r.remaining.contains(y) {
            let k = choose|k: int|
                s.resolved.len() <= k < r.resolved.len() && (#[trigger] r.resolved[k]).name == y;
            let x = choose|x: EntryView| #[trigger]
                all.contains(x) && defined_by(r.resolved[k], x, file);
            assert(listed(entries, x) && x.name == y);
        }
    }
}

pub proof fn lemma_capture_texts(
    m: Seq<CaptureView>,
    name: Seq<char>,
    range: Option<(u32, u32)>,
    n: int,
    text: Seq<char>,
)
    requires
        0 <= n <= m.len(),
    ensures
        capture_texts(m, name, range, n).contains(text) <==> exists|i: int|
            0 <= i < n && (#[trigger] m[i]).name == name && in_lines(m[i].start_row, range)
                && m[i].text == Some(text),
    decreases n,
{
    if n > 0 {
        lemma_capture_texts(m, name, range, n - 1, text);
        let q = capture_texts(m, name, range, n - 1);
        let r = capture_texts(m, name, range, n);
        if r.contains(text) {
            let a = choose|a: int| 0 <= a < r.len() && r[a] == text;
            if a < q.len() {
                assert(q[a] == text);
            } else {
                assert(m[n - 1].text == Some(text));
            }
        }
        if q.contains(text) {
            let a = choose|a: int| 0 <= a < q.len() && q[a] == text;
            assert(r[a] == text);
        }
        if m[n - 1].name == name && in_lines(m[n - 1].start_row, range) && m[n - 1].text is Some {
            assert(r[q.len() as int] == m[n - 1].text->0);
        }
    }
}

/// One of the captures of that name and in the range reads so.
pub open spec fn captured(
    ms: Seq<Seq<CaptureView>>,
    name: Seq<char>,
    range: Option<(u32, u32)>,
    text: Seq<char>,
) -> bool {
    exists|k: int, i: int|
        0 <= k < ms.len() && 0 <= i < ms[k].len() && (#[trigger] ms[k][i]).name == name
            && ms[k][i].text == Some(text) && (range matches Some(b) ==> b.0 <= line_number(
            ms[k][i].start_row,
        ) <= b.1)
}

proof fn lemma_match_texts(
    ms: Seq<Seq<CaptureView>>,
    name: Seq<char>,
    range: Option<(u32, u32)>,
    n: int,
    text: Seq<char>,
)
    requires
        0 <= n <= ms.len(),
    ensures
        match_texts(ms, name, range, n).contains(text) <==> exists|k: int, i: int|
            0 <= k < n && 0 <= i < ms[k].len() && (#[trigger] ms[k][i]).name == name && in_lines(
                ms[k][i].start_row,
                range,
            ) && ms[k][i].text == Some(text),
    decreases n,
{
    if n > 0 {
        lemma_match_texts(ms, name, range, n - 1, text);
        let q = match_texts(ms, name, range, n - 1);
        let own = capture_texts(ms[n - 1], name, range, ms[n - 1].len() as int);
        lemma_capture_texts(ms[n - 1], name, range, ms[n - 1].len() as int, text);
        let r = match_texts(ms, name, range, n);
        if r.contains(text) {
            let a = choose|a: int| 0 <= a < r.len() && r[a] == text;
            if a < q.len() {
                assert(q[a] == text);
                assert(q.contains(text));
            } else {
                assert(own[a - q.len()] == text);
                assert(own.contains(text));
                let i = choose|i: int|
                    0 <= i < ms[n - 1].len() && (#[trigger] ms[n - 1][i]).name == name && in_lines(
                        ms[n - 1][i].start_row,
                        range,
                    ) && ms[n - 1][i].text == Some(text);
                assert(ms[n - 1][i].name == name);
            }
        }
        if q.contains(text) {
            let a = choose|a: int| 0 <= a < q.len() && q[a] == text;
            assert(r[a] == text);
        }
        if own.contains(text) {
            let a = choose|a: int| 0 <= a < own.len() && own[a] == text;
            assert(r[q.len() + a] == text);
        }
        if exists|k: int, i: int|
            0 <= k < n && 0 <= i < ms[k].len() && (#[trigger] ms[k][i]).name == name && in_lines(
                ms[k][i].start_row,
                range,
            ) && ms[k][i].text == Some(text) {
            let (k, i) = choose|k: int, i: int|
                0 <= k < n && 0 <= i < ms[k].len() && (#[trigger] ms[k][i]).name == name && in_lines(
                    ms[k][i].start_row,
                    range,
                ) && ms[k][i].text == Some(text);
            if k < n - 1 {
                assert(ms[k][i].name == name);
                assert(q.contains(text));
            } else {
                assert(ms[n - 1][i].name == name);
                assert(own.contains(text));
            }
        }
    }
}

/// The functions that a definition calls are listed all, in order and each once, and
/// nothing else is: a name is among them exactly if a call in the lines of the
/// definition is of it. In Elixir, words that define or import are no calls.
pub proof fn law_every_call_is_named(
    content: Seq<char>,
    lang: Lang,
    range: Option<(u32, u32)>,
    query: Seq<char>,
    name: Seq<char>,
)
    requires
        callee_query(lang) == Some(query),
    ensures
        callee_names(content, lang, range).contains(name) <==> captured(
            matches_in(content, lang, query),
            "callee"@,
            range,
            name,
        ) && !(lang == Lang::Elixir && elixir_keyword(name)),
{
    let ms = matches_in(content, lang, query);
    let texts = match_texts(ms, "callee"@, range, ms.len() as int);
    lemma_match_texts(ms, "callee"@, range, ms.len() as int, name);
    super::bfs_format::law_names_listed_once(texts);
    let names = sorted_names(texts);
    if texts.contains(name) {
        let (k, i) = choose|k: int, i: int|
            0 <= k < ms.len() && 0 <= i < ms[k].len() && (#[trigger] ms[k][i]).name == "callee"@
                && in_lines(ms[k][i].start_row, range) && ms[k][i].text == Some(name);
        assert(ms[k][i].name == "callee"@);
        assert(captured(ms, "callee"@, range, name));
    }
    if captured(ms, "callee"@, range, name) {
        let (k, i) = choose|k: int, i: int|
            0 <= k < ms.len() && 0 <= i < ms[k].len() && (#[trigger] ms[k][i]).name == "callee"@
                && ms[k][i].text == Some(name) && (range matches Some(b) ==> b.0 <= line_number(
                ms[k][i].start_row,
            ) <= b.1);
        assert(ms[k][i].name == "callee"@);
        assert(in_lines(ms[k][i].start_row, range));
        assert(texts.contains(name));
    }
    let keep = |n: Seq<char>| !elixir_keyword(n);
    if lang == Lang::Elixir {
        let kept = names.filter(keep);
        if kept.contains(name) {
            let a = choose|a: int| 0 <= a < kept.len() && kept[a] == name;
            names.lemma_filter_pred(keep, a);
            names.lemma_filter_contains_rev(keep, name);
        }
        if names.contains(name) && !elixir_keyword(name) {
            let a = choose|a: int| 0 <= a < names.len() && names[a] == name;
            names.lemma_filter_contains(keep, a);
        }
    }
}

proof fn lemma_package_paths(files: Seq<DirFileView>, source: Seq<char>, n: int, p: Seq<char>)
    requires
        0 <= n <= files.len(),
    ensures
        package_paths(files, source, n).contains(p) <==> exists|i: int|
            0 <= i < n && (#[trigger] files[i]).path == p && is_package_file(files[i], source),
        package_paths(files, source, n).len() <= n,
    decreases n,
{
    if n > 0 {
        lemma_package_paths(files, source, n - 1, p);
        let q = package_paths(files, source, n - 1);
        let r = package_paths(files, source, n);
        if r.contains(p) {
            let a = choose|a: int| 0 <= a < r.len() && r[a] == p;
            if a < q.len() {
                assert(q[a] == p);
            } else {
                assert(files[n - 1].path == p);
            }
        }
        if q.contains(p) {
            let a = choose|a: int| 0 <= a < q.len() && q[a] == p;
            assert(r[a] == p);
        }
        if is_package_file(files[n - 1], source) {
            assert(r[q.len() as int] == files[n - 1].path);
        }
    }
}

/// The other files of the package are all looked into, up to twenty; of more, exactly
/// twenty. Each is a file of the package.
pub proof fn law_package_files_are_complete(
    files: Seq<DirFileView>,
    source: Seq<char>,
    f: DirFileView,
)
    ensures
        package_files(files, source).len() <= 20,
        files.contains(f) && !same_path(f.path, source) && f.size <= 100_000 && file_name(
            f.path,
        ) is Some && ".go"@.is_suffix_of(file_name(f.path)->0) && !"_test.go"@.is_suffix_of(
            file_name(f.path)->0,
        ) ==> package_files(files, source).contains(f.path) || package_files(files, source).len()
            == 20,
        files.contains(f) && files.len() <= 20 && is_package_file(f, source) ==> package_files(
            files,
            source,
        ).contains(f.path),
        forall|p: Seq<char>| #[trigger]
            package_files(files, source).contains(p) ==> exists|i: int|
                0 <= i < files.len() && (#[trigger] files[i]).path == p && is_package_file(
                    files[i],
                    source,
                ),
{
    let all = package_paths(files, source, files.len() as int);
    let s = stable_sort(all, path_order());
    let r = package_files(files, source);
    crate::sort::law_sort_keeps_elements(all, path_order());
    lemma_package_paths(files, source, files.len() as int, f.path);
    if files.contains(f) && is_package_file(f, source) {
        let i = choose|i: int| 0 <= i < files.len() && files[i] == f;
        assert(files[i].path == f.path);
        crate::sort::law_sort_keeps_members(all, path_order(), f.path);
    }
    assert forall|p: Seq<char>| #[trigger] r.contains(p) implies exists|i: int|
        0 <= i < files.len() && (#[trigger] files[i]).path == p && is_package_file(files[i], source) by {
        let a = choose|a: int| 0 <= a < r.len() && r[a] == p;
        assert(s[a] == p);
        crate::sort::law_sort_keeps_members(all, path_order(), p);
        lemma_package_paths(files, source, files.len() as int, p);
    }
}

/// No child is lost before the budget is used up: every callee that is neither the
/// parent nor known is a child, or the parent has as many children as the budget allows.
pub proof fn law_children_are_complete(
    cs: Seq<CalleeView>,
    parent: CalleeView,
    known: Seq<PlaceView>,
    budget: int,
    c: CalleeView,
)
    requires
        0 <= budget,
        cs.contains(c),
        !(same_path(c.file, parent.file) && c.start_line == parent.start_line),
        forall|i: int|
            0 <= i < known.len() ==> !((#[trigger] known[i]).line == c.start_line && same_path(
                known[i].file,
                c.file,
            )),
    ensures
        children_within(cs, parent, known, budget).contains(c) || children_within(
            cs,
            parent,
            known,
            budget,
        ).len() == budget,
        cs.len() <= budget ==> children_within(cs, parent, known, budget).contains(c),
{
    let i = choose|i: int| 0 <= i < cs.len() && cs[i] == c;
    lemma_child_is_kept(cs, parent, known, cs.len() as int, i);
}

proof fn lemma_child_is_kept(
    cs: Seq<CalleeView>,
    parent: CalleeView,
    known: Seq<PlaceView>,
    n: int,
    i: int,
)
    requires
        0 <= i < n <= cs.len(),
        is_new_child(cs[i], parent, known),
    ensures
        new_children(cs, parent, known, n).contains(cs[i]),
        new_children(cs, parent, known, n).len() <= n,
    decreases n,
{
    let q = new_children(cs, parent, known, n - 1);
    let r = new_children(cs, parent, known, n);
    lemma_children_bounded(cs, parent, known, n);
    if i < n - 1 {
        lemma_child_is_kept(cs, parent, known, n - 1, i);
        let a = choose|a: int| 0 <= a < q.len() && q[a] == cs[i];
        assert(r[a] == cs[i]);
    } else {
        assert(r[q.len() as int] == cs[i]);
    }
}

proof fn lemma_children_bounded(
    cs: Seq<CalleeView>,
    parent: CalleeView,
    known: Seq<PlaceView>,
    n: int,
)
    requires
        0 <= n,
    ensures
        new_children(cs, parent, known, n).len() <= n,
    decreases n,
{
    if n > 0 {
        lemma_children_bounded(cs, parent, known, n - 1);
    }
}

/// Resolving moves names from what remains to what is resolved, and looks at every entry
/// and child.
pub proof fn lemma_resolves_names(s: ResolveView, entries: Seq<EntryView>, file: Seq<char>)
    requires
        s.remaining.no_duplicates(),
    ensures
        resolve_entries(s, entries, file).remaining.no_duplicates(),
        s.resolved.is_prefix_of(resolve_entries(s, entries, file).resolved),
        forall|y: Seq<char>| #[trigger]
            resolve_entries(s, entries, file).remaining.contains(y) ==> s.remaining.contains(y),
        forall|y: Seq<char>| #[trigger]
            s.remaining.contains(y) ==> resolve_entries(s, entries, file).remaining.contains(y)
                || exists|k: int|
                s.resolved.len() <= k < resolve_entries(s, entries, file).resolved.len() && (
                #[trigger] resolve_entries(s, entries, file).resolved[k]).name == y,
        forall|k: int|
            s.resolved.len() <= k < resolve_entries(s, entries, file).resolved.len()
                ==> s.remaining.contains(
                (#[trigger] resolve_entries(s, entries, file).resolved[k]).name,
            ),
        forall|e: EntryView| #[trigger]
            listed(entries, e) ==> !resolve_entries(s, entries, file).remaining.contains(e.name),
{
    lemma_resolves_all(s, entries, file);
    let all = Set::new(|e: EntryView| listed(entries, e));
    let r = resolve_entries(s, entries, file);
    assert forall|e: EntryView| #[trigger] listed(entries, e) implies !r.remaining.contains(e.name) by {
        assert(all.contains(e));
    }
}

} // verus!
