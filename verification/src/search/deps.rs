//! What a file depends on, and what depends on it.
use vstd::prelude::*;
use vstd::string::*;

use crate::lang::outline::{extract_import_source, get_outline_entries, import_source, outline_of};
use crate::lang::{detect_file_type, file_type};
use crate::paths::{equal_paths, parent, parent_of, path_le, paths_ordered, same_path};
use crate::sort::{lemma_sort_map, sort_by, stable_sort};
use crate::text::{
    byte_len, chars_of, has_prefix, is_alphanumeric, is_text, lemma_strs_push, letter_or_number,
    same_text, split, split_on, strs, text_le, text_len, text_ordered, views,
};
use crate::types::{entries_view, EntryView, FileType, Lang, OutlineEntry, OutlineKind};

use super::bfs_format::{sorted_names, sorted_names_of};
use super::callees::{callees_view, CalleeView, ResolvedCallee};
use super::callers::{pair_view, pairs_view, CallerMatch, CallerView};
use super::pagination::{law_pages_tile, page, rest, take_page};

verus! {

/// The largest number of symbols that are looked for in other files.
pub const MAX_EXPORTED_SYMBOLS: usize = 25;

/// The largest number of dependents that are shown where no other is asked for.
pub const MAX_DEPENDENTS: usize = 15;

/// What a file depends on, and what depends on it.
pub struct DepsResult {
    pub target: String,
    pub uses_local: Vec<LocalDep>,
    pub uses_external: Vec<String>,
    pub used_by: Vec<Dependent>,
    /// The number of all dependents, shown or not.
    pub total_dependents: usize,
    /// The number of dependents before those that are shown.
    pub offset: usize,
    pub exported_count: usize,
    /// The number of symbols that were looked for.
    pub searched_count: usize,
}

/// A local file that is depended on, with the symbols that are used from it.
pub struct LocalDep {
    pub path: String,
    pub symbols: Vec<String>,
}

/// A file that depends on the target.
pub struct Dependent {
    pub path: String,
    /// The calling function, the symbol that it calls, and the line.
    pub symbols: Vec<(String, String, u32)>,
    pub is_test: bool,
}

/// What a local dependency says.
pub struct LocalDepView {
    pub path: Seq<char>,
    pub symbols: Seq<Seq<char>>,
}

/// What a dependent says.
pub struct DependentView {
    pub path: Seq<char>,
    pub symbols: Seq<(Seq<char>, Seq<char>, u32)>,
    pub is_test: bool,
}

impl View for LocalDep {
    type V = LocalDepView;

    open spec fn view(&self) -> LocalDepView {
        LocalDepView { path: self.path@, symbols: strs(self.symbols@) }
    }
}

/// What a use says: the calling function, the symbol and the line.
pub open spec fn use_view(u: (String, String, u32)) -> (Seq<char>, Seq<char>, u32) {
    (u.0@, u.1@, u.2)
}

/// What the uses of a list say.
pub open spec fn uses_view(v: Seq<(String, String, u32)>) -> Seq<(Seq<char>, Seq<char>, u32)> {
    v.map_values(|u: (String, String, u32)| use_view(u))
}

impl View for Dependent {
    type V = DependentView;

    open spec fn view(&self) -> DependentView {
        DependentView { path: self.path@, symbols: uses_view(self.symbols@), is_test: self.is_test }
    }
}

/// What the local dependencies of a list say.
pub open spec fn locals_view(v: Seq<LocalDep>) -> Seq<LocalDepView> {
    v.map_values(|d: LocalDep| d@)
}

/// What the dependents of a list say.
pub open spec fn dependents_view(v: Seq<Dependent>) -> Seq<DependentView> {
    v.map_values(|d: Dependent| d@)
}

// ---------------------------------------------------------------------------
// Exported symbols
// ---------------------------------------------------------------------------

/// The entry defines nothing of its own.
pub open spec fn passes_on(k: OutlineKind) -> bool {
    k == OutlineKind::Import || k == OutlineKind::Export
}

/// The names of the first `n` children that define something.
pub open spec fn child_names(children: Seq<EntryView>, n: int) -> Seq<Seq<char>>
    decreases n,
{
    if n <= 0 {
        Seq::empty()
    } else {
        let r = child_names(children, n - 1);
        if passes_on(children[n - 1].kind) {
            r
        } else {
            r.push(children[n - 1].name)
        }
    }
}

/// The names that an entry defines: its own and those of its children.
pub open spec fn entry_names(e: EntryView) -> Seq<Seq<char>> {
    seq![e.name] + child_names(e.children, e.children.len() as int)
}

/// The names that the first `n` entries define.
pub open spec fn defined_names(entries: Seq<EntryView>, n: int) -> Seq<Seq<char>>
    decreases n,
{
    if n <= 0 {
        Seq::empty()
    } else {
        let r = defined_names(entries, n - 1);
        if passes_on(entries[n - 1].kind) {
            r
        } else {
            r + entry_names(entries[n - 1])
        }
    }
}

/// Appends the names that an entry defines.
pub fn collect_symbol_names(entry: &OutlineEntry, out: &mut Vec<String>)
    ensures
        strs(final(out)@) == strs(old(out)@) + entry_names(entry@),
{
    broadcast use lemma_strs_push;

    let ghost start = strs(out@);
    let ghost c = entries_view(entry.children@);
    proof {
        crate::types::lemma_children(*entry);
    }
    out.push(entry.name.clone());
    let ghost head = start.push(entry.name@);
    assert(strs(out@) =~= head);
    let mut i: usize = 0;
    assert(head + child_names(c, 0) =~= head);
    while i < entry.children.len()
        invariant
            i <= entry.children@.len(),
            c == entries_view(entry.children@),
            strs(out@) == head + child_names(c, i as int),
        decreases entry.children@.len() - i,
    {
        let child = &entry.children[i];
        assert(c[i as int] == child@);
        if child.kind != OutlineKind::Import && child.kind != OutlineKind::Export {
            let ghost before = child_names(c, i as int);
            out.push(child.name.clone());
            assert((head + before).push(child.name@) =~= head + before.push(child.name@));
        }
        i = i + 1;
    }
    assert(strs(out@) =~= start + entry_names(entry@));
}

/// The name stands for nothing that could be looked for: it is no name, an
/// implementation, or too short.
pub open spec fn is_placeholder(name: Seq<char>) -> bool {
    ||| name == "<anonymous>"@
    ||| name.len() > 0 && name[0] == '<'
    ||| "impl "@.is_prefix_of(name)
    ||| name.len() == 1
}

/// Whether the name stands for nothing that could be looked for.
pub fn is_placeholder_name(name: &str) -> (r: bool)
    ensures
        r == is_placeholder(name@),
{
    let s = chars_of(name);
    same_text(name, "<anonymous>") || (s.len() > 0 && s[0] == '<') || has_prefix(
        s.as_slice(),
        "impl ",
    ) || s.len() == 1
}

/// Those of the first `n` names that could be looked for.
pub open spec fn proper_names(names: Seq<Seq<char>>, n: int) -> Seq<Seq<char>>
    decreases n,
{
    if n <= 0 {
        Seq::empty()
    } else {
        let r = proper_names(names, n - 1);
        if is_placeholder(names[n - 1]) {
            r
        } else {
            r.push(names[n - 1])
        }
    }
}

/// The symbols that a file exports: the names that it defines, in order and each
/// once.
pub open spec fn exported(content: Seq<char>, lang: Lang) -> Seq<Seq<char>> {
    let entries = outline_of(content, lang);
    let all = sorted_names(defined_names(entries, entries.len() as int));
    proper_names(all, all.len() as int)
}

/// Longer names come first, those of the same length in order.
pub open spec fn length_order() -> spec_fn(Seq<char>, Seq<char>) -> bool {
    |a: Seq<char>, b: Seq<char>|
        if byte_len(a) != byte_len(b) {
            byte_len(a) > byte_len(b)
        } else {
            text_le(a, b)
        }
}

/// The symbols that are looked for: of too many the longest, which say the most.
pub open spec fn searched(names: Seq<Seq<char>>) -> Seq<Seq<char>> {
    if names.len() > MAX_EXPORTED_SYMBOLS {
        stable_sort(names, length_order()).take(MAX_EXPORTED_SYMBOLS as int)
    } else {
        names
    }
}

spec fn length_le() -> spec_fn(String, String) -> bool {
    |a: String, b: String| length_order()(a@, b@)
}

fn lengths_ordered(a: &String, b: &String) -> (r: bool)
    ensures
        r == length_le()(*a, *b),
{
    let x: usize = text_len(a.as_str());
    let y: usize = text_len(b.as_str());
    if x != y {
        x > y
    } else {
        text_ordered(a.as_str(), b.as_str())
    }
}

fn keep_proper(names: &Vec<String>) -> (r: Vec<String>)
    ensures
        strs(r@) == proper_names(strs(names@), names@.len() as int),
{
    broadcast use lemma_strs_push;

    let ghost v = strs(names@);
    let mut r: Vec<String> = Vec::new();
    let mut i: usize = 0;
    assert(strs(r@) =~= Seq::<Seq<char>>::empty());
    while i < names.len()
        invariant
            i <= names@.len(),
            v == strs(names@),
            strs(r@) == proper_names(v, i as int),
        decreases names@.len() - i,
    {
        assert(v[i as int] == names@[i as int]@);
        if !is_placeholder_name(names[i].as_str()) {
            r.push(names[i].clone());
        }
        i = i + 1;
    }
    r
}

/// The symbols that a file exports.
pub fn exported_symbols(content: &str, lang: Lang) -> (r: Vec<String>)
    ensures
        strs(r@) == exported(content@, lang),
{
    let entries = get_outline_entries(content, lang);
    let ghost es = entries_view(entries@);
    assert(es.len() == entries@.len());
    let mut all: Vec<String> = Vec::new();
    let mut i: usize = 0;
    assert(strs(all@) =~= Seq::<Seq<char>>::empty());
    while i < entries.len()
        invariant
            i <= entries@.len(),
            es == entries_view(entries@),
            strs(all@) == defined_names(es, i as int),
        decreases entries@.len() - i,
    {
        assert(es[i as int] == entries@[i as int]@);
        if entries[i].kind != OutlineKind::Import && entries[i].kind != OutlineKind::Export {
            collect_symbol_names(&entries[i], &mut all);
        }
        i = i + 1;
    }
    let sorted = sorted_names_of(&all);
    assert(strs(sorted@).len() == sorted@.len());
    keep_proper(&sorted)
}

/// The symbols that are looked for.
pub fn searched_symbols(names: Vec<String>) -> (r: Vec<String>)
    ensures
        strs(r@) == searched(strs(names@)),
{
    assert(strs(names@).len() == names@.len());
    if names.len() > MAX_EXPORTED_SYMBOLS {
        let ghost before = names@;
        let mut v = names;
        proof {
            lemma_sort_map(before, |s: String| s@, length_le(), length_order());
        }
        sort_by(&mut v, lengths_ordered, Ghost(length_le()));
        let ghost all = strs(v@);
        proof {
            crate::sort::law_sort_keeps_elements(before, length_le());
        }
        v.truncate(MAX_EXPORTED_SYMBOLS);
        assert(strs(v@) =~= all.take(MAX_EXPORTED_SYMBOLS as int));
        v
    } else {
        names
    }
}

/// No more symbols are looked for than the limit, and no fewer than there are below
/// it.
pub proof fn law_searched_bounded(names: Seq<Seq<char>>)
    ensures
        searched(names).len() == (if names.len() > MAX_EXPORTED_SYMBOLS {
            MAX_EXPORTED_SYMBOLS as nat
        } else {
            names.len()
        }),
{
    crate::sort::law_sort_keeps_elements(names, length_order());
}

// ---------------------------------------------------------------------------
// What the file uses
// ---------------------------------------------------------------------------

/// One of the paths is the path.
pub open spec fn has_path(v: Seq<Seq<char>>, path: Seq<char>) -> bool {
    exists|i: int| 0 <= i < v.len() && same_path(#[trigger] v[i], path)
}

/// The first `n` paths, each once.
pub open spec fn distinct_paths(v: Seq<Seq<char>>, n: int) -> Seq<Seq<char>>
    decreases n,
{
    if n <= 0 {
        Seq::empty()
    } else {
        let r = distinct_paths(v, n - 1);
        if has_path(r, v[n - 1]) {
            r
        } else {
            r.push(v[n - 1])
        }
    }
}

/// The files of the first `n` functions that are not in the file itself.
pub open spec fn callee_files(cs: Seq<CalleeView>, path: Seq<char>, n: int) -> Seq<Seq<char>>
    decreases n,
{
    if n <= 0 {
        Seq::empty()
    } else {
        let r = callee_files(cs, path, n - 1);
        if same_path(cs[n - 1].file, path) {
            r
        } else {
            r.push(cs[n - 1].file)
        }
    }
}

/// The names of those of the first `n` functions that are in the file.
pub open spec fn names_in_file(cs: Seq<CalleeView>, file: Seq<char>, n: int) -> Seq<Seq<char>>
    decreases n,
{
    if n <= 0 {
        Seq::empty()
    } else {
        let r = names_in_file(cs, file, n - 1);
        if same_path(cs[n - 1].file, file) {
            r.push(cs[n - 1].name)
        } else {
            r
        }
    }
}

/// The files that the file depends on: those of the functions that it calls, and
/// those that it imports.
pub open spec fn used_files(cs: Seq<CalleeView>, imports: Seq<Seq<char>>, path: Seq<char>) -> Seq<Seq<char>> {
    let all = callee_files(cs, path, cs.len() as int) + imports;
    distinct_paths(all, all.len() as int)
}

/// The order of dependencies: by path.
pub open spec fn local_order() -> spec_fn(LocalDepView, LocalDepView) -> bool {
    |a: LocalDepView, b: LocalDepView| path_le(a.path, b.path)
}

/// The files that the file depends on, each with the symbols that it uses of it.
pub open spec fn local_deps(cs: Seq<CalleeView>, imports: Seq<Seq<char>>, path: Seq<char>) -> Seq<
    LocalDepView,
> {
    stable_sort(
        used_files(cs, imports, path).map_values(
            |f: Seq<char>|
                LocalDepView {
                    path: f,
                    symbols: sorted_names(names_in_file(cs, f, cs.len() as int)),
                },
        ),
        local_order(),
    )
}

spec fn local_le() -> spec_fn(LocalDep, LocalDep) -> bool {
    |a: LocalDep, b: LocalDep| local_order()(a@, b@)
}

fn locals_ordered(a: &LocalDep, b: &LocalDep) -> (r: bool)
    ensures
        r == local_le()(*a, *b),
{
    paths_ordered(a.path.as_str(), b.path.as_str())
}

fn is_among(v: &Vec<String>, path: &str) -> (r: bool)
    ensures
        r == has_path(strs(v@), path@),
{
    let ghost w = strs(v@);
    let mut i: usize = 0;
    while i < v.len()
        invariant
            i <= v@.len(),
            w == strs(v@),
            forall|j: int| 0 <= j < i ==> !same_path(#[trigger] w[j], path@),
        decreases v@.len() - i,
    {
        assert(w[i as int] == v@[i as int]@);
        if equal_paths(v[i].as_str(), path) {
            return true;
        }
        i = i + 1;
    }
    false
}

fn paths_once(v: &Vec<String>) -> (r: Vec<String>)
    ensures
        strs(r@) == distinct_paths(strs(v@), v@.len() as int),
{
    broadcast use lemma_strs_push;

    let ghost w = strs(v@);
    let mut r: Vec<String> = Vec::new();
    let mut i: usize = 0;
    assert(strs(r@) =~= Seq::<Seq<char>>::empty());
    while i < v.len()
        invariant
            i <= v@.len(),
            w == strs(v@),
            strs(r@) == distinct_paths(w, i as int),
        decreases v@.len() - i,
    {
        assert(w[i as int] == v@[i as int]@);
        if !is_among(&r, v[i].as_str()) {
            r.push(v[i].clone());
        }
        i = i + 1;
    }
    r
}

fn files_used(resolved: &Vec<ResolvedCallee>, imports: &Vec<String>, path: &str) -> (r: Vec<String>)
    ensures
        strs(r@) == used_files(callees_view(resolved@), strs(imports@), path@),
{
    broadcast use lemma_strs_push;

    let ghost cs = callees_view(resolved@);
    let ghost im = strs(imports@);
    assert(cs.len() == resolved@.len());
    let mut all: Vec<String> = Vec::new();
    let mut i: usize = 0;
    assert(strs(all@) =~= Seq::<Seq<char>>::empty());
    while i < resolved.len()
        invariant
            i <= resolved@.len(),
            cs == callees_view(resolved@),
            strs(all@) == callee_files(cs, path@, i as int),
        decreases resolved@.len() - i,
    {
        assert(cs[i as int] == resolved@[i as int]@);
        if !equal_paths(resolved[i].file.as_str(), path) {
            all.push(resolved[i].file.clone());
        }
        i = i + 1;
    }
    let ghost head = strs(all@);
    let mut j: usize = 0;
    assert(head + im.take(0) =~= head);
    while j < imports.len()
        invariant
            j <= imports@.len(),
            im == strs(imports@),
            strs(all@) == head + im.take(j as int),
        decreases imports@.len() - j,
    {
        assert(im[j as int] == imports@[j as int]@);
        all.push(imports[j].clone());
        assert(head + im.take(j + 1) =~= (head + im.take(j as int)).push(im[j as int]));
        j = j + 1;
    }
    assert(im.take(imports@.len() as int) =~= im);
    assert(strs(all@).len() == all@.len());
    paths_once(&all)
}

fn symbols_of(resolved: &Vec<ResolvedCallee>, file: &str) -> (r: Vec<String>)
    ensures
        strs(r@) == sorted_names(
            names_in_file(callees_view(resolved@), file@, resolved@.len() as int),
        ),
{
    broadcast use lemma_strs_push;

    let ghost cs = callees_view(resolved@);
    let mut names: Vec<String> = Vec::new();
    let mut i: usize = 0;
    assert(strs(names@) =~= Seq::<Seq<char>>::empty());
    while i < resolved.len()
        invariant
            i <= resolved@.len(),
            cs == callees_view(resolved@),
            strs(names@) == names_in_file(cs, file@, i as int),
        decreases resolved@.len() - i,
    {
        assert(cs[i as int] == resolved@[i as int]@);
        if equal_paths(resolved[i].file.as_str(), file) {
            names.push(resolved[i].name.clone());
        }
        i = i + 1;
    }
    sorted_names_of(&names)
}

fn find_local_deps(resolved: &Vec<ResolvedCallee>, imports: &Vec<String>, path: &str) -> (r: Vec<LocalDep>)
    ensures
        locals_view(r@) == local_deps(callees_view(resolved@), strs(imports@), path@),
{
    let ghost cs = callees_view(resolved@);
    assert(cs.len() == resolved@.len());
    let files = files_used(resolved, imports, path);
    let ghost f = strs(files@);
    let ghost g = |f: Seq<char>|
        LocalDepView {
            path: f,
            symbols: sorted_names(names_in_file(cs, f, cs.len() as int)),
        };
    let mut r: Vec<LocalDep> = Vec::new();
    let mut i: usize = 0;
    while i < files.len()
        invariant
            i <= files@.len(),
            cs == callees_view(resolved@),
            cs.len() == resolved@.len(),
            f == strs(files@),
            g == (|f: Seq<char>|
                LocalDepView {
                    path: f,
                    symbols: sorted_names(names_in_file(cs, f, cs.len() as int)),
                }),
            r@.len() == i,
            forall|k: int| 0 <= k < i ==> (#[trigger] r@[k])@ == g(f[k]),
        decreases files@.len() - i,
    {
        assert(f[i as int] == files@[i as int]@);
        r.push(
            LocalDep { path: files[i].clone(), symbols: symbols_of(resolved, files[i].as_str()) },
        );
        i = i + 1;
    }
    assert(locals_view(r@) =~= f.map_values(g));
    proof {
        lemma_sort_map(r@, |d: LocalDep| d@, local_le(), local_order());
    }
    sort_by(&mut r, locals_ordered, Ghost(local_le()));
    r
}

// ---------------------------------------------------------------------------
// Modules
// ---------------------------------------------------------------------------

/// The module comes with the language.
pub open spec fn in_stdlib(source: Seq<char>, lang: Lang) -> bool {
    match lang {
        Lang::Rust => "std::"@.is_prefix_of(source) || "core::"@.is_prefix_of(source)
            || "alloc::"@.is_prefix_of(source),
        Lang::Python => {
            let m = split(source, '.')[0];
            m == "os"@ || m == "sys"@ || m == "re"@ || m == "json"@ || m == "math"@ || m == "time"@ || m == "datetime"@ || m == "pathlib"@ || m == "typing"@ || m == "collections"@ || m == "functools"@ || m == "itertools"@ || m == "abc"@ || m == "io"@ || m == "logging"@ || m == "unittest"@ || m == "dataclasses"@ || m == "enum"@ || m == "copy"@ || m == "hashlib"@ || m == "subprocess"@ || m == "threading"@ || m == "asyncio"@
        },
        Lang::Go => "fmt"@.is_prefix_of(source) || !source.contains('.'),
        _ => false,
    }
}

/// Whether the module comes with the language.
pub fn is_stdlib(source: &str, lang: Lang) -> (r: bool)
    ensures
        r == in_stdlib(source@, lang),
{
    let s = chars_of(source);
    let s = s.as_slice();
    match lang {
        Lang::Rust => has_prefix(s, "std::") || has_prefix(s, "core::") || has_prefix(s, "alloc::"),
        Lang::Python => {
            let parts = split_on(s, '.');
            proof {
                crate::text::lemma_char_at(s@, '.');
                assert(views(parts@).len() > 0);
                assert(views(parts@)[0] == parts@[0]@);
            }
            let m = parts[0];
            is_text(m, "os") || is_text(m, "sys") || is_text(m, "re") || is_text(m, "json") || is_text(m, "math") || is_text(m, "time") || is_text(m, "datetime") || is_text(m, "pathlib") || is_text(m, "typing") || is_text(m, "collections") || is_text(m, "functools") || is_text(m, "itertools") || is_text(m, "abc") || is_text(m, "io") || is_text(m, "logging") || is_text(m, "unittest") || is_text(m, "dataclasses") || is_text(m, "enum") || is_text(m, "copy") || is_text(m, "hashlib") || is_text(m, "subprocess") || is_text(m, "threading") || is_text(m, "asyncio")
        },
        Lang::Go => has_prefix(s, "fmt") || !crate::text::has_char(s, '.'),
        _ => false,
    }
}

/// The text may be the name of a module: it holds no blank and starts with a letter,
/// a number, `@` or a dot.
pub open spec fn names_module(source: Seq<char>) -> bool {
    &&& !source.contains(' ')
    &&& source.len() > 0
    &&& letter_or_number(source[0]) || source[0] == '@' || source[0] == '.'
}

/// Whether the text may be the name of a module.
pub fn is_valid_module_path(source: &str) -> (r: bool)
    ensures
        r == names_module(source@),
{
    let s = chars_of(source);
    if crate::text::has_char(s.as_slice(), ' ') || s.len() == 0 {
        return false;
    }
    is_alphanumeric(s[0]) || s[0] == '@' || s[0] == '.'
}

/// A line that imports something, and whether what it names is outside the project.
#[derive(Debug)]
pub struct ImportLine {
    pub line: String,
    pub external: bool,
}

/// The line names a module that is worth showing: outside the project, and not one
/// that comes with the language.
pub open spec fn shows_module(i: ImportLine, lang: Lang) -> bool {
    let s = import_source(i.line@);
    s.len() > 0 && i.external && !in_stdlib(s, lang) && names_module(s)
}

/// The modules that the first `n` lines name.
pub open spec fn modules(v: Seq<ImportLine>, lang: Lang, n: int) -> Seq<Seq<char>>
    decreases n,
{
    if n <= 0 {
        Seq::empty()
    } else {
        let r = modules(v, lang, n - 1);
        if shows_module(v[n - 1], lang) {
            r.push(import_source(v[n - 1].line@))
        } else {
            r
        }
    }
}

fn find_modules(v: &Vec<ImportLine>, lang: Lang) -> (r: Vec<String>)
    ensures
        strs(r@) == sorted_names(modules(v@, lang, v@.len() as int)),
{
    broadcast use lemma_strs_push;

    let mut names: Vec<String> = Vec::new();
    let mut i: usize = 0;
    assert(strs(names@) =~= Seq::<Seq<char>>::empty());
    while i < v.len()
        invariant
            i <= v@.len(),
            strs(names@) == modules(v@, lang, i as int),
        decreases v@.len() - i,
    {
        let source = extract_import_source(v[i].line.as_str());
        if !source.as_str().is_empty() && v[i].external && !is_stdlib(source.as_str(), lang)
            && is_valid_module_path(source.as_str()) {
            names.push(source);
        }
        i = i + 1;
    }
    sorted_names_of(&names)
}

// ---------------------------------------------------------------------------
// What uses the file
// ---------------------------------------------------------------------------

/// The files of the first `n` calls that are not in the file itself.
pub open spec fn caller_files(cs: Seq<(Seq<char>, CallerView)>, path: Seq<char>, n: int) -> Seq<Seq<char>>
    decreases n,
{
    if n <= 0 {
        Seq::empty()
    } else {
        let r = caller_files(cs, path, n - 1);
        if same_path(cs[n - 1].1.path, path) {
            r
        } else {
            r.push(cs[n - 1].1.path)
        }
    }
}

/// Those of the first `n` calls that are in the file.
pub open spec fn uses_in_file(cs: Seq<(Seq<char>, CallerView)>, file: Seq<char>, n: int) -> Seq<
    (Seq<char>, Seq<char>, u32),
>
    decreases n,
{
    if n <= 0 {
        Seq::empty()
    } else {
        let r = uses_in_file(cs, file, n - 1);
        if same_path(cs[n - 1].1.path, file) {
            r.push((cs[n - 1].1.calling_function, cs[n - 1].0, cs[n - 1].1.line))
        } else {
            r
        }
    }
}

/// The order of uses: by calling function, symbol and line.
pub open spec fn use_order() -> spec_fn(
    (Seq<char>, Seq<char>, u32),
    (Seq<char>, Seq<char>, u32),
) -> bool {
    |a: (Seq<char>, Seq<char>, u32), b: (Seq<char>, Seq<char>, u32)|
        if a.0 != b.0 {
            text_le(a.0, b.0)
        } else if a.1 != b.1 {
            text_le(a.1, b.1)
        } else {
            a.2 <= b.2
        }
}

/// The uses without what equals the one before.
pub open spec fn uses_once(s: Seq<(Seq<char>, Seq<char>, u32)>) -> Seq<(Seq<char>, Seq<char>, u32)>
    decreases s.len(),
{
    if s.len() <= 1 {
        s
    } else if s.last() == s[s.len() - 2] {
        uses_once(s.drop_last())
    } else {
        uses_once(s.drop_last()).push(s.last())
    }
}

/// What a file makes of the target.
pub open spec fn dependent_of(
    cs: Seq<(Seq<char>, CallerView)>,
    file: Seq<char>,
    tests: Seq<Seq<char>>,
) -> DependentView {
    DependentView {
        path: file,
        symbols: uses_once(stable_sort(uses_in_file(cs, file, cs.len() as int), use_order())),
        is_test: has_path(tests, file),
    }
}

/// The file is in the directory of the target.
pub open spec fn beside(file: Seq<char>, target: Seq<char>) -> bool {
    &&& parent(target) is Some
    &&& parent(file) is Some
    &&& same_path(parent(file)->0, parent(target)->0)
}

/// The order of dependents: those in the same directory first, tests last, then by
/// path.
pub open spec fn dependent_order(target: Seq<char>) -> spec_fn(DependentView, DependentView) -> bool {
    |a: DependentView, b: DependentView|
        if beside(a.path, target) != beside(b.path, target) {
            beside(a.path, target)
        } else if a.is_test != b.is_test {
            b.is_test
        } else {
            path_le(a.path, b.path)
        }
}

/// The files that depend on the target.
pub open spec fn dependents(
    cs: Seq<(Seq<char>, CallerView)>,
    tests: Seq<Seq<char>>,
    target: Seq<char>,
) -> Seq<DependentView> {
    let files = caller_files(cs, target, cs.len() as int);
    stable_sort(
        distinct_paths(files, files.len() as int).map_values(
            |f: Seq<char>| dependent_of(cs, f, tests),
        ),
        dependent_order(target),
    )
}

spec fn use_le() -> spec_fn((String, String, u32), (String, String, u32)) -> bool {
    |a: (String, String, u32), b: (String, String, u32)| use_order()(use_view(a), use_view(b))
}

fn uses_ordered(a: &(String, String, u32), b: &(String, String, u32)) -> (r: bool)
    ensures
        r == use_le()(*a, *b),
{
    if !same_text(a.0.as_str(), b.0.as_str()) {
        text_ordered(a.0.as_str(), b.0.as_str())
    } else if !same_text(a.1.as_str(), b.1.as_str()) {
        text_ordered(a.1.as_str(), b.1.as_str())
    } else {
        a.2 <= b.2
    }
}

fn files_calling(callers: &Vec<(String, CallerMatch)>, path: &str) -> (r: Vec<String>)
    ensures
        strs(r@) == caller_files(pairs_view(callers@), path@, callers@.len() as int),
{
    broadcast use lemma_strs_push;

    let ghost cs = pairs_view(callers@);
    let mut r: Vec<String> = Vec::new();
    let mut i: usize = 0;
    assert(strs(r@) =~= Seq::<Seq<char>>::empty());
    while i < callers.len()
        invariant
            i <= callers@.len(),
            cs == pairs_view(callers@),
            strs(r@) == caller_files(cs, path@, i as int),
        decreases callers@.len() - i,
    {
        assert(cs[i as int] == pair_view(callers@[i as int]));
        if !equal_paths(callers[i].1.path.as_str(), path) {
            r.push(callers[i].1.path.clone());
        }
        i = i + 1;
    }
    r
}

fn uses_from(callers: &Vec<(String, CallerMatch)>, file: &str) -> (r: Vec<(String, String, u32)>)
    ensures
        uses_view(r@) == uses_in_file(pairs_view(callers@), file@, callers@.len() as int),
{
    let ghost cs = pairs_view(callers@);
    let mut r: Vec<(String, String, u32)> = Vec::new();
    let mut i: usize = 0;
    assert(uses_view(r@) =~= Seq::<(Seq<char>, Seq<char>, u32)>::empty());
    while i < callers.len()
        invariant
            i <= callers@.len(),
            cs == pairs_view(callers@),
            uses_view(r@) == uses_in_file(cs, file@, i as int),
        decreases callers@.len() - i,
    {
        let p = &callers[i];
        assert(cs[i as int] == pair_view(*p));
        if equal_paths(p.1.path.as_str(), file) {
            let ghost before = r@;
            r.push((p.1.calling_function.clone(), p.0.clone(), p.1.line));
            assert(uses_view(r@) =~= uses_view(before).push(
                (cs[i as int].1.calling_function, cs[i as int].0, cs[i as int].1.line),
            ));
        }
        i = i + 1;
    }
    r
}

fn without_repeats(v: &Vec<(String, String, u32)>) -> (r: Vec<(String, String, u32)>)
    ensures
        uses_view(r@) == uses_once(uses_view(v@)),
{
    let ghost s = uses_view(v@);
    let mut r: Vec<(String, String, u32)> = Vec::new();
    let mut i: usize = 0;
    assert(uses_view(r@) =~= uses_once(s.take(0)));
    while i < v.len()
        invariant
            i <= v@.len(),
            s == uses_view(v@),
            uses_view(r@) == uses_once(s.take(i as int)),
        decreases v@.len() - i,
    {
        let ghost t = s.take(i + 1);
        let x = &v[i];
        assert(t.drop_last() =~= s.take(i as int));
        assert(t.last() == use_view(*x));
        let same = if i == 0 {
            false
        } else {
            let y = &v[i - 1];
            assert(t[t.len() - 2] == use_view(*y));
            same_text(x.0.as_str(), y.0.as_str()) && same_text(x.1.as_str(), y.1.as_str()) && x.2
                == y.2
        };
        if !same {
            let ghost before = r@;
            r.push((x.0.clone(), x.1.clone(), x.2));
            assert(uses_view(r@) =~= uses_view(before).push(use_view(*x)));
            if i == 0 {
                assert(uses_view(r@) =~= t);
            }
        }
        i = i + 1;
    }
    assert(s.take(v@.len() as int) =~= s);
    r
}

fn is_beside(file: &str, target: &str) -> (r: bool)
    ensures
        r == beside(file@, target@),
{
    match (parent_of(file), parent_of(target)) {
        (Some(a), Some(b)) => equal_paths(a.as_str(), b.as_str()),
        _ => false,
    }
}

fn dependents_ordered(a: &Dependent, b: &Dependent, target: &str) -> (r: bool)
    ensures
        r == dependent_order(target@)(a@, b@),
{
    let x = is_beside(a.path.as_str(), target);
    let y = is_beside(b.path.as_str(), target);
    if x != y {
        x
    } else if a.is_test != b.is_test {
        b.is_test
    } else {
        paths_ordered(a.path.as_str(), b.path.as_str())
    }
}

fn find_dependents(callers: &Vec<(String, CallerMatch)>, tests: &Vec<String>, target: &str) -> (r: Vec<
    Dependent,
>)
    ensures
        dependents_view(r@) == dependents(pairs_view(callers@), strs(tests@), target@),
{
    let ghost cs = pairs_view(callers@);
    let ghost ts = strs(tests@);
    assert(cs.len() == callers@.len());
    let all = files_calling(callers, target);
    assert(strs(all@).len() == all@.len());
    let files = paths_once(&all);
    let ghost f = strs(files@);
    let ghost g = |f: Seq<char>| dependent_of(cs, f, ts);
    let mut r: Vec<Dependent> = Vec::new();
    let mut i: usize = 0;
    while i < files.len()
        invariant
            i <= files@.len(),
            cs == pairs_view(callers@),
            cs.len() == callers@.len(),
            ts == strs(tests@),
            f == strs(files@),
            g == (|f: Seq<char>| dependent_of(cs, f, ts)),
            r@.len() == i,
            forall|k: int| 0 <= k < i ==> (#[trigger] r@[k])@ == g(f[k]),
        decreases files@.len() - i,
    {
        assert(f[i as int] == files@[i as int]@);
        let file = files[i].as_str();
        let mut uses = uses_from(callers, file);
        proof {
            lemma_sort_map(
                uses@,
                |u: (String, String, u32)| use_view(u),
                use_le(),
                use_order(),
            );
        }
        sort_by(&mut uses, uses_ordered, Ghost(use_le()));
        let symbols = without_repeats(&uses);
        let is_test = is_among(tests, file);
        r.push(Dependent { path: files[i].clone(), symbols, is_test });
        i = i + 1;
    }
    assert(dependents_view(r@) =~= f.map_values(g));
    let ghost le = |a: Dependent, b: Dependent| dependent_order(target@)(a@, b@);
    let order = |a: &Dependent, b: &Dependent| -> (r: bool)
        ensures
            r == dependent_order(target@)(a@, b@),
        { dependents_ordered(a, b, target) };
    proof {
        lemma_sort_map(r@, |d: Dependent| d@, le, dependent_order(target@));
    }
    sort_by(&mut r, order, Ghost(le));
    r
}

// ---------------------------------------------------------------------------
// The analysis
// ---------------------------------------------------------------------------

/// The files that depend on the target, where any symbol is looked for.
pub open spec fn dependents_of(
    names: Seq<Seq<char>>,
    cs: Seq<(Seq<char>, CallerView)>,
    tests: Seq<Seq<char>>,
    target: Seq<char>,
) -> Seq<DependentView> {
    if names.len() > 0 {
        dependents(cs, tests, target)
    } else {
        Seq::empty()
    }
}

/// How many dependents are shown at most.
pub open spec fn dependents_limit(limit: Option<usize>) -> usize {
    match limit {
        Some(n) => n,
        None => MAX_DEPENDENTS,
    }
}

/// The page of the dependents that starts at `offset`.
pub open spec fn shown_dependents(d: Seq<DependentView>, limit: Option<usize>, offset: nat) -> Seq<
    DependentView,
> {
    page(d, Some(dependents_limit(limit)), offset)
}

/// What the file depends on, and what depends on it. The functions are those that it
/// calls with the files that define them, the calls are those of the symbols that
/// are looked for. Of the dependents a page is kept.
pub fn analyze_deps(
    path: &str,
    content: &str,
    resolved: &Vec<ResolvedCallee>,
    import_files: &Vec<String>,
    imports: &Vec<ImportLine>,
    callers: &Vec<(String, CallerMatch)>,
    test_files: &Vec<String>,
    limit: Option<usize>,
    offset: usize,
) -> (r: DepsResult)
    ensures
        r.target@ == path@,
        r.offset == offset,
        match file_type(path@) {
            FileType::Code(lang) => {
                let names = searched(exported(content@, lang));
                let d = dependents_of(names, pairs_view(callers@), strs(test_files@), path@);
                &&& locals_view(r.uses_local@) == local_deps(
                    callees_view(resolved@),
                    strs(import_files@),
                    path@,
                )
                &&& strs(r.uses_external@) == sorted_names(
                    modules(imports@, lang, imports@.len() as int),
                )
                &&& dependents_view(r.used_by@) == shown_dependents(d, limit, offset as nat)
                &&& r.total_dependents == d.len()
                &&& r.exported_count == exported(content@, lang).len()
                &&& r.searched_count == names.len()
            },
            _ => {
                &&& r.uses_local@.len() == 0
                &&& r.uses_external@.len() == 0
                &&& r.used_by@.len() == 0
                &&& r.total_dependents == 0
                &&& r.exported_count == 0
                &&& r.searched_count == 0
            },
        },
{
    let lang = match detect_file_type(path) {
        FileType::Code(l) => l,
        _ => {
            return DepsResult {
                target: path.to_owned(),
                uses_local: Vec::new(),
                uses_external: Vec::new(),
                used_by: Vec::new(),
                total_dependents: 0,
                offset,
                exported_count: 0,
                searched_count: 0,
            };
        },
    };
    let all = exported_symbols(content, lang);
    assert(strs(all@).len() == all@.len());
    let exported_count: usize = all.len();
    let names = searched_symbols(all);
    assert(strs(names@).len() == names@.len());
    let searched_count: usize = names.len();
    let uses_local = find_local_deps(resolved, import_files, path);
    let uses_external = find_modules(imports, lang);
    let mut used_by: Vec<Dependent> = Vec::new();
    assert(dependents_view(used_by@) =~= Seq::<DependentView>::empty());
    if searched_count > 0 {
        used_by = find_dependents(callers, test_files, path);
    }
    let ghost d = dependents_view(used_by@);
    assert(d.len() == used_by@.len());
    let total_dependents: usize = used_by.len();
    let cap: usize = match limit {
        Some(n) => n,
        None => MAX_DEPENDENTS,
    };
    let used_by = take_page(used_by, Some(cap), offset);
    assert(dependents_view(used_by@) =~= shown_dependents(d, limit, offset as nat));
    DepsResult {
        target: path.to_owned(),
        uses_local,
        uses_external,
        used_by,
        total_dependents,
        offset,
        exported_count,
        searched_count,
    }
}

proof fn lemma_distinct_paths(v: Seq<Seq<char>>, n: int)
    requires
        0 <= n <= v.len(),
    ensures
        forall|i: int, j: int|
            0 <= i < j < distinct_paths(v, n).len() ==> !same_path(
                #[trigger] distinct_paths(v, n)[i],
                #[trigger] distinct_paths(v, n)[j],
            ),
        forall|i: int| 0 <= i < n ==> has_path(distinct_paths(v, n), #[trigger] v[i]),
    decreases n,
{
    if n > 0 {
        lemma_distinct_paths(v, n - 1);
        let r = distinct_paths(v, n - 1);
        let t = distinct_paths(v, n);
        assert forall|i: int, j: int| 0 <= i < j < t.len() implies !same_path(
            #[trigger] t[i],
            #[trigger] t[j],
        ) by {
            assert(t[i] == r[i]);
            if j < r.len() {
                assert(t[j] == r[j]);
            } else {
                assert(!has_path(r, v[n - 1]));
            }
        }
        assert forall|i: int| 0 <= i < n implies has_path(t, #[trigger] v[i]) by {
            if i < n - 1 {
                assert(has_path(r, v[i]));
                let k = choose|k: int| 0 <= k < r.len() && same_path(#[trigger] r[k], v[i]);
                assert(t[k] == r[k]);
            } else if !has_path(r, v[n - 1]) {
                assert(t[r.len() as int] == v[n - 1]);
            }
        }
    }
}

/// Every file that is used is listed, and each once.
pub proof fn law_used_files_once(cs: Seq<CalleeView>, imports: Seq<Seq<char>>, path: Seq<char>)
    ensures
        forall|i: int, j: int|
            0 <= i < j < used_files(cs, imports, path).len() ==> !same_path(
                #[trigger] used_files(cs, imports, path)[i],
                #[trigger] used_files(cs, imports, path)[j],
            ),
        forall|i: int|
            0 <= i < imports.len() ==> has_path(used_files(cs, imports, path), #[trigger] imports[i]),
{
    let files = callee_files(cs, path, cs.len() as int);
    let all = files + imports;
    lemma_distinct_paths(all, all.len() as int);
    assert forall|i: int| 0 <= i < imports.len() implies has_path(
        used_files(cs, imports, path),
        #[trigger] imports[i],
    ) by {
        assert(all[files.len() + i] == imports[i]);
    }
}

/// No more dependents are shown than the limit. Where the first page ends the next one
/// starts, so that page by page every dependent is shown once.
pub proof fn law_dependents_bounded(d: Seq<DependentView>, limit: Option<usize>, offset: nat)
    ensures
        shown_dependents(d, limit, offset).len() <= dependents_limit(limit),
        shown_dependents(d, limit, offset) + rest(d, (offset + dependents_limit(limit)) as nat)
            == rest(d, offset),
{
    law_pages_tile(d, dependents_limit(limit), offset);
}

proof fn lemma_uses_once(s: Seq<(Seq<char>, Seq<char>, u32)>)
    ensures
        forall|x: (Seq<char>, Seq<char>, u32)| #[trigger] uses_once(s).contains(x) <==> s.contains(x),
    decreases s.len(),
{
    if s.len() > 1 {
        let t = s.drop_last();
        lemma_uses_once(t);
        let q = uses_once(t);
        let r = uses_once(s);
        assert forall|x: (Seq<char>, Seq<char>, u32)| #[trigger] r.contains(x) <==> s.contains(x) by {
            if r.contains(x) {
                let k = choose|k: int| 0 <= k < r.len() && r[k] == x;
                if k < q.len() {
                    assert(q[k] == x);
                    assert(q.contains(x));
                    let j = choose|j: int| 0 <= j < t.len() && t[j] == x;
                    assert(s[j] == x);
                } else {
                    assert(s[s.len() - 1] == x);
                }
            }
            if s.contains(x) {
                let j = choose|j: int| 0 <= j < s.len() && s[j] == x;
                if j < t.len() {
                    assert(t[j] == x);
                } else if s.last() == s[s.len() - 2] {
                    assert(t[t.len() - 1] == x);
                }
                if t.contains(x) {
                    assert(q.contains(x));
                    let k = choose|k: int| 0 <= k < q.len() && q[k] == x;
                    assert(r[k] == x);
                } else {
                    assert(r[q.len() as int] == x);
                }
            }
        }
    }
}

proof fn lemma_uses_in_file(cs: Seq<(Seq<char>, CallerView)>, file: Seq<char>, n: int)
    requires
        0 <= n <= cs.len(),
    ensures
        forall|k: int|
            0 <= k < n && same_path((#[trigger] cs[k]).1.path, file) ==> uses_in_file(
                cs,
                file,
                n,
            ).contains((cs[k].1.calling_function, cs[k].0, cs[k].1.line)),
        forall|u: (Seq<char>, Seq<char>, u32)| #[trigger]
            uses_in_file(cs, file, n).contains(u) ==> exists|k: int|
                0 <= k < n && same_path((#[trigger] cs[k]).1.path, file) && u == (
                    cs[k].1.calling_function,
                    cs[k].0,
                    cs[k].1.line,
                ),
    decreases n,
{
    if n > 0 {
        lemma_uses_in_file(cs, file, n - 1);
        let q = uses_in_file(cs, file, n - 1);
        let r = uses_in_file(cs, file, n);
        assert forall|k: int| 0 <= k < n && same_path((#[trigger] cs[k]).1.path, file) implies r.contains(
            (cs[k].1.calling_function, cs[k].0, cs[k].1.line),
        ) by {
            let u = (cs[k].1.calling_function, cs[k].0, cs[k].1.line);
            if k < n - 1 {
                let a = choose|a: int| 0 <= a < q.len() && q[a] == u;
                assert(r[a] == u);
            } else {
                assert(r[q.len() as int] == u);
            }
        }
        assert forall|u: (Seq<char>, Seq<char>, u32)| #[trigger] r.contains(u) implies exists|k: int|
            0 <= k < n && same_path((#[trigger] cs[k]).1.path, file) && u == (
                cs[k].1.calling_function,
                cs[k].0,
                cs[k].1.line,
            ) by {
            let a = choose|a: int| 0 <= a < r.len() && r[a] == u;
            if a < q.len() {
                assert(q[a] == u);
                assert(q.contains(u));
                let k = choose|k: int|
                    0 <= k < n - 1 && same_path((#[trigger] cs[k]).1.path, file) && u == (
                        cs[k].1.calling_function,
                        cs[k].0,
                        cs[k].1.line,
                    );
                assert(same_path(cs[k].1.path, file));
            } else {
                assert(same_path(cs[n - 1].1.path, file));
            }
        }
    }
}

proof fn lemma_caller_files(cs: Seq<(Seq<char>, CallerView)>, path: Seq<char>, n: int)
    requires
        0 <= n <= cs.len(),
    ensures
        forall|k: int|
            0 <= k < n && !same_path((#[trigger] cs[k]).1.path, path) ==> caller_files(
                cs,
                path,
                n,
            ).contains(cs[k].1.path),
        forall|f: Seq<char>| #[trigger]
            caller_files(cs, path, n).contains(f) ==> !same_path(f, path) && exists|k: int|
                0 <= k < n && (#[trigger] cs[k]).1.path == f,
    decreases n,
{
    if n > 0 {
        lemma_caller_files(cs, path, n - 1);
        let q = caller_files(cs, path, n - 1);
        let r = caller_files(cs, path, n);
        assert forall|k: int| 0 <= k < n && !same_path((#[trigger] cs[k]).1.path, path) implies r.contains(
            cs[k].1.path,
        ) by {
            if k < n - 1 {
                let a = choose|a: int| 0 <= a < q.len() && q[a] == cs[k].1.path;
                assert(r[a] == cs[k].1.path);
            } else {
                assert(r[q.len() as int] == cs[k].1.path);
            }
        }
        assert forall|f: Seq<char>| #[trigger] r.contains(f) implies !same_path(f, path) && exists|
            k: int,
        | 0 <= k < n && (#[trigger] cs[k]).1.path == f by {
            let a = choose|a: int| 0 <= a < r.len() && r[a] == f;
            if a < q.len() {
                assert(q[a] == f);
                assert(q.contains(f));
                let k = choose|k: int| 0 <= k < n - 1 && (#[trigger] cs[k]).1.path == f;
                assert(cs[k].1.path == f);
            } else {
                assert(cs[n - 1].1.path == f);
            }
        }
    }
}

proof fn lemma_distinct_from(v: Seq<Seq<char>>, n: int)
    requires
        0 <= n <= v.len(),
    ensures
        forall|f: Seq<char>| #[trigger] distinct_paths(v, n).contains(f) ==> v.contains(f),
    decreases n,
{
    if n > 0 {
        lemma_distinct_from(v, n - 1);
        let q = distinct_paths(v, n - 1);
        let r = distinct_paths(v, n);
        assert forall|f: Seq<char>| #[trigger] r.contains(f) implies v.contains(f) by {
            let a = choose|a: int| 0 <= a < r.len() && r[a] == f;
            if a < q.len() {
                assert(q[a] == f);
                assert(q.contains(f));
            } else {
                assert(v[n - 1] == f);
            }
        }
    }
}

/// Files are told apart by their paths: no two of the dependents are one file, none is
/// the target, and each is marked as a test exactly if it is listed as one.
pub proof fn law_dependents_are_files(
    cs: Seq<(Seq<char>, CallerView)>,
    tests: Seq<Seq<char>>,
    target: Seq<char>,
    d: DependentView,
)
    requires
        dependents(cs, tests, target).contains(d),
    ensures
        !same_path(d.path, target),
        d.is_test <==> exists|i: int| 0 <= i < tests.len() && same_path(#[trigger] tests[i], d.path),
        exists|k: int| 0 <= k < cs.len() && (#[trigger] cs[k]).1.path == d.path,
{
    let files = caller_files(cs, target, cs.len() as int);
    let once = distinct_paths(files, files.len() as int);
    let of = |f: Seq<char>| dependent_of(cs, f, tests);
    let all = once.map_values(of);
    crate::sort::law_sort_keeps_members(all, dependent_order(target), d);
    let a = choose|a: int| 0 <= a < all.len() && all[a] == d;
    assert(once.contains(once[a]));
    lemma_distinct_from(files, files.len() as int);
    assert(files.contains(d.path));
    lemma_caller_files(cs, target, cs.len() as int);
}

/// No use is lost: every call of a symbol of the target from another file stands among
/// the uses of that file.
pub proof fn law_every_use_is_listed(
    cs: Seq<(Seq<char>, CallerView)>,
    tests: Seq<Seq<char>>,
    target: Seq<char>,
    k: int,
)
    requires
        0 <= k < cs.len(),
        !same_path(cs[k].1.path, target),
    ensures
        exists|d: DependentView| #[trigger]
            dependents(cs, tests, target).contains(d) && same_path(d.path, cs[k].1.path)
                && d.symbols.contains((cs[k].1.calling_function, cs[k].0, cs[k].1.line)),
{
    let files = caller_files(cs, target, cs.len() as int);
    let once = distinct_paths(files, files.len() as int);
    let of = |f: Seq<char>| dependent_of(cs, f, tests);
    let all = once.map_values(of);
    assert(files.contains(cs[k].1.path)) by {
        lemma_caller_files(cs, target, cs.len() as int);
    }
    let i = choose|i: int| 0 <= i < files.len() && files[i] == cs[k].1.path;
    assert(has_path(once, files[i])) by {
        lemma_distinct_paths(files, files.len() as int);
    }
    let a = choose|a: int| 0 <= a < once.len() && same_path(#[trigger] once[a], files[i]);
    let d = all[a];
    assert(dependents(cs, tests, target).contains(d)) by {
        assert(all.contains(d));
        crate::sort::law_sort_keeps_members(all, dependent_order(target), d);
    }
    let uses = uses_in_file(cs, once[a], cs.len() as int);
    let u = (cs[k].1.calling_function, cs[k].0, cs[k].1.line);
    assert(uses.contains(u)) by {
        lemma_uses_in_file(cs, once[a], cs.len() as int);
        assert(same_path(cs[k].1.path, once[a]));
    }
    crate::sort::law_sort_keeps_members(uses, use_order(), u);
    assert(uses_once(stable_sort(uses, use_order())).contains(u)) by {
        lemma_uses_once(stable_sort(uses, use_order()));
    }
    assert(d.symbols.contains(u));
}

/// Nothing but calls is listed as a use: each use of a dependent is a call from that
/// file.
pub proof fn law_uses_are_calls(
    cs: Seq<(Seq<char>, CallerView)>,
    tests: Seq<Seq<char>>,
    target: Seq<char>,
    d: DependentView,
    u: (Seq<char>, Seq<char>, u32),
)
    requires
        dependents(cs, tests, target).contains(d),
        d.symbols.contains(u),
    ensures
        exists|k: int|
            0 <= k < cs.len() && same_path((#[trigger] cs[k]).1.path, d.path) && u == (
                cs[k].1.calling_function,
                cs[k].0,
                cs[k].1.line,
            ),
{
    let files = caller_files(cs, target, cs.len() as int);
    let once = distinct_paths(files, files.len() as int);
    let of = |f: Seq<char>| dependent_of(cs, f, tests);
    let all = once.map_values(of);
    crate::sort::law_sort_keeps_members(all, dependent_order(target), d);
    let a = choose|a: int| 0 <= a < all.len() && all[a] == d;
    let uses = uses_in_file(cs, once[a], cs.len() as int);
    lemma_uses_once(stable_sort(uses, use_order()));
    crate::sort::law_sort_keeps_members(uses, use_order(), u);
    lemma_uses_in_file(cs, once[a], cs.len() as int);
}

proof fn lemma_dependent_order(target: Seq<char>)
    ensures
        crate::sort::is_preorder(dependent_order(target)),
{
    let le = dependent_order(target);
    assert forall|a: DependentView, b: DependentView| #[trigger] le(a, b) || le(b, a) by {
        crate::paths::lemma_path_total(
            crate::paths::components(a.path),
            crate::paths::components(b.path),
            0,
        );
    }
    assert forall|a: DependentView, b: DependentView, c: DependentView| #[trigger]
        le(a, b) && #[trigger] le(b, c) implies le(a, c) by {
        if path_le(a.path, b.path) && path_le(b.path, c.path) {
            crate::paths::lemma_path_trans(
                crate::paths::components(a.path),
                crate::paths::components(b.path),
                crate::paths::components(c.path),
                0,
            );
        }
    }
}

/// Dependents in the directory of the target come first, and of those that are alike
/// in this the tests come last.
pub proof fn law_dependents_ranked(
    cs: Seq<(Seq<char>, CallerView)>,
    tests: Seq<Seq<char>>,
    target: Seq<char>,
    i: int,
    j: int,
)
    requires
        0 <= i < j < dependents(cs, tests, target).len(),
    ensures
        beside(dependents(cs, tests, target)[j].path, target) ==> beside(
            dependents(cs, tests, target)[i].path,
            target,
        ),
        beside(dependents(cs, tests, target)[i].path, target) == beside(
            dependents(cs, tests, target)[j].path,
            target,
        ) && dependents(cs, tests, target)[i].is_test ==> dependents(cs, tests, target)[j].is_test,
        !same_path(
            dependents(cs, tests, target)[i].path,
            dependents(cs, tests, target)[j].path,
        ),
{
    let files = caller_files(cs, target, cs.len() as int);
    let once = distinct_paths(files, files.len() as int);
    let of = |f: Seq<char>| dependent_of(cs, f, tests);
    let all = once.map_values(of);
    lemma_dependent_order(target);
    crate::sort::law_sort_orders(all, dependent_order(target));
    let d = dependents(cs, tests, target);
    assert(dependent_order(target)(d[i], d[j]));
    lemma_distinct_paths(files, files.len() as int);
    lemma_sorted_distinct(all, dependent_order(target), i, j);
}

proof fn lemma_sorted_distinct(
    all: Seq<DependentView>,
    le: spec_fn(DependentView, DependentView) -> bool,
    i: int,
    j: int,
)
    requires
        0 <= i < j < stable_sort(all, le).len(),
        forall|a: int, b: int|
            0 <= a < b < all.len() ==> !same_path((#[trigger] all[a]).path, (#[trigger] all[b]).path),
    ensures
        !same_path(stable_sort(all, le)[i].path, stable_sort(all, le)[j].path),
{
    broadcast use vstd::seq_lib::group_to_multiset_ensures;

    let s = stable_sort(all, le);
    crate::sort::law_sort_keeps_elements(all, le);
    crate::sort::law_sort_keeps_members(all, le, s[i]);
    crate::sort::law_sort_keeps_members(all, le, s[j]);
    assert(s.contains(s[i]) && s.contains(s[j]));
    let a = choose|a: int| 0 <= a < all.len() && all[a] == s[i];
    let b = choose|b: int| 0 <= b < all.len() && all[b] == s[j];
    if same_path(s[i].path, s[j].path) {
        assert(a == b);
        assert(s[i] == s[j]);
        all.lemma_multiset_has_no_duplicates();
        assert(all.no_duplicates());
        assert(all.to_multiset().count(s[i]) == 1);
        s.lemma_multiset_has_no_duplicates_conv();
        assert(false);
    }
}

/// Every file that defines a function that the file calls, and every file that it
/// imports, is among those that it depends on, with the name of each function that it
/// calls there.
pub proof fn law_local_deps_are_complete(
    cs: Seq<CalleeView>,
    imports: Seq<Seq<char>>,
    path: Seq<char>,
)
    ensures
        forall|k: int|
            0 <= k < cs.len() && !same_path((#[trigger] cs[k]).file, path) ==> exists|
                d: LocalDepView,
            | #[trigger]
                local_deps(cs, imports, path).contains(d) && same_path(d.path, cs[k].file)
                    && d.symbols.contains(cs[k].name),
        forall|k: int|
            0 <= k < imports.len() ==> exists|d: LocalDepView| #[trigger]
                local_deps(cs, imports, path).contains(d) && same_path(
                    d.path,
                    #[trigger] imports[k],
                ),
{
    let files = callee_files(cs, path, cs.len() as int);
    let all_files = files + imports;
    let once = used_files(cs, imports, path);
    let of = |f: Seq<char>|
        LocalDepView {
            path: f,
            symbols: sorted_names(names_in_file(cs, f, cs.len() as int)),
        };
    let all = once.map_values(of);
    lemma_callee_files(cs, path, cs.len() as int);
    lemma_distinct_paths(all_files, all_files.len() as int);
    assert forall|k: int|
        0 <= k < cs.len() && !same_path((#[trigger] cs[k]).file, path) implies exists|
        d: LocalDepView,
    | #[trigger]
        local_deps(cs, imports, path).contains(d) && same_path(d.path, cs[k].file)
            && d.symbols.contains(cs[k].name) by {
        let i = choose|i: int| 0 <= i < files.len() && files[i] == cs[k].file;
        assert(all_files[i] == cs[k].file);
        let a = choose|a: int| 0 <= a < once.len() && same_path(#[trigger] once[a], all_files[i]);
        let d = all[a];
        assert(all.contains(d));
        crate::sort::law_sort_keeps_members(all, local_order(), d);
        lemma_names_in_file(cs, once[a], cs.len() as int);
        super::bfs_format::law_names_listed_once(names_in_file(cs, once[a], cs.len() as int));
        assert(names_in_file(cs, once[a], cs.len() as int).contains(cs[k].name));
        assert(d.symbols.contains(cs[k].name));
        assert(local_deps(cs, imports, path).contains(d));
    }
    assert forall|k: int| 0 <= k < imports.len() implies exists|d: LocalDepView| #[trigger]
        local_deps(cs, imports, path).contains(d) && same_path(d.path, #[trigger] imports[k]) by {
        assert(all_files[files.len() + k] == imports[k]);
        let a = choose|a: int|
            0 <= a < once.len() && same_path(#[trigger] once[a], all_files[files.len() + k]);
        let d = all[a];
        assert(all.contains(d));
        crate::sort::law_sort_keeps_members(all, local_order(), d);
        assert(local_deps(cs, imports, path).contains(d));
    }
}

/// The file depends on nothing else: each file that is listed defines a function that
/// it calls or is imported, and each symbol listed there is such a function.
pub proof fn law_local_deps_are_used(
    cs: Seq<CalleeView>,
    imports: Seq<Seq<char>>,
    path: Seq<char>,
    d: LocalDepView,
)
    requires
        local_deps(cs, imports, path).contains(d),
    ensures
        imports.contains(d.path) || exists|k: int|
            0 <= k < cs.len() && (#[trigger] cs[k]).file == d.path && !same_path(d.path, path),
        forall|s: Seq<char>| #[trigger]
            d.symbols.contains(s) ==> exists|k: int|
                0 <= k < cs.len() && same_path((#[trigger] cs[k]).file, d.path) && cs[k].name == s,
{
    let files = callee_files(cs, path, cs.len() as int);
    let all_files = files + imports;
    let once = used_files(cs, imports, path);
    let of = |f: Seq<char>|
        LocalDepView {
            path: f,
            symbols: sorted_names(names_in_file(cs, f, cs.len() as int)),
        };
    let all = once.map_values(of);
    crate::sort::law_sort_keeps_members(all, local_order(), d);
    let a = choose|a: int| 0 <= a < all.len() && all[a] == d;
    assert(once.contains(once[a]));
    lemma_distinct_from(all_files, all_files.len() as int);
    let i = choose|i: int| 0 <= i < all_files.len() && all_files[i] == d.path;
    lemma_callee_files(cs, path, cs.len() as int);
    if i < files.len() {
        assert(files[i] == d.path);
        assert(files.contains(d.path));
    } else {
        assert(imports[i - files.len()] == d.path);
    }
    lemma_names_in_file(cs, once[a], cs.len() as int);
    super::bfs_format::law_names_listed_once(names_in_file(cs, once[a], cs.len() as int));
}

proof fn lemma_callee_files(cs: Seq<CalleeView>, path: Seq<char>, n: int)
    requires
        0 <= n <= cs.len(),
    ensures
        forall|k: int|
            0 <= k < n && !same_path((#[trigger] cs[k]).file, path) ==> callee_files(
                cs,
                path,
                n,
            ).contains(cs[k].file),
        forall|f: Seq<char>| #[trigger]
            callee_files(cs, path, n).contains(f) ==> !same_path(f, path) && exists|k: int|
                0 <= k < n && (#[trigger] cs[k]).file == f,
    decreases n,
{
    if n > 0 {
        lemma_callee_files(cs, path, n - 1);
        let q = callee_files(cs, path, n - 1);
        let r = callee_files(cs, path, n);
        assert forall|k: int| 0 <= k < n && !same_path((#[trigger] cs[k]).file, path) implies r.contains(
            cs[k].file,
        ) by {
            if k < n - 1 {
                let a = choose|a: int| 0 <= a < q.len() && q[a] == cs[k].file;
                assert(r[a] == cs[k].file);
            } else {
                assert(r[q.len() as int] == cs[k].file);
            }
        }
        assert forall|f: Seq<char>| #[trigger] r.contains(f) implies !same_path(f, path) && exists|
            k: int,
        | 0 <= k < n && (#[trigger] cs[k]).file == f by {
            let a = choose|a: int| 0 <= a < r.len() && r[a] == f;
            if a < q.len() {
                assert(q[a] == f);
                assert(q.contains(f));
                let k = choose|k: int| 0 <= k < n - 1 && (#[trigger] cs[k]).file == f;
                assert(cs[k].file == f);
            } else {
                assert(cs[n - 1].file == f);
            }
        }
    }
}

proof fn lemma_names_in_file(cs: Seq<CalleeView>, file: Seq<char>, n: int)
    requires
        0 <= n <= cs.len(),
    ensures
        forall|k: int|
            0 <= k < n && same_path((#[trigger] cs[k]).file, file) ==> names_in_file(
                cs,
                file,
                n,
            ).contains(cs[k].name),
        forall|s: Seq<char>| #[trigger]
            names_in_file(cs, file, n).contains(s) ==> exists|k: int|
                0 <= k < n && same_path((#[trigger] cs[k]).file, file) && cs[k].name == s,
    decreases n,
{
    if n > 0 {
        lemma_names_in_file(cs, file, n - 1);
        let q = names_in_file(cs, file, n - 1);
        let r = names_in_file(cs, file, n);
        assert forall|k: int| 0 <= k < n && same_path((#[trigger] cs[k]).file, file) implies r.contains(
            cs[k].name,
        ) by {
            if k < n - 1 {
                let a = choose|a: int| 0 <= a < q.len() && q[a] == cs[k].name;
                assert(r[a] == cs[k].name);
            } else {
                assert(r[q.len() as int] == cs[k].name);
            }
        }
        assert forall|s: Seq<char>| #[trigger] r.contains(s) implies exists|k: int|
            0 <= k < n && same_path((#[trigger] cs[k]).file, file) && cs[k].name == s by {
            let a = choose|a: int| 0 <= a < r.len() && r[a] == s;
            if a < q.len() {
                assert(q[a] == s);
                assert(q.contains(s));
                let k = choose|k: int|
                    0 <= k < n - 1 && same_path((#[trigger] cs[k]).file, file) && cs[k].name == s;
                assert(cs[k].name == s);
            } else {
                assert(cs[n - 1].name == s);
            }
        }
    }
}

/// The modules that are shown are those that an import line names, comes from outside
/// the project and that do not come with the language: all of them, and no other.
pub proof fn law_modules_are_complete(v: Seq<ImportLine>, lang: Lang, n: int, m: Seq<char>)
    requires
        0 <= n <= v.len(),
    ensures
        modules(v, lang, n).contains(m) <==> exists|i: int|
            0 <= i < n && import_source((#[trigger] v[i]).line@) == m && m.len() > 0 && v[i].external
                && !in_stdlib(m, lang) && names_module(m),
        sorted_names(modules(v, lang, n)).contains(m) <==> modules(v, lang, n).contains(m),
    decreases n,
{
    super::bfs_format::law_names_listed_once(modules(v, lang, n));
    if n > 0 {
        law_modules_are_complete(v, lang, n - 1, m);
        let q = modules(v, lang, n - 1);
        let r = modules(v, lang, n);
        if r.contains(m) {
            let a = choose|a: int| 0 <= a < r.len() && r[a] == m;
            if a < q.len() {
                assert(q[a] == m);
                let i = choose|i: int|
                    0 <= i < n - 1 && import_source((#[trigger] v[i]).line@) == m && m.len() > 0
                        && v[i].external && !in_stdlib(m, lang) && names_module(m);
                assert(v[i].external);
            } else {
                assert(v[n - 1].external);
            }
        }
        if exists|i: int|
            0 <= i < n && import_source((#[trigger] v[i]).line@) == m && m.len() > 0 && v[i].external
                && !in_stdlib(m, lang) && names_module(m) {
            let i = choose|i: int|
                0 <= i < n && import_source((#[trigger] v[i]).line@) == m && m.len() > 0
                    && v[i].external && !in_stdlib(m, lang) && names_module(m);
            if i < n - 1 {
                assert(v[i].external);
                let a = choose|a: int| 0 <= a < q.len() && q[a] == m;
                assert(r[a] == m);
            } else {
                assert(r[q.len() as int] == m);
            }
        }
    }
}

/// The name is that of an entry that defines something, or of a child of such an entry
/// that does.
pub open spec fn defines(entries: Seq<EntryView>, n: int, name: Seq<char>) -> bool {
    exists|i: int|
        0 <= i < n && (#[trigger] entries[i]).kind != OutlineKind::Import && entries[i].kind
            != OutlineKind::Export && (entries[i].name == name || exists|j: int|
            0 <= j < entries[i].children.len() && (#[trigger] entries[i].children[j]).kind
                != OutlineKind::Import && entries[i].children[j].kind != OutlineKind::Export
                && entries[i].children[j].name == name)
}

proof fn lemma_child_names(c: Seq<EntryView>, n: int, name: Seq<char>)
    requires
        0 <= n <= c.len(),
    ensures
        child_names(c, n).contains(name) <==> exists|j: int|
            0 <= j < n && (#[trigger] c[j]).kind != OutlineKind::Import && c[j].kind
                != OutlineKind::Export && c[j].name == name,
    decreases n,
{
    if n > 0 {
        lemma_child_names(c, n - 1, name);
        let q = child_names(c, n - 1);
        let r = child_names(c, n);
        if r.contains(name) {
            let a = choose|a: int| 0 <= a < r.len() && r[a] == name;
            if a < q.len() {
                assert(q[a] == name);
            } else {
                assert(c[n - 1].name == name);
            }
        }
        if q.contains(name) {
            let a = choose|a: int| 0 <= a < q.len() && q[a] == name;
            assert(r[a] == name);
        }
        if !passes_on(c[n - 1].kind) {
            assert(r[q.len() as int] == c[n - 1].name);
        }
    }
}

proof fn lemma_defined_names(entries: Seq<EntryView>, n: int, name: Seq<char>)
    requires
        0 <= n <= entries.len(),
    ensures
        defined_names(entries, n).contains(name) <==> defines(entries, n, name),
    decreases n,
{
    if n > 0 {
        lemma_defined_names(entries, n - 1, name);
        let e = entries[n - 1];
        let q = defined_names(entries, n - 1);
        let r = defined_names(entries, n);
        let own = entry_names(e);
        let c = child_names(e.children, e.children.len() as int);
        lemma_child_names(e.children, e.children.len() as int, name);
        assert(own.contains(name) <==> e.name == name || c.contains(name)) by {
            assert(own[0] == e.name);
            if c.contains(name) {
                let a = choose|a: int| 0 <= a < c.len() && c[a] == name;
                assert(own[a + 1] == name);
            }
            if own.contains(name) {
                let a = choose|a: int| 0 <= a < own.len() && own[a] == name;
                if a > 0 {
                    assert(c[a - 1] == name);
                }
            }
        }
        if r.contains(name) {
            let a = choose|a: int| 0 <= a < r.len() && r[a] == name;
            if a < q.len() {
                assert(q[a] == name);
                let i = choose|i: int|
                    0 <= i < n - 1 && (#[trigger] entries[i]).kind != OutlineKind::Import
                        && entries[i].kind != OutlineKind::Export && (entries[i].name == name || exists|
                        j: int,
                    |
                        0 <= j < entries[i].children.len() && (#[trigger] entries[i].children[j]).kind
                            != OutlineKind::Import && entries[i].children[j].kind
                            != OutlineKind::Export && entries[i].children[j].name == name);
                assert(entries[i].kind != OutlineKind::Import);
            } else {
                assert(own[a - q.len()] == name);
                assert(own.contains(name));
                assert(entries[n - 1].kind != OutlineKind::Import);
            }
        }
        if defines(entries, n, name) {
            let i = choose|i: int|
                0 <= i < n && (#[trigger] entries[i]).kind != OutlineKind::Import && entries[i].kind
                    != OutlineKind::Export && (entries[i].name == name || exists|j: int|
                    0 <= j < entries[i].children.len() && (#[trigger] entries[i].children[j]).kind
                        != OutlineKind::Import && entries[i].children[j].kind != OutlineKind::Export
                        && entries[i].children[j].name == name);
            if i < n - 1 {
                assert(entries[i].kind != OutlineKind::Import);
                assert(defines(entries, n - 1, name));
                let a = choose|a: int| 0 <= a < q.len() && q[a] == name;
                assert(r[a] == name);
            } else {
                let a = choose|a: int| 0 <= a < own.len() && own[a] == name;
                assert(r[q.len() + a] == name);
            }
        }
    }
}

proof fn lemma_proper_names(names: Seq<Seq<char>>, n: int, name: Seq<char>)
    requires
        0 <= n <= names.len(),
    ensures
        proper_names(names, n).contains(name) <==> names.take(n).contains(name) && !is_placeholder(
            name,
        ),
    decreases n,
{
    if n > 0 {
        lemma_proper_names(names, n - 1, name);
        let q = proper_names(names, n - 1);
        let r = proper_names(names, n);
        let t = names.take(n);
        let u = names.take(n - 1);
        if r.contains(name) {
            let a = choose|a: int| 0 <= a < r.len() && r[a] == name;
            if a < q.len() {
                assert(q[a] == name);
                let i = choose|i: int| 0 <= i < u.len() && u[i] == name;
                assert(t[i] == name);
            } else {
                assert(t[n - 1] == name);
            }
        }
        if t.contains(name) && !is_placeholder(name) {
            let i = choose|i: int| 0 <= i < n && t[i] == name;
            if i < n - 1 {
                assert(u[i] == name);
                let a = choose|a: int| 0 <= a < q.len() && q[a] == name;
                assert(r[a] == name);
            } else {
                assert(r[q.len() as int] == name);
            }
        }
    }
}

/// A file exports what its outline defines, at the top or one level down: each name of
/// two characters or more that neither starts with an angle bracket nor stands for an
/// implementation, and nothing that the outline does not define.
pub proof fn law_exports_are_complete(content: Seq<char>, lang: Lang, name: Seq<char>)
    ensures
        exported(content, lang).contains(name) ==> defines(
            outline_of(content, lang),
            outline_of(content, lang).len() as int,
            name,
        ),
        defines(outline_of(content, lang), outline_of(content, lang).len() as int, name)
            && name.len() > 1 && name[0] != '<' && !"impl "@.is_prefix_of(name) ==> exported(
            content,
            lang,
        ).contains(name),
{
    let entries = outline_of(content, lang);
    let names = defined_names(entries, entries.len() as int);
    let all = sorted_names(names);
    lemma_defined_names(entries, entries.len() as int, name);
    super::bfs_format::law_names_listed_once(names);
    lemma_proper_names(all, all.len() as int, name);
    assert(all.take(all.len() as int) =~= all);
    reveal_strlit("<anonymous>");
    assert("<anonymous>"@[0] == '<');
}

proof fn lemma_length_order()
    ensures
        crate::sort::is_preorder(length_order()),
{
    let le = length_order();
    assert forall|a: Seq<char>, b: Seq<char>| #[trigger] le(a, b) || le(b, a) by {
        crate::text::lemma_text_order(a, b);
    }
    assert forall|a: Seq<char>, b: Seq<char>, c: Seq<char>| #[trigger]
        le(a, b) && #[trigger] le(b, c) implies le(a, c) by {
        if text_le(a, b) && text_le(b, c) {
            crate::text::lemma_text_trans(a, b, c);
        }
    }
}

/// Up to twenty-five symbols are all looked for; of more, exactly twenty-five, and none
/// that is left out takes more bytes than one that is looked for.
pub proof fn law_longest_symbols_are_searched(names: Seq<Seq<char>>, x: Seq<char>, y: Seq<char>)
    ensures
        names.len() <= 25 ==> searched(names) == names,
        names.len() > 25 ==> searched(names).len() == 25,
        searched(names).contains(x) ==> names.contains(x),
        searched(names).contains(x) && names.contains(y) && !searched(names).contains(y)
            ==> byte_len(x) >= byte_len(y),
{
    if names.len() > 25 {
        let s = stable_sort(names, length_order());
        crate::sort::law_sort_keeps_elements(names, length_order());
        crate::sort::law_sort_keeps_members(names, length_order(), x);
        crate::sort::law_sort_keeps_members(names, length_order(), y);
        lemma_length_order();
        crate::sort::law_sort_orders(names, length_order());
        let t = searched(names);
        if t.contains(x) {
            let i = choose|i: int| 0 <= i < t.len() && t[i] == x;
            assert(s[i] == x);
            if names.contains(y) && !t.contains(y) {
                let j = choose|j: int| 0 <= j < s.len() && s[j] == y;
                if j < 25 {
                    assert(t[j] == y);
                }
                assert(length_order()(s[i], s[j]));
            }
        }
    }
}

/// Of the dependents a page of fifteen is shown where nothing else is asked for: those
/// that stand from the offset on, in their order.
pub proof fn law_page_of_dependents(d: Seq<DependentView>, limit: Option<usize>, offset: nat, i: int)
    requires
        0 <= i,
        offset + i < d.len(),
    ensures
        i < (match limit {
            Some(n) => n,
            None => 15,
        }) ==> i < shown_dependents(d, limit, offset).len() && shown_dependents(d, limit, offset)[i]
            == d[offset + i],
        shown_dependents(d, limit, offset).len() <= (match limit {
            Some(n) => n,
            None => 15,
        }),
{
    super::pagination::law_page_starts_at_the_offset(d, Some(dependents_limit(limit)), offset);
}

} // verus!
