//! An index from the names of symbols to the places that define them.
//!
//! Looking a symbol up takes no walk over the files: each file is parsed once, and
//! again only when it changes.
use vstd::prelude::*;

use crate::lang::outline::{line_number, line_of_row, nodes_in, parse_content};
use crate::lang::treesitter::{
    definition_name, extract_definition_name, extract_impl_trait, extract_impl_type,
    extract_implemented_interfaces, field_line, interfaces, is_definition, is_definition_kind,
};
use crate::paths::{equal_paths, file_key, is_under, key_of, same_path, starts_with};
use crate::search::symbol::{grammar_for_path, path_lang, MAX_DEFINITION_DEPTH};
use crate::syntax::{children, shape, NodeRecord, NodeView};
use crate::text::{chars_of, lemma_strs_push, lines, lines_of, same_text, strs, views};

verus! {

/// The size above which a file is not indexed.
pub const MAX_FILE_SIZE: u64 = 500_000;

/// A place where a symbol appears.
#[derive(Debug)]
pub struct SymbolLocation {
    pub path: String,
    pub line: u32,
    pub is_definition: bool,
    pub mtime: u64,
}

/// What a place says.
pub struct LocationView {
    pub path: Seq<char>,
    pub line: u32,
    pub is_definition: bool,
    pub mtime: u64,
}

impl View for SymbolLocation {
    type V = LocationView;

    open spec fn view(&self) -> LocationView {
        LocationView {
            path: self.path@,
            line: self.line,
            is_definition: self.is_definition,
            mtime: self.mtime,
        }
    }
}

/// What the places of a list say.
pub open spec fn locations_view(v: Seq<SymbolLocation>) -> Seq<LocationView> {
    v.map_values(|l: SymbolLocation| l@)
}

// ---------------------------------------------------------------------------
// Tables
// ---------------------------------------------------------------------------

/// `dashmap::DashMap`: a map.
#[verifier::external_type_specification]
#[verifier::external_body]
#[verifier::reject_recursive_types(K)]
#[verifier::reject_recursive_types(V)]
#[verifier::reject_recursive_types(S)]
pub struct ExDashMap<K, V, S>(dashmap::DashMap<K, V, S>);

/// What a place says in a table: its path, its line, whether it is a definition, and
/// when the file was modified.
pub open spec fn row_view(r: (String, u32, bool, u64)) -> (Seq<char>, u32, bool, u64) {
    (r.0@, r.1, r.2, r.3)
}

/// What the places of a table say.
pub open spec fn rows_view(v: Seq<(String, u32, bool, u64)>) -> Seq<(Seq<char>, u32, bool, u64)> {
    v.map_values(|r: (String, u32, bool, u64)| row_view(r))
}

/// What a table of symbols holds.
pub uninterp spec fn symbol_table(
    m: dashmap::DashMap<String, Vec<(String, u32, bool, u64)>>,
) -> Map<Seq<char>, Seq<(Seq<char>, u32, bool, u64)>>;

/// What a table of files holds.
pub uninterp spec fn file_table(m: dashmap::DashMap<String, u64>) -> Map<Seq<char>, u64>;

/// `dashmap::DashMap::new`: a table of symbols that holds nothing.
#[verifier::external_body]
fn new_symbols() -> (r: dashmap::DashMap<String, Vec<(String, u32, bool, u64)>>)
    ensures
        forall|n: Seq<char>| !#[trigger] symbol_table(r).contains_key(n),
{
    dashmap::DashMap::new()
}

/// `dashmap::DashMap::get`: a copy of what the table holds for the name.
#[verifier::external_body]
fn get_rows(m: &dashmap::DashMap<String, Vec<(String, u32, bool, u64)>>, name: &str) -> (r: Option<
    Vec<(String, u32, bool, u64)>,
>)
    ensures
        r is Some <==> symbol_table(*m).contains_key(name@),
        r matches Some(v) ==> rows_view(v@) == symbol_table(*m)[name@],
{
    m.get(name).map(|v| v.value().clone())
}

/// `dashmap::DashMap::insert`: the table holds the places for the name, and for every
/// other name what it held before.
#[verifier::external_body]
fn put_rows(
    m: &mut dashmap::DashMap<String, Vec<(String, u32, bool, u64)>>,
    name: String,
    rows: Vec<(String, u32, bool, u64)>,
)
    ensures
        symbol_table(*final(m)) == symbol_table(*old(m)).insert(name@, rows_view(rows@)),
{
    m.insert(name, rows);
}

/// `dashmap::DashMap::iter`: the names that the table holds something for, each once,
/// in no order.
#[verifier::external_body]
fn symbol_names(m: &dashmap::DashMap<String, Vec<(String, u32, bool, u64)>>) -> (r: Vec<String>)
    ensures
        strs(r@).no_duplicates(),
        forall|n: Seq<char>| #[trigger] strs(r@).contains(n) <==> symbol_table(*m).contains_key(n),
{
    m.iter().map(|e| e.key().clone()).collect()
}

/// `dashmap::DashMap::len`: for how many names the table holds something.
#[verifier::external_body]
fn count_symbols(m: &dashmap::DashMap<String, Vec<(String, u32, bool, u64)>>) -> (r: usize)
    ensures
        r == symbol_table(*m).dom().len(),
{
    m.len()
}

/// `dashmap::DashMap::new`: a table of files that holds nothing.
#[verifier::external_body]
fn new_files() -> (r: dashmap::DashMap<String, u64>)
    ensures
        forall|n: Seq<char>| !#[trigger] file_table(r).contains_key(n),
{
    dashmap::DashMap::new()
}

/// `dashmap::DashMap::contains_key`: whether the table holds the file.
#[verifier::external_body]
fn has_file(m: &dashmap::DashMap<String, u64>, path: &str) -> (r: bool)
    ensures
        r == file_table(*m).contains_key(path@),
{
    m.contains_key(path)
}

/// `dashmap::DashMap::insert`: the table holds the time for the file, and for every
/// other file what it held before.
#[verifier::external_body]
fn put_file(m: &mut dashmap::DashMap<String, u64>, path: String, mtime: u64)
    ensures
        file_table(*final(m)) == file_table(*old(m)).insert(path@, mtime),
{
    m.insert(path, mtime);
}

/// `dashmap::DashMap::iter`: the files that the table holds, each once, in no order.
#[verifier::external_body]
fn file_names(m: &dashmap::DashMap<String, u64>) -> (r: Vec<String>)
    ensures
        strs(r@).no_duplicates(),
        forall|n: Seq<char>| #[trigger] strs(r@).contains(n) <==> file_table(*m).contains_key(n),
{
    m.iter().map(|e| e.key().clone()).collect()
}

/// `dashmap::DashMap::len`: how many files the table holds.
#[verifier::external_body]
fn count_files(m: &dashmap::DashMap<String, u64>) -> (r: usize)
    ensures
        r == file_table(*m).dom().len(),
{
    m.len()
}

// ---------------------------------------------------------------------------
// The symbols of a file
// ---------------------------------------------------------------------------

/// The names that node `i` defines, a definition: its own, and those of the traits,
/// types and interfaces that it implements.
pub open spec fn node_symbols(t: Seq<NodeView>, lines: Seq<Seq<char>>, i: int) -> Seq<Seq<char>> {
    let kind = t[i].kind;
    let kids = children(t, i);
    (match definition_name(t, lines, i) {
        Some(n) => seq![n],
        None => Seq::empty(),
    }) + (if kind == "impl_item"@ {
        (match field_line(t, lines, i, "trait"@) {
            Some(n) => seq![n],
            None => Seq::empty(),
        }) + (match field_line(t, lines, i, "type"@) {
            Some(n) => seq![n],
            None => Seq::empty(),
        })
    } else {
        Seq::empty()
    }) + (if kind == "class_declaration"@ || kind == "class_definition"@ {
        interfaces(t, lines, kids, kids.len() as int)
    } else {
        Seq::empty()
    })
}

/// The names, each with the line.
pub open spec fn on_line(names: Seq<Seq<char>>, line: u32) -> Seq<(Seq<char>, u32)> {
    names.map_values(|n: Seq<char>| (n, line))
}

/// The symbols that the first `n` nodes define, as far as they are not too deep.
pub open spec fn symbols_in(t: Seq<NodeView>, lines: Seq<Seq<char>>, n: int) -> Seq<(Seq<char>, u32)>
    decreases n,
{
    if n <= 0 {
        Seq::empty()
    } else {
        let r = symbols_in(t, lines, n - 1);
        if t[n - 1].depth <= MAX_DEFINITION_DEPTH && is_definition(t[n - 1].kind) {
            r + on_line(node_symbols(t, lines, n - 1), line_number(t[n - 1].start_row))
        } else {
            r
        }
    }
}

/// The symbols that a file defines, with their lines.
pub open spec fn file_symbols(path: Seq<char>, content: Seq<char>) -> Seq<(Seq<char>, u32)> {
    match path_lang(path) {
        Some(lang) => match nodes_in(content, lang) {
            Some(t) => symbols_in(t, lines(content), t.len() as int),
            None => Seq::empty(),
        },
        None => Seq::empty(),
    }
}

/// What the symbols of a list say.
pub open spec fn symbols_view(v: Seq<(String, u32, bool)>) -> Seq<(Seq<char>, u32)> {
    v.map_values(|s: (String, u32, bool)| (s.0@, s.1))
}

fn push_names(out: &mut Vec<(String, u32, bool)>, names: &Vec<String>, line: u32)
    requires
        forall|k: int| 0 <= k < old(out)@.len() ==> (#[trigger] old(out)@[k]).2,
    ensures
        symbols_view(final(out)@) == symbols_view(old(out)@) + on_line(strs(names@), line),
        forall|k: int| 0 <= k < final(out)@.len() ==> (#[trigger] final(out)@[k]).2,
{
    let ghost start = symbols_view(out@);
    let ghost add = on_line(strs(names@), line);
    let mut i: usize = 0;
    assert(start + add.take(0) =~= start);
    while i < names.len()
        invariant
            i <= names@.len(),
            add == on_line(strs(names@), line),
            symbols_view(out@) == start + add.take(i as int),
            forall|k: int| 0 <= k < out@.len() ==> (#[trigger] out@[k]).2,
        decreases names@.len() - i,
    {
        let ghost before = out@;
        out.push((names[i].clone(), line, true));
        assert(add[i as int] == (names@[i as int]@, line));
        assert(symbols_view(out@) =~= symbols_view(before).push(add[i as int]));
        assert(start + add.take(i + 1) =~= (start + add.take(i as int)).push(add[i as int]));
        i = i + 1;
    }
    assert(add.take(names@.len() as int) =~= add);
}

fn names_at(nodes: &[NodeRecord], i: usize, lines: &[&[char]]) -> (r: Vec<String>)
    requires
        i < nodes@.len(),
    ensures
        strs(r@) == node_symbols(shape(nodes@), views(lines@), i as int),
{
    broadcast use lemma_strs_push;

    let ghost t = shape(nodes@);
    let ghost l = views(lines@);
    let mut r: Vec<String> = Vec::new();
    assert(t[i as int] == nodes@[i as int]@);
    if let Some(n) = extract_definition_name(nodes, i, lines) {
        r.push(n);
    }
    let ghost a = match definition_name(t, l, i as int) {
        Some(n) => seq![n],
        None => Seq::empty(),
    };
    assert(strs(r@) =~= a);
    let kind = nodes[i].kind.as_str();
    let ghost b = if kind@ == "impl_item"@ {
        (match field_line(t, l, i as int, "trait"@) {
            Some(n) => seq![n],
            None => Seq::empty(),
        }) + (match field_line(t, l, i as int, "type"@) {
            Some(n) => seq![n],
            None => Seq::empty(),
        })
    } else {
        Seq::empty()
    };
    if same_text(kind, "impl_item") {
        if let Some(n) = extract_impl_trait(nodes, i, lines) {
            r.push(n);
        }
        if let Some(n) = extract_impl_type(nodes, i, lines) {
            r.push(n);
        }
    }
    assert(strs(r@) =~= a + b);
    if same_text(kind, "class_declaration") || same_text(kind, "class_definition") {
        let found = extract_implemented_interfaces(nodes, i, lines);
        let ghost c = strs(found@);
        let mut k: usize = 0;
        assert(a + b + c.take(0) =~= a + b);
        while k < found.len()
            invariant
                k <= found@.len(),
                c == strs(found@),
                strs(r@) == a + b + c.take(k as int),
            decreases found@.len() - k,
        {
            assert(c[k as int] == found@[k as int]@);
            r.push(found[k].clone());
            assert(a + b + c.take(k + 1) =~= (a + b + c.take(k as int)).push(c[k as int]));
            k = k + 1;
        }
        assert(c.take(found@.len() as int) =~= c);
    } else {
        assert(a + b + Seq::<Seq<char>>::empty() =~= a + b);
    }
    r
}

/// The symbols that a file defines, with their lines. All of them are definitions.
pub fn extract_symbols(path: &str, content: &str) -> (r: Vec<(String, u32, bool)>)
    ensures
        symbols_view(r@) == file_symbols(path@, content@),
        forall|k: int| 0 <= k < r@.len() ==> (#[trigger] r@[k]).2,
{
    let mut r: Vec<(String, u32, bool)> = Vec::new();
    assert(symbols_view(r@) =~= Seq::<(Seq<char>, u32)>::empty());
    let lang = match grammar_for_path(path) {
        Some(l) => l,
        None => {
            return r;
        },
    };
    let nodes = match parse_content(content, lang) {
        Some(n) => n,
        None => {
            return r;
        },
    };
    let text = chars_of(content);
    let all = lines_of(text.as_slice());
    let ghost t = shape(nodes@);
    let ghost l = views(all@);
    let mut i: usize = 0;
    while i < nodes.len()
        invariant
            i <= nodes@.len(),
            t == shape(nodes@),
            l == views(all@),
            symbols_view(r@) == symbols_in(t, l, i as int),
            forall|k: int| 0 <= k < r@.len() ==> (#[trigger] r@[k]).2,
        decreases nodes@.len() - i,
    {
        assert(t[i as int] == nodes@[i as int]@);
        if nodes[i].depth <= MAX_DEFINITION_DEPTH && is_definition_kind(nodes[i].kind.as_str()) {
            let names = names_at(nodes.as_slice(), i, all.as_slice());
            push_names(&mut r, &names, line_of_row(nodes[i].start_row));
        }
        i = i + 1;
    }
    r
}

/// A file of that path and size is indexed: its language has a grammar, and it is not
/// too large.
pub fn is_indexable(path: &str, size: u64) -> (r: bool)
    ensures
        r == (path_lang(path@) is Some && size <= MAX_FILE_SIZE),
{
    grammar_for_path(path).is_some() && size <= MAX_FILE_SIZE
}

// ---------------------------------------------------------------------------
// The index
// ---------------------------------------------------------------------------

/// An index from the names of symbols to the places that define them.
pub struct SymbolIndex {
    symbols: dashmap::DashMap<String, Vec<(String, u32, bool, u64)>>,
    indexed_files: dashmap::DashMap<String, u64>,
}

/// What an index holds: the places of each symbol, and when each file was modified
/// that was indexed.
pub struct IndexView {
    pub symbols: Map<Seq<char>, Seq<(Seq<char>, u32, bool, u64)>>,
    pub files: Map<Seq<char>, u64>,
}

impl View for SymbolIndex {
    type V = IndexView;

    closed spec fn view(&self) -> IndexView {
        IndexView { symbols: symbol_table(self.symbols), files: file_table(self.indexed_files) }
    }
}

/// The places of a symbol.
pub open spec fn places(
    m: Map<Seq<char>, Seq<(Seq<char>, u32, bool, u64)>>,
    name: Seq<char>,
) -> Seq<(Seq<char>, u32, bool, u64)> {
    if m.contains_key(name) {
        m[name]
    } else {
        Seq::empty()
    }
}

/// The places that are not in the file.
pub open spec fn outside(v: Seq<(Seq<char>, u32, bool, u64)>, path: Seq<char>) -> Seq<
    (Seq<char>, u32, bool, u64),
>
    decreases v.len(),
{
    if v.len() == 0 {
        v
    } else if same_path(v.last().0, path) {
        outside(v.drop_last(), path)
    } else {
        outside(v.drop_last(), path).push(v.last())
    }
}

/// The table with the places in the file left out.
pub open spec fn without_file(
    m: Map<Seq<char>, Seq<(Seq<char>, u32, bool, u64)>>,
    path: Seq<char>,
) -> Map<Seq<char>, Seq<(Seq<char>, u32, bool, u64)>> {
    Map::new(|k: Seq<char>| m.contains_key(k), |k: Seq<char>| outside(m[k], path))
}

/// The table with the first `n` symbols of a file added.
pub open spec fn with_symbols(
    m: Map<Seq<char>, Seq<(Seq<char>, u32, bool, u64)>>,
    path: Seq<char>,
    mtime: u64,
    symbols: Seq<(Seq<char>, u32)>,
    n: int,
) -> Map<Seq<char>, Seq<(Seq<char>, u32, bool, u64)>>
    decreases n,
{
    if n <= 0 {
        m
    } else {
        let r = with_symbols(m, path, mtime, symbols, n - 1);
        let (name, line) = symbols[n - 1];
        r.insert(name, places(r, name).push((path, line, true, mtime)))
    }
}

/// The index with the symbols of a file added.
pub open spec fn with_file(v: IndexView, path: Seq<char>, content: Seq<char>, mtime: u64) -> IndexView {
    let s = file_symbols(path, content);
    IndexView {
        symbols: with_symbols(v.symbols, path, mtime, s, s.len() as int),
        files: v.files.insert(file_key(path), mtime),
    }
}

/// The index after a file was indexed anew.
pub open spec fn reindexed(v: IndexView, path: Seq<char>, content: Seq<char>, mtime: u64) -> IndexView {
    if v.files.contains_key(file_key(path)) {
        with_file(
            IndexView { symbols: without_file(v.symbols, path), files: v.files },
            path,
            content,
            mtime,
        )
    } else {
        with_file(v, path, content, mtime)
    }
}

fn rows_outside(rows: &Vec<(String, u32, bool, u64)>, path: &str) -> (r: Vec<(String, u32, bool, u64)>)
    ensures
        rows_view(r@) == outside(rows_view(rows@), path@),
{
    let ghost v = rows_view(rows@);
    let mut r: Vec<(String, u32, bool, u64)> = Vec::new();
    let mut i: usize = 0;
    assert(rows_view(r@) =~= outside(v.take(0), path@));
    while i < rows.len()
        invariant
            i <= rows@.len(),
            v == rows_view(rows@),
            rows_view(r@) == outside(v.take(i as int), path@),
        decreases rows@.len() - i,
    {
        let x = &rows[i];
        assert(v.take(i + 1).drop_last() =~= v.take(i as int));
        assert(v.take(i + 1).last() == row_view(*x));
        if !equal_paths(x.0.as_str(), path) {
            let ghost before = r@;
            r.push((x.0.clone(), x.1, x.2, x.3));
            assert(rows_view(r@) =~= rows_view(before).push(row_view(*x)));
        }
        i = i + 1;
    }
    assert(v.take(rows@.len() as int) =~= v);
    r
}

impl SymbolIndex {
    /// An index that holds nothing.
    pub fn new() -> (r: Self)
        ensures
            r@.symbols == Map::<Seq<char>, Seq<(Seq<char>, u32, bool, u64)>>::empty(),
            r@.files == Map::<Seq<char>, u64>::empty(),
    {
        let r = SymbolIndex { symbols: new_symbols(), indexed_files: new_files() };
        assert(r@.symbols =~= Map::<Seq<char>, Seq<(Seq<char>, u32, bool, u64)>>::empty());
        assert(r@.files =~= Map::<Seq<char>, u64>::empty());
        r
    }

    /// Leaves out the places in the file.
    fn remove_file(&mut self, path: &str)
        ensures
            final(self)@.symbols == without_file(old(self)@.symbols, path@),
            final(self)@.files == old(self)@.files,
    {
        let names = symbol_names(&self.symbols);
        let ghost k = strs(names@);
        let ghost m = symbol_table(self.symbols);
        let mut i: usize = 0;
        while i < names.len()
            invariant
                i <= names@.len(),
                k == strs(names@),
                k.no_duplicates(),
                m == symbol_table(old(self).symbols),
                self.indexed_files == old(self).indexed_files,
                forall|n: Seq<char>| #[trigger] k.contains(n) <==> m.contains_key(n),
                forall|n: Seq<char>| #[trigger] symbol_table(self.symbols).contains_key(n) <==> m.contains_key(n),
                forall|j: int|
                    0 <= j < i ==> symbol_table(self.symbols)[#[trigger] k[j]] == outside(
                        m[k[j]],
                        path@,
                    ),
                forall|j: int|
                    i <= j < k.len() ==> symbol_table(self.symbols)[#[trigger] k[j]] == m[k[j]],
            decreases names@.len() - i,
        {
            let ghost before = symbol_table(self.symbols);
            assert(k[i as int] == names@[i as int]@);
            assert(k.contains(k[i as int]));
            assert(before.contains_key(k[i as int]));
            if let Some(rows) = get_rows(&self.symbols, names[i].as_str()) {
                let kept = rows_outside(&rows, path);
                let name = names[i].clone();
                put_rows(&mut self.symbols, name, kept);
            }
            proof {
                assert forall|j: int| 0 <= j < i + 1 implies symbol_table(self.symbols)[#[trigger] k[j]]
                    == outside(m[k[j]], path@) by {
                    if j < i {
                        assert(k[j] != k[i as int]);
                    }
                }
                assert forall|j: int| i + 1 <= j < k.len() implies symbol_table(self.symbols)[#[trigger] k[j]]
                    == m[k[j]] by {
                    assert(k[j] != k[i as int]);
                }
            }
            i = i + 1;
        }
        proof {
            let t = symbol_table(self.symbols);
            let g = without_file(m, path@);
            assert forall|n: Seq<char>| #[trigger] g.contains_key(n) implies t[n] == g[n] by {
                assert(k.contains(n));
                let j = choose|j: int| 0 <= j < k.len() && k[j] == n;
                assert(t[k[j]] == outside(m[k[j]], path@));
            }
            assert(t =~= g);
        }
    }

    /// Adds the symbols of a file.
    fn add_file(&mut self, path: &str, mtime: u64, symbols: &Vec<(String, u32, bool)>)
        requires
            forall|k: int| 0 <= k < symbols@.len() ==> (#[trigger] symbols@[k]).2,
        ensures
            final(self)@.symbols == with_symbols(
                old(self)@.symbols,
                path@,
                mtime,
                symbols_view(symbols@),
                symbols@.len() as int,
            ),
            final(self)@.files == old(self)@.files.insert(file_key(path@), mtime),
    {
        let ghost s = symbols_view(symbols@);
        let ghost m = symbol_table(self.symbols);
        put_file(&mut self.indexed_files, key_of(path), mtime);
        let ghost f = file_table(self.indexed_files);
        let mut i: usize = 0;
        while i < symbols.len()
            invariant
                i <= symbols@.len(),
                s == symbols_view(symbols@),
                forall|k: int| 0 <= k < symbols@.len() ==> (#[trigger] symbols@[k]).2,
                file_table(self.indexed_files) == f,
                symbol_table(self.symbols) == with_symbols(m, path@, mtime, s, i as int),
            decreases symbols@.len() - i,
        {
            let x = &symbols[i];
            assert(s[i as int] == (x.0@, x.1));
            let ghost r = symbol_table(self.symbols);
            let mut rows: Vec<(String, u32, bool, u64)> = Vec::new();
            assert(rows_view(rows@) =~= Seq::<(Seq<char>, u32, bool, u64)>::empty());
            if let Some(known) = get_rows(&self.symbols, x.0.as_str()) {
                rows = known;
            }
            let ghost before = rows@;
            rows.push((path.to_owned(), x.1, true, mtime));
            assert(rows_view(rows@) =~= places(r, x.0@).push((path@, x.1, true, mtime)));
            put_rows(&mut self.symbols, x.0.clone(), rows);
            i = i + 1;
        }
    }

    /// Indexes a file for the first time.
    pub fn build_file(&mut self, path: &str, content: &str, mtime: u64)
        ensures
            final(self)@ == with_file(old(self)@, path@, content@, mtime),
    {
        let symbols = extract_symbols(path, content);
        assert(symbols_view(symbols@).len() == symbols@.len());
        self.add_file(path, mtime, &symbols);
    }

    /// Indexes a file anew: what was known of it is replaced.
    pub fn index_file(&mut self, path: &str, content: &str, mtime: u64)
        ensures
            final(self)@ == reindexed(old(self)@, path@, content@, mtime),
    {
        let key = key_of(path);
        if has_file(&self.indexed_files, key.as_str()) {
            self.remove_file(path);
        }
        self.build_file(path, content, mtime);
    }

    /// Whether a file below the directory was indexed.
    pub fn is_built(&self, scope: &str) -> (r: bool)
        ensures
            r == exists|k: Seq<char>| #[trigger] self@.files.contains_key(k) && is_under(k, scope@),
    {
        let names = file_names(&self.indexed_files);
        let ghost k = strs(names@);
        let ghost f = self@.files;
        let mut i: usize = 0;
        while i < names.len()
            invariant
                i <= names@.len(),
                k == strs(names@),
                f == self@.files,
                forall|n: Seq<char>| #[trigger] k.contains(n) <==> f.contains_key(n),
                forall|j: int| 0 <= j < i ==> !is_under(#[trigger] k[j], scope@),
            decreases names@.len() - i,
        {
            assert(k[i as int] == names@[i as int]@);
            if starts_with(names[i].as_str(), scope) {
                assert(k.contains(k[i as int]));
                assert(f.contains_key(k[i as int]));
                return true;
            }
            i = i + 1;
        }
        assert forall|n: Seq<char>| #[trigger] f.contains_key(n) implies !is_under(n, scope@) by {
            assert(k.contains(n));
            let j = choose|j: int| 0 <= j < k.len() && k[j] == n;
            assert(!is_under(k[j], scope@));
        }
        false
    }

    /// The places of the symbol below the directory.
    pub fn lookup(&self, name: &str, scope: &str) -> (r: Vec<SymbolLocation>)
        ensures
            locations_view(r@) == found(places(self@.symbols, name@), scope@, false),
    {
        match get_rows(&self.symbols, name) {
            Some(rows) => select(&rows, scope, false),
            None => {
                let r: Vec<SymbolLocation> = Vec::new();
                assert(locations_view(r@) =~= Seq::<LocationView>::empty());
                r
            },
        }
    }

    /// The places below the directory that define the symbol.
    pub fn lookup_definitions(&self, name: &str, scope: &str) -> (r: Vec<SymbolLocation>)
        ensures
            locations_view(r@) == found(places(self@.symbols, name@), scope@, true),
    {
        match get_rows(&self.symbols, name) {
            Some(rows) => select(&rows, scope, true),
            None => {
                let r: Vec<SymbolLocation> = Vec::new();
                assert(locations_view(r@) =~= Seq::<LocationView>::empty());
                r
            },
        }
    }

    /// How many names the index holds.
    pub fn symbol_count(&self) -> (r: usize)
        ensures
            r == self@.symbols.dom().len(),
    {
        count_symbols(&self.symbols)
    }

    /// How many files were indexed.
    pub fn file_count(&self) -> (r: usize)
        ensures
            r == self@.files.dom().len(),
    {
        count_files(&self.indexed_files)
    }
}

impl Default for SymbolIndex {
    fn default() -> (r: Self)
        ensures
            r@.symbols == Map::<Seq<char>, Seq<(Seq<char>, u32, bool, u64)>>::empty(),
            r@.files == Map::<Seq<char>, u64>::empty(),
    {
        SymbolIndex::new()
    }
}

/// The place that a row stands for.
pub open spec fn location(r: (Seq<char>, u32, bool, u64)) -> LocationView {
    LocationView { path: r.0, line: r.1, is_definition: r.2, mtime: r.3 }
}

/// Those of the places that are below the directory, and definitions where only those
/// are asked for.
pub open spec fn found(v: Seq<(Seq<char>, u32, bool, u64)>, scope: Seq<char>, definitions: bool) -> Seq<
    LocationView,
>
    decreases v.len(),
{
    if v.len() == 0 {
        Seq::empty()
    } else {
        let r = found(v.drop_last(), scope, definitions);
        if is_under(v.last().0, scope) && (v.last().2 || !definitions) {
            r.push(location(v.last()))
        } else {
            r
        }
    }
}

fn select(rows: &Vec<(String, u32, bool, u64)>, scope: &str, definitions: bool) -> (r: Vec<SymbolLocation>)
    ensures
        locations_view(r@) == found(rows_view(rows@), scope@, definitions),
{
    let ghost v = rows_view(rows@);
    let mut r: Vec<SymbolLocation> = Vec::new();
    let mut i: usize = 0;
    assert(locations_view(r@) =~= found(v.take(0), scope@, definitions));
    while i < rows.len()
        invariant
            i <= rows@.len(),
            v == rows_view(rows@),
            locations_view(r@) == found(v.take(i as int), scope@, definitions),
        decreases rows@.len() - i,
    {
        let x = &rows[i];
        assert(v.take(i + 1).drop_last() =~= v.take(i as int));
        assert(v.take(i + 1).last() == row_view(*x));
        if (x.2 || !definitions) && starts_with(x.0.as_str(), scope) {
            let ghost before = r@;
            r.push(
                SymbolLocation { path: x.0.clone(), line: x.1, is_definition: x.2, mtime: x.3 },
            );
            assert(locations_view(r@) =~= locations_view(before).push(location(row_view(*x))));
        }
        i = i + 1;
    }
    assert(v.take(rows@.len() as int) =~= v);
    r
}

// ---------------------------------------------------------------------------
// Laws
// ---------------------------------------------------------------------------

/// Every place is in a file that was indexed.
pub open spec fn well_formed(v: IndexView) -> bool {
    forall|n: Seq<char>, i: int|
        v.symbols.contains_key(n) && 0 <= i < v.symbols[n].len() ==> v.files.contains_key(
            file_key((#[trigger] v.symbols[n][i]).0),
        )
}

/// The places that are in the file.
pub open spec fn inside(v: Seq<(Seq<char>, u32, bool, u64)>, path: Seq<char>) -> Seq<
    (Seq<char>, u32, bool, u64),
>
    decreases v.len(),
{
    if v.len() == 0 {
        v
    } else if same_path(v.last().0, path) {
        inside(v.drop_last(), path).push(v.last())
    } else {
        inside(v.drop_last(), path)
    }
}

/// The places that the first `n` symbols give the name.
pub open spec fn own_places(
    path: Seq<char>,
    mtime: u64,
    symbols: Seq<(Seq<char>, u32)>,
    name: Seq<char>,
    n: int,
) -> Seq<(Seq<char>, u32, bool, u64)>
    decreases n,
{
    if n <= 0 {
        Seq::empty()
    } else {
        let r = own_places(path, mtime, symbols, name, n - 1);
        if symbols[n - 1].0 == name {
            r.push((path, symbols[n - 1].1, true, mtime))
        } else {
            r
        }
    }
}

proof fn lemma_inside_outside(v: Seq<(Seq<char>, u32, bool, u64)>, path: Seq<char>)
    ensures
        inside(outside(v, path), path).len() == 0,
    decreases v.len(),
{
    if v.len() > 0 {
        lemma_inside_outside(v.drop_last(), path);
        if !same_path(v.last().0, path) {
            let o = outside(v.drop_last(), path);
            assert(o.push(v.last()).drop_last() =~= o);
        }
    }
}

proof fn lemma_inside_none(v: Seq<(Seq<char>, u32, bool, u64)>, path: Seq<char>)
    requires
        forall|i: int| 0 <= i < v.len() ==> !same_path((#[trigger] v[i]).0, path),
    ensures
        inside(v, path).len() == 0,
    decreases v.len(),
{
    if v.len() > 0 {
        assert(!same_path(v[v.len() - 1].0, path));
        assert forall|i: int| 0 <= i < v.drop_last().len() implies !same_path(
            (#[trigger] v.drop_last()[i]).0,
            path,
        ) by {
            assert(v.drop_last()[i] == v[i]);
        }
        lemma_inside_none(v.drop_last(), path);
    }
}

proof fn lemma_places(
    m: Map<Seq<char>, Seq<(Seq<char>, u32, bool, u64)>>,
    path: Seq<char>,
    mtime: u64,
    symbols: Seq<(Seq<char>, u32)>,
    name: Seq<char>,
    n: int,
)
    requires
        0 <= n <= symbols.len(),
        inside(places(m, name), path).len() == 0,
    ensures
        inside(places(with_symbols(m, path, mtime, symbols, n), name), path) == own_places(
            path,
            mtime,
            symbols,
            name,
            n,
        ),
    decreases n,
{
    if n > 0 {
        lemma_places(m, path, mtime, symbols, name, n - 1);
        let r = with_symbols(m, path, mtime, symbols, n - 1);
        let p = places(r, symbols[n - 1].0);
        let x = (path, symbols[n - 1].1, true, mtime);
        assert(p.push(x).drop_last() =~= p);
    } else {
        assert(inside(places(m, name), path) =~= Seq::empty());
    }
}

/// After a file was indexed anew, the index knows of it exactly what it defines now.
pub proof fn law_reindex_replaces(
    v: IndexView,
    path: Seq<char>,
    content: Seq<char>,
    mtime: u64,
    name: Seq<char>,
)
    requires
        well_formed(v),
    ensures
        inside(places(reindexed(v, path, content, mtime).symbols, name), path) == own_places(
            path,
            mtime,
            file_symbols(path, content),
            name,
            file_symbols(path, content).len() as int,
        ),
{
    let s = file_symbols(path, content);
    if v.files.contains_key(file_key(path)) {
        let m = without_file(v.symbols, path);
        if m.contains_key(name) {
            lemma_inside_outside(v.symbols[name], path);
        }
        lemma_places(m, path, mtime, s, name, s.len() as int);
    } else {
        let p = places(v.symbols, name);
        assert forall|i: int| 0 <= i < p.len() implies !same_path((#[trigger] p[i]).0, path) by {
            assert(v.files.contains_key(file_key(v.symbols[name][i].0)));
        }
        lemma_inside_none(p, path);
        lemma_places(v.symbols, path, mtime, s, name, s.len() as int);
    }
}

proof fn lemma_outside_from(v: Seq<(Seq<char>, u32, bool, u64)>, path: Seq<char>, i: int)
    requires
        0 <= i < outside(v, path).len(),
    ensures
        v.contains(outside(v, path)[i]),
    decreases v.len(),
{
    if v.len() > 0 {
        let o = outside(v.drop_last(), path);
        if i < o.len() {
            lemma_outside_from(v.drop_last(), path, i);
            let k = choose|k: int| 0 <= k < v.drop_last().len() && v.drop_last()[k] == o[i];
            assert(v[k] == o[i]);
        } else {
            assert(v[v.len() - 1] == outside(v, path)[i]);
        }
    }
}

proof fn lemma_with_symbols_files(
    m: Map<Seq<char>, Seq<(Seq<char>, u32, bool, u64)>>,
    files: Map<Seq<char>, u64>,
    path: Seq<char>,
    mtime: u64,
    symbols: Seq<(Seq<char>, u32)>,
    n: int,
)
    requires
        0 <= n <= symbols.len(),
        well_formed(IndexView { symbols: m, files }),
        files.contains_key(file_key(path)),
    ensures
        well_formed(IndexView { symbols: with_symbols(m, path, mtime, symbols, n), files }),
    decreases n,
{
    if n > 0 {
        lemma_with_symbols_files(m, files, path, mtime, symbols, n - 1);
        let r = with_symbols(m, path, mtime, symbols, n - 1);
        let t = with_symbols(m, path, mtime, symbols, n);
        let name = symbols[n - 1].0;
        assert forall|k: Seq<char>, i: int|
            t.contains_key(k) && 0 <= i < t[k].len() implies files.contains_key(
            file_key((#[trigger] t[k][i]).0),
        ) by {
            let w = IndexView { symbols: r, files };
            if k == name {
                let p = places(r, name);
                let x = (path, symbols[n - 1].1, true, mtime);
                assert(t[k] == p.push(x));
                if i < p.len() {
                    assert(r.contains_key(k));
                    assert(t[k][i] == w.symbols[k][i]);
                } else {
                    assert(t[k][i] == x);
                }
            } else {
                assert(r.contains_key(k));
                assert(t[k] == r[k]);
                assert(t[k][i] == w.symbols[k][i]);
            }
        }
    }
}

/// Indexing a file keeps every place in a file that was indexed.
pub proof fn law_index_well_formed(v: IndexView, path: Seq<char>, content: Seq<char>, mtime: u64)
    requires
        well_formed(v),
    ensures
        well_formed(with_file(v, path, content, mtime)),
        well_formed(reindexed(v, path, content, mtime)),
{
    let s = file_symbols(path, content);
    let files = v.files.insert(file_key(path), mtime);
    assert(well_formed(IndexView { symbols: v.symbols, files }));
    lemma_with_symbols_files(v.symbols, files, path, mtime, s, s.len() as int);
    let m = without_file(v.symbols, path);
    assert forall|k: Seq<char>, i: int| m.contains_key(k) && 0 <= i < m[k].len() implies files.contains_key(
        file_key((#[trigger] m[k][i]).0),
    ) by {
        lemma_outside_from(v.symbols[k], path, i);
        let j = choose|j: int| 0 <= j < v.symbols[k].len() && v.symbols[k][j] == m[k][i];
        assert(v.files.contains_key(file_key(v.symbols[k][j].0)));
    }
    assert(well_formed(IndexView { symbols: m, files }));
    lemma_with_symbols_files(m, files, path, mtime, s, s.len() as int);
}

proof fn lemma_symbols_grow(t: Seq<NodeView>, lines: Seq<Seq<char>>, i: int, n: int, name: Seq<char>)
    requires
        0 <= i < n <= t.len(),
        t[i].depth <= 3,
        is_definition(t[i].kind),
        node_symbols(t, lines, i).contains(name),
    ensures
        symbols_in(t, lines, n).contains((name, line_number(t[i].start_row))),
    decreases n,
{
    let q = symbols_in(t, lines, n - 1);
    let r = symbols_in(t, lines, n);
    let x = (name, line_number(t[i].start_row));
    if i < n - 1 {
        lemma_symbols_grow(t, lines, i, n - 1, name);
        let k = choose|k: int| 0 <= k < q.len() && q[k] == x;
        assert(r[k] == x);
    } else {
        let s = node_symbols(t, lines, i);
        let k = choose|k: int| 0 <= k < s.len() && s[k] == name;
        assert(on_line(s, line_number(t[i].start_row))[k] == x);
        assert(r[q.len() + k] == x);
    }
}

/// Every definition that lies no more than three levels deep is indexed under its name,
/// on its line; an implementation also under the names of its trait and its type, and a
/// class under those of its interfaces.
pub proof fn law_definitions_are_indexed(
    t: Seq<NodeView>,
    lines: Seq<Seq<char>>,
    i: int,
    name: Seq<char>,
)
    requires
        0 <= i < t.len(),
        t[i].depth <= 3,
        is_definition(t[i].kind),
        0 <= t[i].start_row < u32::MAX,
        definition_name(t, lines, i) == Some(name) || (t[i].kind == "impl_item"@ && (field_line(
            t,
            lines,
            i,
            "trait"@,
        ) == Some(name) || field_line(t, lines, i, "type"@) == Some(name))) || ((t[i].kind
            == "class_declaration"@ || t[i].kind == "class_definition"@) && interfaces(
            t,
            lines,
            children(t, i),
            children(t, i).len() as int,
        ).contains(name)),
    ensures
        symbols_in(t, lines, t.len() as int).contains((name, (t[i].start_row + 1) as u32)),
{
    let kids = children(t, i);
    let own = match definition_name(t, lines, i) {
        Some(n) => seq![n],
        None => Seq::empty(),
    };
    let tr = match field_line(t, lines, i, "trait"@) {
        Some(n) => seq![n],
        None => Seq::empty(),
    };
    let ty = match field_line(t, lines, i, "type"@) {
        Some(n) => seq![n],
        None => Seq::empty(),
    };
    let imp = if t[i].kind == "impl_item"@ {
        tr + ty
    } else {
        Seq::empty()
    };
    let ifs = if t[i].kind == "class_declaration"@ || t[i].kind == "class_definition"@ {
        interfaces(t, lines, kids, kids.len() as int)
    } else {
        Seq::empty()
    };
    let all = node_symbols(t, lines, i);
    assert(all == own + imp + ifs);
    if definition_name(t, lines, i) == Some(name) {
        assert(all[0] == name);
    } else if t[i].kind == "impl_item"@ && field_line(t, lines, i, "trait"@) == Some(name) {
        assert(imp[0] == name);
        assert(all[own.len() as int] == name);
    } else if t[i].kind == "impl_item"@ && field_line(t, lines, i, "type"@) == Some(name) {
        assert(imp[tr.len() as int] == name);
        assert(all[(own.len() + tr.len()) as int] == name);
    } else {
        let k = choose|k: int| 0 <= k < ifs.len() && ifs[k] == name;
        assert(all[own.len() + imp.len() + k] == name);
    }
    assert(all.contains(name));
    lemma_symbols_grow(t, lines, i, t.len() as int, name);
}

proof fn lemma_symbols_added(
    m: Map<Seq<char>, Seq<(Seq<char>, u32, bool, u64)>>,
    path: Seq<char>,
    mtime: u64,
    symbols: Seq<(Seq<char>, u32)>,
    name: Seq<char>,
    n: int,
)
    requires
        0 <= n <= symbols.len(),
    ensures
        places(m, name).is_prefix_of(places(with_symbols(m, path, mtime, symbols, n), name)),
        forall|k: int|
            0 <= k < n && (#[trigger] symbols[k]).0 == name ==> places(
                with_symbols(m, path, mtime, symbols, n),
                name,
            ).contains((path, symbols[k].1, true, mtime)),
        forall|k: int|
            places(m, name).len() <= k < places(
                with_symbols(m, path, mtime, symbols, n),
                name,
            ).len() ==> (#[trigger] places(with_symbols(m, path, mtime, symbols, n), name)[k]).0
                == path,
    decreases n,
{
    let p = places(m, name);
    if n <= 0 {
        assert(p =~= p.subrange(0, p.len() as int));
    } else {
        lemma_symbols_added(m, path, mtime, symbols, name, n - 1);
        let q = places(with_symbols(m, path, mtime, symbols, n - 1), name);
        let r = places(with_symbols(m, path, mtime, symbols, n), name);
        let x = (path, symbols[n - 1].1, true, mtime);
        assert(symbols[n - 1].0 == name ==> r == q.push(x));
        assert(symbols[n - 1].0 != name ==> r == q);
        assert forall|k: int| 0 <= k < p.len() implies p[k] == r[k] by {
            assert(q.subrange(0, p.len() as int)[k] == q[k]);
        }
        assert(p =~= r.subrange(0, p.len() as int));
        assert forall|k: int| 0 <= k < n && (#[trigger] symbols[k]).0 == name implies r.contains(
            (path, symbols[k].1, true, mtime),
        ) by {
            let y = (path, symbols[k].1, true, mtime);
            if k < n - 1 {
                let a = choose|a: int| 0 <= a < q.len() && q[a] == y;
                assert(r[a] == y);
            } else {
                assert(r[q.len() as int] == y);
            }
        }
        assert forall|k: int| p.len() <= k < r.len() implies (#[trigger] r[k]).0 == path by {
            if k < q.len() {
                assert(r[k] == q[k]);
            }
        }
    }
}

/// Whatever a file defines is found again by its name: once it is indexed, its place is
/// among those of the name, and looking the name up anywhere above the file finds it.
pub proof fn law_indexed_symbols_are_found(
    v: IndexView,
    path: Seq<char>,
    content: Seq<char>,
    mtime: u64,
    name: Seq<char>,
    line: u32,
    scope: Seq<char>,
    definitions: bool,
)
    requires
        file_symbols(path, content).contains((name, line)),
        is_under(path, scope),
    ensures
        found(places(with_file(v, path, content, mtime).symbols, name), scope, definitions).contains(
            LocationView { path, line, is_definition: true, mtime },
        ),
        found(places(reindexed(v, path, content, mtime).symbols, name), scope, definitions).contains(
            LocationView { path, line, is_definition: true, mtime },
        ),
{
    let s = file_symbols(path, content);
    let k = choose|k: int| 0 <= k < s.len() && s[k] == (name, line);
    assert(s[k].0 == name);
    let x = (path, line, true, mtime);
    lemma_symbols_added(v.symbols, path, mtime, s, name, s.len() as int);
    law_lookup_is_complete(
        places(with_file(v, path, content, mtime).symbols, name),
        scope,
        definitions,
        x,
    );
    lemma_symbols_added(without_file(v.symbols, path), path, mtime, s, name, s.len() as int);
    law_lookup_is_complete(
        places(reindexed(v, path, content, mtime).symbols, name),
        scope,
        definitions,
        x,
    );
}

/// Looking up finds every place below the directory, or every definition where only
/// those are asked for, and no other place.
pub proof fn law_lookup_is_complete(
    v: Seq<(Seq<char>, u32, bool, u64)>,
    scope: Seq<char>,
    definitions: bool,
    x: (Seq<char>, u32, bool, u64),
)
    ensures
        found(v, scope, definitions).contains(
            LocationView { path: x.0, line: x.1, is_definition: x.2, mtime: x.3 },
        ) <==> v.contains(x) && is_under(x.0, scope) && (definitions ==> x.2),
    decreases v.len(),
{
    let l = LocationView { path: x.0, line: x.1, is_definition: x.2, mtime: x.3 };
    if v.len() > 0 {
        let t = v.drop_last();
        law_lookup_is_complete(t, scope, definitions, x);
        let q = found(t, scope, definitions);
        let r = found(v, scope, definitions);
        if r.contains(l) {
            let a = choose|a: int| 0 <= a < r.len() && r[a] == l;
            if a < q.len() {
                assert(q[a] == l);
                let k = choose|k: int| 0 <= k < t.len() && t[k] == x;
                assert(v[k] == x);
            } else {
                assert(v[v.len() - 1] == x);
            }
        }
        if v.contains(x) && is_under(x.0, scope) && (definitions ==> x.2) {
            let k = choose|k: int| 0 <= k < v.len() && v[k] == x;
            if k < t.len() {
                assert(t[k] == x);
                let a = choose|a: int| 0 <= a < q.len() && q[a] == l;
                assert(r[a] == l);
            } else {
                assert(r[q.len() as int] == l);
            }
        }
    }
}

proof fn lemma_outside_push(
    v: Seq<(Seq<char>, u32, bool, u64)>,
    w: Seq<(Seq<char>, u32, bool, u64)>,
    path: Seq<char>,
)
    requires
        v.is_prefix_of(w),
        forall|k: int| v.len() <= k < w.len() ==> (#[trigger] w[k]).0 == path,
    ensures
        outside(w, path) == outside(v, path),
    decreases w.len(),
{
    if w.len() == v.len() {
        assert(v =~= w.subrange(0, v.len() as int));
        assert(w =~= w.subrange(0, v.len() as int));
    } else {
        let t = w.drop_last();
        assert(v =~= t.subrange(0, v.len() as int)) by {
            assert(v =~= w.subrange(0, v.len() as int));
            assert(t.subrange(0, v.len() as int) =~= w.subrange(0, v.len() as int));
        }
        assert forall|k: int| v.len() <= k < t.len() implies (#[trigger] t[k]).0 == path by {
            assert(t[k] == w[k]);
        }
        assert(w[w.len() - 1].0 == path);
        lemma_outside_push(v, t, path);
    }
}

proof fn lemma_outside_twice(v: Seq<(Seq<char>, u32, bool, u64)>, path: Seq<char>)
    ensures
        outside(outside(v, path), path) == outside(v, path),
    decreases v.len(),
{
    if v.len() > 0 {
        lemma_outside_twice(v.drop_last(), path);
        if !same_path(v.last().0, path) {
            let o = outside(v.drop_last(), path);
            assert(o.push(v.last()).drop_last() =~= o);
        }
    }
}

/// Indexing a file leaves what is known of every other file as it was.
pub proof fn law_other_files_are_kept(
    v: IndexView,
    path: Seq<char>,
    content: Seq<char>,
    mtime: u64,
    name: Seq<char>,
)
    ensures
        outside(places(with_file(v, path, content, mtime).symbols, name), path) == outside(
            places(v.symbols, name),
            path,
        ),
        outside(places(reindexed(v, path, content, mtime).symbols, name), path) == outside(
            places(v.symbols, name),
            path,
        ),
{
    let s = file_symbols(path, content);
    let n = s.len() as int;
    lemma_symbols_added(v.symbols, path, mtime, s, name, n);
    lemma_outside_push(
        places(v.symbols, name),
        places(with_symbols(v.symbols, path, mtime, s, n), name),
        path,
    );
    let m = without_file(v.symbols, path);
    lemma_symbols_added(m, path, mtime, s, name, n);
    lemma_outside_push(places(m, name), places(with_symbols(m, path, mtime, s, n), name), path);
    if v.symbols.contains_key(name) {
        lemma_outside_twice(v.symbols[name], path);
    }
    assert(outside(places(m, name), path) == outside(places(v.symbols, name), path));
}

/// A place is left out with a file exactly if it is in that file.
pub proof fn law_outside_is_elsewhere(
    v: Seq<(Seq<char>, u32, bool, u64)>,
    path: Seq<char>,
    x: (Seq<char>, u32, bool, u64),
)
    ensures
        outside(v, path).contains(x) <==> v.contains(x) && !same_path(x.0, path),
        inside(v, path).contains(x) <==> v.contains(x) && same_path(x.0, path),
        outside(v, path).len() + inside(v, path).len() == v.len(),
    decreases v.len(),
{
    if v.len() > 0 {
        let t = v.drop_last();
        law_outside_is_elsewhere(t, path, x);
        let o = outside(t, path);
        let i = inside(t, path);
        let y = v.last();
        assert(v.contains(x) <==> t.contains(x) || x == y) by {
            if v.contains(x) {
                let k = choose|k: int| 0 <= k < v.len() && v[k] == x;
                if k < t.len() {
                    assert(t[k] == x);
                }
            }
            if t.contains(x) {
                let k = choose|k: int| 0 <= k < t.len() && t[k] == x;
                assert(v[k] == x);
            }
            assert(v[v.len() - 1] == y);
        }
        assert forall|s: Seq<(Seq<char>, u32, bool, u64)>| #[trigger]
            s.push(y).contains(x) <==> s.contains(x) || x == y by {
            if s.push(y).contains(x) {
                let k = choose|k: int| 0 <= k < s.push(y).len() && s.push(y)[k] == x;
                if k < s.len() {
                    assert(s[k] == x);
                }
            }
            if s.contains(x) {
                let k = choose|k: int| 0 <= k < s.len() && s[k] == x;
                assert(s.push(y)[k] == x);
            }
            assert(s.push(y)[s.len() as int] == y);
        }
        if same_path(y.0, path) {
            assert(inside(v, path) == i.push(y));
            assert(i.push(y).contains(x) <==> i.contains(x) || x == y);
        } else {
            assert(outside(v, path) == o.push(y));
            assert(o.push(y).contains(x) <==> o.contains(x) || x == y);
        }
    }
}

} // verus!
