//! Outlines: the declarations of a file, found in its syntax tree.
use vstd::prelude::*;
use vstd::slice::slice_subrange;
use vstd::string::*;

use crate::syntax::{
    child_by_field, child_by_field_of, children, children_of, grammar_name, parse_nodes, parsed, prev_sibling,
    prev_sibling_of, shape, NodeRecord, NodeView, rust_grammar, typescript_grammar, tsx_grammar, javascript_grammar, python_grammar, scala_grammar, go_grammar, java_grammar, c_grammar, cpp_grammar, ruby_grammar, php_grammar, c_sharp_grammar, swift_grammar, kotlin_grammar, elixir_grammar,
};
use crate::text::{
    after, byte_count, byte_len, byte_slice, bytes_between, char_at, char_pos, chars_of, find,
    find_byte, find_char, find_text, has, has_prefix, has_text, lemma_find_from, lines, lines_of,
    opt_text, same_text, string_of, strip_end, strip_end_of, strip_start, strip_start_of, trim, trim_of,
    truncate_chars, truncated, views, words, words_of, takes_more,
};
use crate::types::{entries_view, ints, lemma_entries_push, EntryView, Lang, OutlineEntry, OutlineKind};

verus! {

// ---------------------------------------------------------------------------
// Grammars
// ---------------------------------------------------------------------------

/// The grammar of the language, where there is one.
pub open spec fn grammar_of(lang: Lang) -> Option<Seq<char>> {
    match lang {
        Lang::Rust => Some("rust"@),
        Lang::TypeScript => Some("typescript"@),
        Lang::Tsx => Some("tsx"@),
        Lang::JavaScript => Some("javascript"@),
        Lang::Python => Some("python"@),
        Lang::Scala => Some("scala"@),
        Lang::Go => Some("go"@),
        Lang::Java => Some("java"@),
        Lang::C => Some("c"@),
        Lang::Cpp => Some("cpp"@),
        Lang::Ruby => Some("ruby"@),
        Lang::Php => Some("php"@),
        Lang::CSharp => Some("c_sharp"@),
        Lang::Swift => Some("swift"@),
        Lang::Kotlin => Some("kotlin"@),
        Lang::Elixir => Some("elixir"@),
        Lang::Dockerfile => None,
        Lang::Make => None,
    }
}

/// The grammar of the language, where there is one.
pub fn outline_language(lang: Lang) -> (r: Option<tree_sitter::Language>)
    ensures
        r matches Some(g) ==> grammar_of(lang) == Some(grammar_name(g)),
        r is None ==> grammar_of(lang) is None,
{
    match lang {
        Lang::Rust => Some(rust_grammar()),
        Lang::TypeScript => Some(typescript_grammar()),
        Lang::Tsx => Some(tsx_grammar()),
        Lang::JavaScript => Some(javascript_grammar()),
        Lang::Python => Some(python_grammar()),
        Lang::Scala => Some(scala_grammar()),
        Lang::Go => Some(go_grammar()),
        Lang::Java => Some(java_grammar()),
        Lang::C => Some(c_grammar()),
        Lang::Cpp => Some(cpp_grammar()),
        Lang::Ruby => Some(ruby_grammar()),
        Lang::Php => Some(php_grammar()),
        Lang::CSharp => Some(c_sharp_grammar()),
        Lang::Swift => Some(swift_grammar()),
        Lang::Kotlin => Some(kotlin_grammar()),
        Lang::Elixir => Some(elixir_grammar()),
        Lang::Dockerfile => None,
        Lang::Make => None,
    }
}

/// The syntax nodes of the content, where the language has a grammar and the
/// content a tree.
pub open spec fn nodes_in(content: Seq<char>, lang: Lang) -> Option<Seq<NodeView>> {
    match grammar_of(lang) {
        Some(g) => parsed(g, content),
        None => None,
    }
}

/// The syntax nodes of the content.
pub fn parse_content(content: &str, lang: Lang) -> (r: Option<Vec<NodeRecord>>)
    ensures
        r matches Some(v) ==> nodes_in(content@, lang) == Some(shape(v@)),
        r is None ==> nodes_in(content@, lang) is None,
{
    match outline_language(lang) {
        Some(g) => parse_nodes(&g, content),
        None => None,
    }
}

// ---------------------------------------------------------------------------
// The text of nodes
// ---------------------------------------------------------------------------

/// What follows the byte offset, empty unless a character starts there.
pub open spec fn byte_tail(s: Seq<char>, a: int) -> Seq<char> {
    match char_pos(s, a) {
        Some(p) => s.skip(p),
        None => Seq::empty(),
    }
}

pub fn bytes_after(s: &[char], a: usize) -> (r: &[char])
    ensures
        r@ == byte_tail(s@, a as int),
{
    match find_byte(s, a) {
        Some(p) => {
            assert(s@.subrange(p as int, s@.len() as int) =~= s@.skip(p as int));
            slice_subrange(s, p, s.len())
        },
        None => slice_subrange(s, 0, 0),
    }
}

/// The text, shortened to `keep` bytes and three dots where it takes more than
/// `max` bytes.
pub open spec fn shortened(s: Seq<char>, max: int, keep: int) -> Seq<char> {
    if byte_len(s) > max {
        truncated(s, keep) + "..."@
    } else {
        s
    }
}

pub fn shorten(s: &[char], max: usize, keep: usize) -> (r: String)
    ensures
        r@ == shortened(s@, max as int, keep as int),
{
    if takes_more(s, max) {
        let mut r = string_of(truncate_chars(s, keep));
        r.append("...");
        r
    } else {
        string_of(s)
    }
}

/// The text of a node up to the end of its first line.
pub open spec fn first_line(n: NodeView, lines: Seq<Seq<char>>) -> Seq<char> {
    if n.start_row >= lines.len() {
        Seq::empty()
    } else if n.start_row == n.end_row {
        byte_slice(
            lines[n.start_row],
            n.start_col,
            if n.end_col < byte_len(lines[n.start_row]) {
                n.end_col
            } else {
                byte_len(lines[n.start_row]) as int
            },
        )
    } else {
        byte_tail(lines[n.start_row], n.start_col)
    }
}

/// The text of a node up to the end of its first line, shortened if the node goes
/// on.
pub open spec fn node_text(n: NodeView, lines: Seq<Seq<char>>) -> Seq<char> {
    if n.start_row == n.end_row {
        first_line(n, lines)
    } else {
        shortened(first_line(n, lines), 80, 77)
    }
}

pub fn first_line_of<'a>(n: &NodeRecord, lines: &[&'a [char]]) -> (r: &'a [char])
    ensures
        r@ == first_line(n@, views(lines@)),
{
    if n.start_row >= lines.len() {
        let none: &[char] = &[];
        assert(none@ =~= first_line(n@, views(lines@)));
        none
    } else {
        let line = lines[n.start_row];
        assert(line@ == views(lines@)[n.start_row as int]);
        if n.start_row == n.end_row {
            let len: usize = byte_count(line);
            let end: usize = if n.end_col < len {
                n.end_col
            } else {
                len
            };
            bytes_between(line, n.start_col, end)
        } else {
            bytes_after(line, n.start_col)
        }
    }
}

fn node_text_of(n: &NodeRecord, lines: &[&[char]]) -> (r: String)
    ensures
        r@ == node_text(n@, views(lines@)),
{
    let text = first_line_of(n, lines);
    if n.start_row == n.end_row {
        string_of(text)
    } else {
        shorten(text, 80, 77)
    }
}

/// The number of the line in a row, counted from one.
pub open spec fn line_number(row: int) -> u32 {
    if row < u32::MAX {
        (row + 1) as u32
    } else {
        u32::MAX
    }
}

pub fn line_of_row(row: usize) -> (r: u32)
    ensures
        r == line_number(row as int),
{
    if row < u32::MAX as usize {
        row as u32 + 1
    } else {
        u32::MAX
    }
}

/// The signature of a declaration: its first line up to an opening brace or a
/// colon at the end.
pub open spec fn signature_of_line(line: Seq<char>) -> Seq<char> {
    match char_at(line, '{') {
        Some(p) => trim(line.take(p)),
        None => if line.len() > 0 && line.last() == ':' {
            trim(line.drop_last())
        } else {
            shortened(line, 120, 117)
        },
    }
}

/// The signature of the declaration at a node.
pub open spec fn signature(n: NodeView, lines: Seq<Seq<char>>) -> Seq<char> {
    if n.start_row < lines.len() {
        signature_of_line(trim(lines[n.start_row]))
    } else {
        Seq::empty()
    }
}

fn extract_signature(n: &NodeRecord, lines: &[&[char]]) -> (r: String)
    ensures
        r@ == signature(n@, views(lines@)),
{
    if n.start_row >= lines.len() {
        return String::new();
    }
    assert(lines@[n.start_row as int]@ == views(lines@)[n.start_row as int]);
    let line = trim_of(lines[n.start_row]);
    match find_char(line, '{') {
        Some(p) => {
            proof {
                crate::text::lemma_char_at(line@, '{');
                assert(line@.subrange(0, p as int) =~= line@.take(p as int));
            }
            string_of(trim_of(slice_subrange(line, 0, p)))
        },
        None => {
            let n: usize = line.len();
            if n > 0 && line[n - 1] == ':' {
                assert(line@.subrange(0, n - 1) =~= line@.drop_last());
                string_of(trim_of(slice_subrange(line, 0, n - 1)))
            } else {
                shorten(line, 120, 117)
            }
        },
    }
}

/// The text of the child that fills a field.
pub open spec fn field_text(
    t: Seq<NodeView>,
    i: int,
    field: Seq<char>,
    lines: Seq<Seq<char>>,
) -> Option<Seq<char>> {
    match child_by_field(t, i, field) {
        Some(c) => Some(node_text(t[c], lines)),
        None => None,
    }
}

fn find_child_text(nodes: &[NodeRecord], i: usize, field: &str, lines: &[&[char]]) -> (r: Option<
    String,
>)
    requires
        i < nodes@.len(),
    ensures
        opt_text(r) == field_text(shape(nodes@), i as int, field@, views(lines@)),
{
    match child_by_field_of(nodes, i, field) {
        Some(c) => {
            assert(shape(nodes@)[c as int] == nodes@[c as int]@);
            Some(node_text_of(&nodes[c], lines))
        },
        None => None,
    }
}

/// The first of the nodes that is an identifier with a text.
pub open spec fn first_inner(t: Seq<NodeView>, kids: Seq<int>, lines: Seq<Seq<char>>) -> Option<
    Seq<char>,
>
    decreases kids.len(),
{
    if kids.len() == 0 {
        None
    } else {
        let n = t[kids[0]];
        if has(n.kind, "identifier"@) && node_text(n, lines).len() > 0 {
            Some(node_text(n, lines))
        } else {
            first_inner(t, kids.drop_first(), lines)
        }
    }
}

/// The text of the first identifier among the nodes, or among the children of
/// those that wrap a declaration.
pub open spec fn first_identifier(t: Seq<NodeView>, kids: Seq<int>, lines: Seq<Seq<char>>) -> Option<
    Seq<char>,
>
    decreases kids.len(),
{
    if kids.len() == 0 {
        None
    } else {
        let n = t[kids[0]];
        if (has(n.kind, "identifier"@) || has(n.kind, "name"@)) && node_text(n, lines).len() > 0 {
            Some(node_text(n, lines))
        } else {
            let inner = if has(n.kind, "declarator"@) || has(n.kind, "declaration"@) {
                first_inner(t, children(t, kids[0]), lines)
            } else {
                None
            };
            if inner is Some {
                inner
            } else {
                first_identifier(t, kids.drop_first(), lines)
            }
        }
    }
}

fn kind_has(n: &NodeRecord, p: &str) -> (r: bool)
    ensures
        r == has(n@.kind, p@),
{
    let k = chars_of(n.kind.as_str());
    has_text(k.as_slice(), p)
}

fn first_inner_text(nodes: &[NodeRecord], i: usize, lines: &[&[char]]) -> (r: Option<String>)
    requires
        i < nodes@.len(),
    ensures
        opt_text(r) == first_inner(
            shape(nodes@),
            children(shape(nodes@), i as int),
            views(lines@),
        ),
{
    let ghost t = shape(nodes@);
    let ghost l = views(lines@);
    let kids = children_of(nodes, i);
    let ghost c = ints(kids@);
    assert(c.skip(0) =~= c);
    let mut k: usize = 0;
    while k < kids.len()
        invariant
            k <= kids@.len(),
            t == shape(nodes@),
            l == views(lines@),
            c == ints(kids@),
            forall|k: int| 0 <= k < kids@.len() ==> #[trigger] kids@[k] < nodes@.len(),
            c == children(t, i as int),
            first_inner(t, c, l) == first_inner(t, c.skip(k as int), l),
        decreases kids@.len() - k,
    {
        let n = &nodes[kids[k]];
        assert(c.skip(k as int)[0] == kids@[k as int]);
        assert(t[c[k as int]] == n@);
        assert(c.skip(k as int).drop_first() =~= c.skip(k + 1));
        if kind_has(n, "identifier") {
            let text = node_text_of(n, lines);
            if !text.as_str().is_empty() {
                return Some(text);
            }
        }
        k = k + 1;
    }
    None
}

fn first_identifier_text(nodes: &[NodeRecord], i: usize, lines: &[&[char]]) -> (r: Option<String>)
    requires
        i < nodes@.len(),
    ensures
        opt_text(r) == first_identifier(
            shape(nodes@),
            children(shape(nodes@), i as int),
            views(lines@),
        ),
{
    let ghost t = shape(nodes@);
    let ghost l = views(lines@);
    let kids = children_of(nodes, i);
    let ghost c = ints(kids@);
    assert(c.skip(0) =~= c);
    let mut k: usize = 0;
    while k < kids.len()
        invariant
            k <= kids@.len(),
            t == shape(nodes@),
            l == views(lines@),
            c == ints(kids@),
            forall|k: int| 0 <= k < kids@.len() ==> #[trigger] kids@[k] < nodes@.len(),
            c == children(t, i as int),
            first_identifier(t, c, l) == first_identifier(t, c.skip(k as int), l),
        decreases kids@.len() - k,
    {
        let n = &nodes[kids[k]];
        assert(c.skip(k as int)[0] == kids@[k as int]);
        assert(t[c[k as int]] == n@);
        assert(c.skip(k as int).drop_first() =~= c.skip(k + 1));
        if kind_has(n, "identifier") || kind_has(n, "name") {
            let text = node_text_of(n, lines);
            if !text.as_str().is_empty() {
                return Some(text);
            }
        }
        if kind_has(n, "declarator") || kind_has(n, "declaration") {
            let inner = first_inner_text(nodes, kids[k], lines);
            if inner.is_some() {
                return inner;
            }
        }
        k = k + 1;
    }
    None
}

/// The text without the prefixes `p` at its start.
pub open spec fn strip_prefixes(s: Seq<char>, p: Seq<char>) -> Seq<char>
    decreases s.len(),
{
    if p.len() > 0 && p.is_prefix_of(s) {
        strip_prefixes(s.skip(p.len() as int), p)
    } else {
        s
    }
}

/// The text without the suffixes `p` at its end.
pub open spec fn strip_suffixes(s: Seq<char>, p: Seq<char>) -> Seq<char>
    decreases s.len(),
{
    if p.len() > 0 && p.is_suffix_of(s) {
        strip_suffixes(s.take(s.len() - p.len()), p)
    } else {
        s
    }
}

fn strip_prefixes_of<'a>(s: &'a [char], p: &str) -> (r: &'a [char])
    ensures
        r@ == strip_prefixes(s@, p@),
{
    let mut r = s;
    let k: usize = chars_of(p).len();
    if k == 0 {
        return s;
    }
    while has_prefix(r, p)
        invariant
            k == p@.len(),
            k > 0,
            strip_prefixes(s@, p@) == strip_prefixes(r@, p@),
        decreases r@.len(),
    {
        assert(r@.subrange(k as int, r@.len() as int) =~= r@.skip(k as int));
        r = slice_subrange(r, k, r.len());
    }
    r
}

fn strip_suffixes_of<'a>(s: &'a [char], p: &str) -> (r: &'a [char])
    ensures
        r@ == strip_suffixes(s@, p@),
{
    let mut r = s;
    let k: usize = chars_of(p).len();
    if k == 0 {
        return s;
    }
    while crate::text::has_suffix(r, p)
        invariant
            k == p@.len(),
            k > 0,
            strip_suffixes(s@, p@) == strip_suffixes(r@, p@),
        decreases r@.len(),
    {
        assert(r@.subrange(0, r@.len() - k) =~= r@.take(r@.len() - k));
        r = slice_subrange(r, 0, r.len() - k);
    }
    r
}

/// A comment without its marks, where something is left.
pub open spec fn comment_text(text: Seq<char>) -> Option<Seq<char>> {
    let s = trim(
        strip_start(
            strip_prefixes(strip_prefixes(strip_prefixes(text, "///"@), "//!"@), "/**"@),
            '#',
        ),
    );
    if s.len() == 0 {
        None
    } else {
        Some(s)
    }
}

/// The comment right before a node.
pub open spec fn doc_of(t: Seq<NodeView>, i: int, lines: Seq<Seq<char>>) -> Option<Seq<char>> {
    match prev_sibling(t, i) {
        Some(p) => if has(t[p].kind, "comment"@) || has(t[p].kind, "doc"@) {
            comment_text(node_text(t[p], lines))
        } else {
            None
        },
        None => None,
    }
}

fn extract_doc(nodes: &[NodeRecord], i: usize, lines: &[&[char]]) -> (r: Option<String>)
    requires
        i < nodes@.len(),
    ensures
        opt_text(r) == doc_of(shape(nodes@), i as int, views(lines@)),
{
    match prev_sibling_of(nodes, i) {
        Some(p) => {
            let n = &nodes[p];
            assert(shape(nodes@)[p as int] == n@);
            if kind_has(n, "comment") || kind_has(n, "doc") {
                let text = chars_of(node_text_of(n, lines).as_str());
                let a = strip_prefixes_of(text.as_slice(), "///");
                let b = strip_prefixes_of(a, "//!");
                let c = strip_prefixes_of(b, "/**");
                let s = trim_of(strip_start_of(c, '#'));
                if s.len() == 0 {
                    None
                } else {
                    Some(string_of(s))
                }
            } else {
                None
            }
        },
        None => None,
    }
}

// ---------------------------------------------------------------------------
// Entries
// ---------------------------------------------------------------------------

/// The constructs that an outline shows.
#[derive(Clone, Copy, PartialEq, Eq, Structural)]
pub enum Construct {
    Function,
    Class,
    Struct,
    Interface,
    TypeAlias,
    Enum,
    Impl,
    Object,
    Constant,
    Val,
    Var,
    Property,
    Import,
    Export,
    Module,
}

/// The construct that nodes of the kind stand for.
pub open spec fn construct(kind: Seq<char>) -> Option<Construct> {
    if kind == "function_declaration"@ || kind == "function_definition"@ || kind == "function_item"@ || kind == "method_definition"@ || kind == "method_declaration"@ || kind == "constructor_declaration"@ || kind == "init_declaration"@ || kind == "deinit_declaration"@ || kind == "protocol_function_declaration"@ {
        Some(Construct::Function)
    } else if kind == "class_declaration"@ || kind == "class_definition"@ {
        Some(Construct::Class)
    } else if kind == "struct_item"@ || kind == "struct_declaration"@ {
        Some(Construct::Struct)
    } else if kind == "interface_declaration"@ || kind == "type_alias_declaration"@ || kind == "trait_item"@ || kind == "trait_declaration"@ || kind == "trait_definition"@ || kind == "protocol_declaration"@ {
        Some(Construct::Interface)
    } else if kind == "type_item"@ || kind == "type_definition"@ || kind == "typealias_declaration"@ {
        Some(Construct::TypeAlias)
    } else if kind == "enum_item"@ || kind == "enum_declaration"@ || kind == "enum_definition"@ {
        Some(Construct::Enum)
    } else if kind == "impl_item"@ {
        Some(Construct::Impl)
    } else if kind == "object_declaration"@ || kind == "object_definition"@ {
        Some(Construct::Object)
    } else if kind == "const_item"@ || kind == "const_declaration"@ || kind == "static_item"@ {
        Some(Construct::Constant)
    } else if kind == "val_definition"@ {
        Some(Construct::Val)
    } else if kind == "lexical_declaration"@ || kind == "variable_declaration"@ || kind == "var_definition"@ {
        Some(Construct::Var)
    } else if kind == "property_declaration"@ || kind == "protocol_property_declaration"@ {
        Some(Construct::Property)
    } else if kind == "import_statement"@ || kind == "import_declaration"@ || kind == "import"@ || kind == "use_declaration"@ || kind == "namespace_use_declaration"@ || kind == "use_item"@ || kind == "using_directive"@ {
        Some(Construct::Import)
    } else if kind == "export_statement"@ {
        Some(Construct::Export)
    } else if kind == "mod_item"@ || kind == "module"@ || kind == "namespace_declaration"@ || kind == "namespace_definition"@ || kind == "file_scoped_namespace_declaration"@ {
        Some(Construct::Module)
    } else {
        None
    }
}

fn construct_of(kind: &str) -> (r: Option<Construct>)
    ensures
        r == construct(kind@),
{
    if same_text(kind, "function_declaration") || same_text(kind, "function_definition") || same_text(kind, "function_item") || same_text(kind, "method_definition") || same_text(kind, "method_declaration") || same_text(kind, "constructor_declaration") || same_text(kind, "init_declaration") || same_text(kind, "deinit_declaration") || same_text(kind, "protocol_function_declaration") {
        return Some(Construct::Function);
    }
    if same_text(kind, "class_declaration") || same_text(kind, "class_definition") {
        return Some(Construct::Class);
    }
    if same_text(kind, "struct_item") || same_text(kind, "struct_declaration") {
        return Some(Construct::Struct);
    }
    if same_text(kind, "interface_declaration") || same_text(kind, "type_alias_declaration") || same_text(kind, "trait_item") || same_text(kind, "trait_declaration") || same_text(kind, "trait_definition") || same_text(kind, "protocol_declaration") {
        return Some(Construct::Interface);
    }
    if same_text(kind, "type_item") || same_text(kind, "type_definition") || same_text(kind, "typealias_declaration") {
        return Some(Construct::TypeAlias);
    }
    if same_text(kind, "enum_item") || same_text(kind, "enum_declaration") || same_text(kind, "enum_definition") {
        return Some(Construct::Enum);
    }
    if same_text(kind, "impl_item") {
        return Some(Construct::Impl);
    }
    if same_text(kind, "object_declaration") || same_text(kind, "object_definition") {
        return Some(Construct::Object);
    }
    if same_text(kind, "const_item") || same_text(kind, "const_declaration") || same_text(kind, "static_item") {
        return Some(Construct::Constant);
    }
    if same_text(kind, "val_definition") {
        return Some(Construct::Val);
    }
    if same_text(kind, "lexical_declaration") || same_text(kind, "variable_declaration") || same_text(kind, "var_definition") {
        return Some(Construct::Var);
    }
    if same_text(kind, "property_declaration") || same_text(kind, "protocol_property_declaration") {
        return Some(Construct::Property);
    }
    if same_text(kind, "import_statement") || same_text(kind, "import_declaration") || same_text(kind, "import") || same_text(kind, "use_declaration") || same_text(kind, "namespace_use_declaration") || same_text(kind, "use_item") || same_text(kind, "using_directive") {
        return Some(Construct::Import);
    }
    if same_text(kind, "export_statement") {
        return Some(Construct::Export);
    }
    if same_text(kind, "mod_item") || same_text(kind, "module") || same_text(kind, "namespace_declaration") || same_text(kind, "namespace_definition") || same_text(kind, "file_scoped_namespace_declaration") {
        return Some(Construct::Module);
    }
    None
}

/// The kind of entry that the construct gives.
pub open spec fn kind_of(c: Construct) -> OutlineKind {
    match c {
        Construct::Function => OutlineKind::Function,
        Construct::Class => OutlineKind::Class,
        Construct::Struct => OutlineKind::Struct,
        Construct::Interface => OutlineKind::Interface,
        Construct::TypeAlias => OutlineKind::TypeAlias,
        Construct::Enum => OutlineKind::Enum,
        Construct::Impl => OutlineKind::Module,
        Construct::Object => OutlineKind::Module,
        Construct::Constant => OutlineKind::Constant,
        Construct::Val => OutlineKind::ImmutableVariable,
        Construct::Var => OutlineKind::Variable,
        Construct::Property => OutlineKind::Property,
        Construct::Import => OutlineKind::Import,
        Construct::Export => OutlineKind::Export,
        Construct::Module => OutlineKind::Module,
    }
}

fn outline_kind(c: Construct) -> (r: OutlineKind)
    ensures
        r == kind_of(c),
{
    match c {
        Construct::Function => OutlineKind::Function,
        Construct::Class => OutlineKind::Class,
        Construct::Struct => OutlineKind::Struct,
        Construct::Interface => OutlineKind::Interface,
        Construct::TypeAlias => OutlineKind::TypeAlias,
        Construct::Enum => OutlineKind::Enum,
        Construct::Impl => OutlineKind::Module,
        Construct::Object => OutlineKind::Module,
        Construct::Constant => OutlineKind::Constant,
        Construct::Val => OutlineKind::ImmutableVariable,
        Construct::Var => OutlineKind::Variable,
        Construct::Property => OutlineKind::Property,
        Construct::Import => OutlineKind::Import,
        Construct::Export => OutlineKind::Export,
        Construct::Module => OutlineKind::Module,
    }
}

/// The first of two texts that is there, or else a third.
pub open spec fn either(
    a: Option<Seq<char>>,
    b: Option<Seq<char>>,
    otherwise: Seq<char>,
) -> Seq<char> {
    match a {
        Some(s) => s,
        None => match b {
            Some(s) => s,
            None => otherwise,
        },
    }
}

/// The name that the entry of a node gets.
pub open spec fn entry_name(t: Seq<NodeView>, i: int, lines: Seq<Seq<char>>, c: Construct) -> Seq<
    char,
> {
    let name = field_text(t, i, "name"@, lines);
    let identifier = field_text(t, i, "identifier"@, lines);
    let first = first_identifier(t, children(t, i), lines);
    match c {
        Construct::Function => either(
            name,
            identifier,
            if t[i].kind == "deinit_declaration"@ {
                "deinit"@
            } else {
                "<anonymous>"@
            },
        ),
        Construct::Class => either(name, identifier, "<anonymous>"@),
        Construct::Object => either(name, identifier, "<anonymous>"@),
        Construct::Struct => either(name, None, "<anonymous>"@),
        Construct::Interface => either(name, None, "<anonymous>"@),
        Construct::TypeAlias => either(name, None, "<anonymous>"@),
        Construct::Enum => either(name, None, "<anonymous>"@),
        Construct::Impl => "impl "@ + either(field_text(t, i, "type"@, lines), None, "<impl>"@),
        Construct::Constant => either(name, first, "<const>"@),
        Construct::Val => either(first, None, "<val>"@),
        Construct::Var => either(first, None, "<var>"@),
        Construct::Property => either(name, first, "<property>"@),
        Construct::Import => node_text(t[i], lines),
        Construct::Export => node_text(t[i], lines),
        Construct::Module => either(name, None, "<module>"@),
    }
}

fn or_text(a: Option<String>, otherwise: &str) -> (r: String)
    ensures
        r@ == either(opt_text(a), None, otherwise@),
{
    match a {
        Some(s) => s,
        None => otherwise.to_owned(),
    }
}

fn entry_name_of(nodes: &[NodeRecord], i: usize, lines: &[&[char]], c: Construct) -> (r: String)
    requires
        i < nodes@.len(),
    ensures
        r@ == entry_name(shape(nodes@), i as int, views(lines@), c),
{
    assert(shape(nodes@)[i as int] == nodes@[i as int]@);
    match c {
        Construct::Function => {
            let otherwise = if same_text(nodes[i].kind.as_str(), "deinit_declaration") {
                "deinit"
            } else {
                "<anonymous>"
            };
            match find_child_text(nodes, i, "name", lines) {
                Some(s) => s,
                None => or_text(find_child_text(nodes, i, "identifier", lines), otherwise),
            }
        },
        Construct::Class | Construct::Object => match find_child_text(nodes, i, "name", lines) {
            Some(s) => s,
            None => or_text(find_child_text(nodes, i, "identifier", lines), "<anonymous>"),
        },
        Construct::Struct | Construct::Interface | Construct::TypeAlias | Construct::Enum => or_text(
            find_child_text(nodes, i, "name", lines),
            "<anonymous>",
        ),
        Construct::Impl => {
            let name = or_text(find_child_text(nodes, i, "type", lines), "<impl>");
            let mut r = "impl ".to_owned();
            r.append(name.as_str());
            r
        },
        Construct::Constant => match find_child_text(nodes, i, "name", lines) {
            Some(s) => s,
            None => or_text(first_identifier_text(nodes, i, lines), "<const>"),
        },
        Construct::Val => or_text(first_identifier_text(nodes, i, lines), "<val>"),
        Construct::Var => or_text(first_identifier_text(nodes, i, lines), "<var>"),
        Construct::Property => match find_child_text(nodes, i, "name", lines) {
            Some(s) => s,
            None => or_text(first_identifier_text(nodes, i, lines), "<property>"),
        },
        Construct::Import | Construct::Export => node_text_of(&nodes[i], lines),
        Construct::Module => or_text(find_child_text(nodes, i, "name", lines), "<module>"),
    }
}

/// The construct holds further declarations.
pub open spec fn is_container(c: Construct) -> bool {
    c == Construct::Class || c == Construct::Struct || c == Construct::Interface || kind_of(c)
        == OutlineKind::Module
}

/// Namespaces are transparent: what they hold is no deeper for it.
pub open spec fn is_namespace(kind: Seq<char>) -> bool {
    kind == "namespace_declaration"@ || kind == "namespace_definition"@ || kind
        == "file_scoped_namespace_declaration"@
}

/// The node is the body of a declaration.
pub open spec fn is_body(kind: Seq<char>) -> bool {
    has(kind, "body"@) || has(kind, "block"@) || kind == "declaration_list"@
}

/// The first of the nodes that is a body.
pub open spec fn first_body(t: Seq<NodeView>, kids: Seq<int>) -> Option<int>
    decreases kids.len(),
{
    if kids.len() == 0 {
        None
    } else if is_body(t[kids[0]].kind) {
        Some(kids[0])
    } else {
        first_body(t, kids.drop_first())
    }
}

/// The node whose children are the members of the declaration at node `i`.
pub open spec fn member_node(t: Seq<NodeView>, i: int) -> int {
    match first_body(t, children(t, i)) {
        Some(b) => b,
        None => i,
    }
}

/// The entry of node `i`, where it stands for a construct. Members are listed for
/// containers at depth zero.
pub open spec fn entry_of(t: Seq<NodeView>, lines: Seq<Seq<char>>, i: int, depth: nat) -> Option<
    EntryView,
>
    decreases t.len() - i, 1int, 0nat,
{
    match construct(t[i].kind) {
        None => None,
        Some(c) => Some(
            EntryView {
                kind: kind_of(c),
                name: entry_name(t, i, lines, c),
                start_line: line_number(t[i].start_row),
                end_line: line_number(t[i].end_row),
                signature: if c == Construct::Function || c == Construct::Property {
                    Some(signature(t[i], lines))
                } else {
                    None
                },
                children: if is_container(c) && depth < 1 {
                    entries_after(
                        t,
                        lines,
                        i,
                        children(t, member_node(t, i)),
                        if is_namespace(t[i].kind) {
                            depth
                        } else {
                            depth + 1
                        },
                    )
                } else {
                    Seq::empty()
                },
                doc: doc_of(t, i, lines),
            },
        ),
    }
}

/// The entries of those of the nodes that come after node `i`.
pub open spec fn entries_after(
    t: Seq<NodeView>,
    lines: Seq<Seq<char>>,
    i: int,
    kids: Seq<int>,
    depth: nat,
) -> Seq<EntryView>
    decreases t.len() - i, 0int, kids.len(),
{
    if kids.len() == 0 {
        Seq::empty()
    } else {
        let r = entries_after(t, lines, i, kids.drop_last(), depth);
        if i < kids.last() < t.len() {
            match entry_of(t, lines, kids.last(), depth) {
                Some(e) => r.push(e),
                None => r,
            }
        } else {
            r
        }
    }
}

/// The entries of the children of the root.
pub open spec fn top_level(t: Seq<NodeView>, lines: Seq<Seq<char>>) -> Seq<EntryView> {
    if t.len() == 0 {
        Seq::empty()
    } else {
        entries_after(t, lines, 0, children(t, 0), 0)
    }
}

/// What an optional entry says.
pub open spec fn opt_entry(e: Option<OutlineEntry>) -> Option<EntryView> {
    match e {
        Some(e) => Some(e@),
        None => None,
    }
}

fn member_node_of(nodes: &[NodeRecord], i: usize) -> (r: usize)
    requires
        i < nodes@.len(),
    ensures
        r == member_node(shape(nodes@), i as int),
        i <= r < nodes@.len(),
{
    let ghost t = shape(nodes@);
    let kids = children_of(nodes, i);
    let ghost c = ints(kids@);
    assert(c.skip(0) =~= c);
    let mut k: usize = 0;
    while k < kids.len()
        invariant
            k <= kids@.len(),
            t == shape(nodes@),
            c == ints(kids@),
            forall|k: int| 0 <= k < kids@.len() ==> i < #[trigger] kids@[k] < nodes@.len(),
            first_body(t, c) == first_body(t, c.skip(k as int)),
            c == children(t, i as int),
        decreases kids@.len() - k,
    {
        let n = &nodes[kids[k]];
        assert(c.skip(k as int)[0] == kids@[k as int]);
        assert(t[c[k as int]] == n@);
        assert(c.skip(k as int).drop_first() =~= c.skip(k + 1));
        if kind_has(n, "body") || kind_has(n, "block") || same_text(
            n.kind.as_str(),
            "declaration_list",
        ) {
            return kids[k];
        }
        k = k + 1;
    }
    i
}

/// The entry of node `i`.
fn node_to_entry(nodes: &[NodeRecord], i: usize, lines: &[&[char]], depth: usize) -> (r: Option<
    OutlineEntry,
>)
    requires
        i < nodes@.len(),
    ensures
        opt_entry(r) == entry_of(shape(nodes@), views(lines@), i as int, depth as nat),
    decreases nodes@.len() - i, 1int,
{
    let ghost t = shape(nodes@);
    assert(t[i as int] == nodes@[i as int]@);
    let kind_text = nodes[i].kind.as_str();
    let c = match construct_of(kind_text) {
        Some(c) => c,
        None => {
            return None;
        },
    };
    let name = entry_name_of(nodes, i, lines, c);
    let kind = outline_kind(c);
    let signature = if c == Construct::Function || c == Construct::Property {
        Some(extract_signature(&nodes[i], lines))
    } else {
        None
    };
    let container = c == Construct::Class || c == Construct::Struct || c == Construct::Interface
        || kind == OutlineKind::Module;
    let children = if container && depth < 1 {
        let namespace = same_text(kind_text, "namespace_declaration") || same_text(
            kind_text,
            "namespace_definition",
        ) || same_text(kind_text, "file_scoped_namespace_declaration");
        let child_depth: usize = if namespace {
            depth
        } else {
            depth + 1
        };
        collect_children(nodes, i, lines, child_depth)
    } else {
        Vec::new()
    };
    let doc = extract_doc(nodes, i, lines);
    let e = OutlineEntry {
        kind,
        name,
        start_line: line_of_row(nodes[i].start_row),
        end_line: line_of_row(nodes[i].end_row),
        signature,
        children,
        doc,
    };
    proof {
        crate::types::lemma_children(e);
        assert(e@.children =~= entry_of(t, views(lines@), i as int, depth as nat)->0.children);
    }
    Some(e)
}

/// The entries of the members of the declaration at node `i`.
fn collect_children(nodes: &[NodeRecord], i: usize, lines: &[&[char]], depth: usize) -> (r: Vec<
    OutlineEntry,
>)
    requires
        i < nodes@.len(),
    ensures
        entries_view(r@) == entries_after(
            shape(nodes@),
            views(lines@),
            i as int,
            children(shape(nodes@), member_node(shape(nodes@), i as int)),
            depth as nat,
        ),
    decreases nodes@.len() - i, 0int,
{
    broadcast use lemma_entries_push;

    let ghost t = shape(nodes@);
    let ghost l = views(lines@);
    let parent: usize = member_node_of(nodes, i);
    let kids = children_of(nodes, parent);
    let ghost c = ints(kids@);
    let mut r: Vec<OutlineEntry> = Vec::new();
    let mut k: usize = 0;
    assert(entries_view(r@) =~= entries_after(t, l, i as int, c.take(0), depth as nat));
    while k < kids.len()
        invariant
            k <= kids@.len(),
            t == shape(nodes@),
            l == views(lines@),
            c == ints(kids@),
            i < nodes@.len(),
            forall|k: int| 0 <= k < kids@.len() ==> i < #[trigger] kids@[k] < nodes@.len(),
            entries_view(r@) == entries_after(t, l, i as int, c.take(k as int), depth as nat),
        decreases kids@.len() - k,
    {
        assert(c.take(k + 1).drop_last() =~= c.take(k as int));
        assert(c.take(k + 1).last() == kids@[k as int]);
        if let Some(e) = node_to_entry(nodes, kids[k], lines, depth) {
            r.push(e);
        }
        k = k + 1;
    }
    assert(c.take(kids@.len() as int) =~= c);
    r
}

/// The entries of the children of the root.
pub fn walk_top_level(nodes: &[NodeRecord], lines: &[&[char]]) -> (r: Vec<OutlineEntry>)
    ensures
        entries_view(r@) == top_level(shape(nodes@), views(lines@)),
{
    broadcast use lemma_entries_push;

    let ghost t = shape(nodes@);
    let ghost l = views(lines@);
    let mut r: Vec<OutlineEntry> = Vec::new();
    assert(entries_view(r@) =~= Seq::<EntryView>::empty());
    if nodes.len() == 0 {
        return r;
    }
    let kids = children_of(nodes, 0);
    let ghost c = ints(kids@);
    let mut k: usize = 0;
    assert(entries_view(r@) =~= entries_after(t, l, 0, c.take(0), 0));
    while k < kids.len()
        invariant
            k <= kids@.len(),
            t == shape(nodes@),
            l == views(lines@),
            c == ints(kids@),
            forall|k: int| 0 <= k < kids@.len() ==> 0 < #[trigger] kids@[k] < nodes@.len(),
            entries_view(r@) == entries_after(t, l, 0, c.take(k as int), 0),
        decreases kids@.len() - k,
    {
        assert(c.take(k + 1).drop_last() =~= c.take(k as int));
        assert(c.take(k + 1).last() == kids@[k as int]);
        if let Some(e) = node_to_entry(nodes, kids[k], lines, 0) {
            r.push(e);
        }
        k = k + 1;
    }
    assert(c.take(kids@.len() as int) =~= c);
    r
}

/// The outline of the content: empty where there is no syntax tree.
pub open spec fn outline_of(content: Seq<char>, lang: Lang) -> Seq<EntryView> {
    match nodes_in(content, lang) {
        Some(t) => top_level(t, lines(content)),
        None => Seq::empty(),
    }
}

/// The outline entries of the content.
pub fn get_outline_entries(content: &str, lang: Lang) -> (r: Vec<OutlineEntry>)
    ensures
        entries_view(r@) == outline_of(content@, lang),
{
    match parse_content(content, lang) {
        Some(nodes) => {
            let text = chars_of(content);
            let lines = lines_of(text.as_slice());
            walk_top_level(nodes.as_slice(), lines.as_slice())
        },
        None => {
            let r: Vec<OutlineEntry> = Vec::new();
            assert(entries_view(r@) =~= Seq::<EntryView>::empty());
            r
        },
    }
}

// ---------------------------------------------------------------------------
// Imports
// ---------------------------------------------------------------------------

/// What stands before the first character `c`.
pub open spec fn before(s: Seq<char>, c: char) -> Seq<char> {
    match char_at(s, c) {
        Some(i) => s.take(i),
        None => s,
    }
}

/// The first word, empty where there is none.
pub open spec fn first_word(s: Seq<char>) -> Seq<char> {
    if words(s).len() > 0 {
        words(s)[0]
    } else {
        Seq::empty()
    }
}

/// The character ends or quotes a module name.
pub open spec fn is_quote(c: char) -> bool {
    c == '"' || c == '\'' || c == ';'
}

/// The text without quotes at its start.
pub open spec fn unquote_start(s: Seq<char>) -> Seq<char>
    decreases s.len(),
{
    if s.len() > 0 && is_quote(s[0]) {
        unquote_start(s.drop_first())
    } else {
        s
    }
}

/// The text without quotes at its end.
pub open spec fn unquote_end(s: Seq<char>) -> Seq<char>
    decreases s.len(),
{
    if s.len() > 0 && is_quote(s.last()) {
        unquote_end(s.drop_last())
    } else {
        s
    }
}

/// The text without white space and then quotes around it.
pub open spec fn unquoted(s: Seq<char>) -> Seq<char> {
    unquote_end(unquote_start(trim(s)))
}

/// The module that an import statement names.
pub open spec fn import_source(text: Seq<char>) -> Seq<char> {
    let s = strip_end(trim(text), ';');
    if "use "@.is_prefix_of(s) {
        strip_suffixes(trim(before(s.skip("use "@.len() as int), '{')), "::"@)
    } else if "import"@.is_prefix_of(s) {
        match find(s, "from "@) {
            Some(p) => unquoted(s.skip(p + "from "@.len())),
            None => if "import "@.is_prefix_of(s) {
                unquoted(s.skip("import "@.len() as int))
            } else {
                unquoted(Seq::empty())
            },
        }
    } else if "from "@.is_prefix_of(s) {
        first_word(s.skip("from "@.len() as int))
    } else if "#include"@.is_prefix_of(s) {
        trim(s.skip("#include"@.len() as int))
    } else if words(s).len() > 0 {
        words(s).last()
    } else {
        s
    }
}

fn unquoted_of(s: &[char]) -> (r: String)
    ensures
        r@ == unquoted(s@),
{
    let t = trim_of(s);
    let mut a: usize = 0;
    assert(t@.subrange(0, t@.len() as int) =~= t@);
    while a < t.len() && (t[a] == '"' || t[a] == '\'' || t[a] == ';')
        invariant
            a <= t@.len(),
            unquote_start(t@) == unquote_start(t@.subrange(a as int, t@.len() as int)),
        decreases t@.len() - a,
    {
        assert(t@.subrange(a as int, t@.len() as int).drop_first() =~= t@.subrange(
            a + 1,
            t@.len() as int,
        ));
        a = a + 1;
    }
    let u = slice_subrange(t, a, t.len());
    let mut b: usize = u.len();
    assert(u@.subrange(0, b as int) =~= u@);
    while b > 0 && (u[b - 1] == '"' || u[b - 1] == '\'' || u[b - 1] == ';')
        invariant
            b <= u@.len(),
            unquote_end(u@) == unquote_end(u@.subrange(0, b as int)),
        decreases b,
    {
        assert(u@.subrange(0, b as int).drop_last() =~= u@.subrange(0, b - 1));
        b = b - 1;
    }
    string_of(slice_subrange(u, 0, b))
}

fn first_word_of(s: &[char]) -> (r: String)
    ensures
        r@ == first_word(s@),
{
    let w = words_of(s);
    if w.len() > 0 {
        assert(views(w@)[0] == w@[0]@);
        string_of(w[0])
    } else {
        String::new()
    }
}

/// The module that an import statement names.
pub fn extract_import_source(text: &str) -> (r: String)
    ensures
        r@ == import_source(text@),
{
    let all = chars_of(text);
    let s = strip_end_of(trim_of(all.as_slice()), ';');
    if let Some(rest) = after(s, "use ") {
        assert(rest@ =~= s@.skip("use "@.len() as int));
        let head = match find_char(rest, '{') {
            Some(i) => {
                proof {
                    crate::text::lemma_char_at(rest@, '{');
                    assert(rest@.subrange(0, i as int) =~= rest@.take(i as int));
                }
                slice_subrange(rest, 0, i)
            },
            None => rest,
        };
        return string_of(strip_suffixes_of(trim_of(head), "::"));
    }
    if has_prefix(s, "import") {
        if let Some(p) = find_text(s, "from ") {
            let n: usize = s.len();
            proof {
                lemma_find_from(s@, "from "@, 0);
                reveal_strlit("from ");
            }
            assert(s@.subrange(p + 5, s@.len() as int) =~= s@.skip(p + "from "@.len()));
            return unquoted_of(slice_subrange(s, p + 5, n));
        }
        return match after(s, "import ") {
            Some(rest) => {
                assert(rest@ =~= s@.skip("import "@.len() as int));
                unquoted_of(rest)
            },
            None => {
                let none: &[char] = &[];
                assert(none@ =~= Seq::<char>::empty());
                unquoted_of(none)
            },
        };
    }
    if let Some(rest) = after(s, "from ") {
        assert(rest@ =~= s@.skip("from "@.len() as int));
        return first_word_of(rest);
    }
    if let Some(rest) = after(s, "#include") {
        assert(rest@ =~= s@.skip("#include"@.len() as int));
        return string_of(trim_of(rest));
    }
    let w = words_of(s);
    if w.len() > 0 {
        let last: usize = w.len() - 1;
        assert(views(w@).last() == w@[last as int]@);
        string_of(w[last])
    } else {
        string_of(s)
    }
}

/// The entry is that of the declaration at node `j`.
pub open spec fn entry_at(e: EntryView, t: Seq<NodeView>, lines: Seq<Seq<char>>, j: int) -> bool {
    &&& construct(t[j].kind) is Some
    &&& e.kind == kind_of(construct(t[j].kind)->0)
    &&& e.name == entry_name(t, j, lines, construct(t[j].kind)->0)
    &&& 0 <= t[j].start_row < u32::MAX ==> e.start_line == t[j].start_row + 1
    &&& 0 <= t[j].end_row < u32::MAX ==> e.end_line == t[j].end_row + 1
    &&& e.doc == doc_of(t, j, lines)
}

proof fn lemma_entry_of(t: Seq<NodeView>, lines: Seq<Seq<char>>, j: int, depth: nat)
    ensures
        entry_of(t, lines, j, depth) is Some <==> construct(t[j].kind) is Some,
        entry_of(t, lines, j, depth) matches Some(e) ==> entry_at(e, t, lines, j),
{
}

/// The entry that node `j` gets at the depth, by a name of its own.
#[verifier::opaque]
spec fn gets(t: Seq<NodeView>, lines: Seq<Seq<char>>, j: int, depth: nat) -> Option<EntryView> {
    entry_of(t, lines, j, depth)
}

proof fn lemma_entries_step(
    t: Seq<NodeView>,
    lines: Seq<Seq<char>>,
    i: int,
    kids: Seq<int>,
    depth: nat,
)
    ensures
        kids.len() == 0 ==> entries_after(t, lines, i, kids, depth).len() == 0,
        kids.len() > 0 ==> entries_after(t, lines, i, kids, depth) == (if i < kids.last() < t.len()
            && gets(t, lines, kids.last(), depth) is Some {
            entries_after(t, lines, i, kids.drop_last(), depth).push(
                gets(t, lines, kids.last(), depth)->0,
            )
        } else {
            entries_after(t, lines, i, kids.drop_last(), depth)
        }),
{
    reveal(gets);
}

proof fn lemma_collects(
    f: spec_fn(int) -> Option<EntryView>,
    all: spec_fn(int) -> Seq<EntryView>,
    kids: Seq<int>,
    low: int,
    high: int,
    n: int,
)
    requires
        0 <= n <= kids.len(),
        all(0).len() == 0,
        forall|k: int|
            0 < k <= kids.len() ==> #[trigger] all(k) == (if low < kids[k - 1] < high && f(
                kids[k - 1],
            ) is Some {
                all(k - 1).push(f(kids[k - 1])->0)
            } else {
                all(k - 1)
            }),
    ensures
        all(n).len() <= n,
        forall|k: int|
            0 <= k < n && low < #[trigger] kids[k] < high && f(kids[k]) is Some ==> all(n).contains(
                f(kids[k])->0,
            ),
        forall|e: EntryView| #[trigger]
            all(n).contains(e) ==> exists|k: int|
                0 <= k < n && low < #[trigger] kids[k] < high && f(kids[k]) == Some(e),
    decreases n,
{
    if n > 0 {
        lemma_collects(f, all, kids, low, high, n - 1);
        let q = all(n - 1);
        let r = all(n);
        assert forall|e: EntryView| q.contains(e) implies #[trigger] r.contains(e) by {
            let a = choose|a: int| 0 <= a < q.len() && q[a] == e;
            assert(r[a] == e);
        }
        assert forall|k: int|
            0 <= k < n && low < #[trigger] kids[k] < high && f(kids[k]) is Some implies r.contains(
            f(kids[k])->0,
        ) by {
            if k == n - 1 {
                assert(r[q.len() as int] == f(kids[k])->0);
            } else {
                assert(q.contains(f(kids[k])->0));
            }
        }
        assert forall|e: EntryView| #[trigger] r.contains(e) implies exists|k: int|
            0 <= k < n && low < #[trigger] kids[k] < high && f(kids[k]) == Some(e) by {
            let a = choose|a: int| 0 <= a < r.len() && r[a] == e;
            if a < q.len() {
                assert(q[a] == e);
                assert(q.contains(e));
                let k = choose|k: int|
                    0 <= k < n - 1 && low < #[trigger] kids[k] < high && f(kids[k]) == Some(e);
                assert(f(kids[k]) == Some(e));
            } else {
                assert(f(kids[n - 1]) == Some(e));
            }
        }
    }
}

proof fn lemma_entries_after(
    t: Seq<NodeView>,
    lines: Seq<Seq<char>>,
    i: int,
    kids: Seq<int>,
    depth: nat,
)
    ensures
        entries_after(t, lines, i, kids, depth).len() <= kids.len(),
        forall|k: int|
            0 <= k < kids.len() && i < #[trigger] kids[k] < t.len() && gets(
                t,
                lines,
                kids[k],
                depth,
            ) is Some ==> entries_after(t, lines, i, kids, depth).contains(
                gets(t, lines, kids[k], depth)->0,
            ),
        forall|e: EntryView| #[trigger]
            entries_after(t, lines, i, kids, depth).contains(e) ==> exists|k: int|
                0 <= k < kids.len() && i < #[trigger] kids[k] < t.len() && gets(
                    t,
                    lines,
                    kids[k],
                    depth,
                ) == Some(e),
{
    let f = |j: int| gets(t, lines, j, depth);
    let all = |k: int| entries_after(t, lines, i, kids.take(k), depth);
    assert forall|k: int| 0 < k <= kids.len() implies #[trigger] all(k) == (if i < kids[k - 1]
        < t.len() && f(kids[k - 1]) is Some {
        all(k - 1).push(f(kids[k - 1])->0)
    } else {
        all(k - 1)
    }) by {
        lemma_entries_step(t, lines, i, kids.take(k), depth);
        assert(kids.take(k).drop_last() =~= kids.take(k - 1));
        assert(kids.take(k).last() == kids[k - 1]);
    }
    lemma_entries_step(t, lines, i, kids.take(0), depth);
    lemma_collects(f, all, kids, i, t.len() as int, kids.len() as int);
    assert(kids.take(kids.len() as int) =~= kids);
}

/// Every declaration at the top of a file is in its outline, with its kind, its name and
/// its lines.
pub proof fn law_declarations_are_listed(t: Seq<NodeView>, lines: Seq<Seq<char>>, j: int)
    requires
        0 < j < t.len(),
        children(t, 0).contains(j),
        construct(t[j].kind) is Some,
    ensures
        exists|e: EntryView| #[trigger] top_level(t, lines).contains(e) && entry_at(e, t, lines, j),
{
    let kids = children(t, 0);
    lemma_entries_after(t, lines, 0, kids, 0);
    let k = choose|k: int| 0 <= k < kids.len() && kids[k] == j;
    lemma_gets(t, lines, kids[k], 0);
    let e = gets(t, lines, kids[k], 0)->0;
    assert(top_level(t, lines).contains(e));
}

/// Nothing else is in the outline of a file: each entry is that of a declaration at its
/// top.
pub proof fn law_entries_are_declarations(t: Seq<NodeView>, lines: Seq<Seq<char>>, e: EntryView)
    requires
        top_level(t, lines).contains(e),
    ensures
        exists|j: int| #[trigger]
            children(t, 0).contains(j) && 0 < j < t.len() && entry_at(e, t, lines, j),
{
    let kids = children(t, 0);
    lemma_entries_after(t, lines, 0, kids, 0);
    let k = choose|k: int|
        0 <= k < kids.len() && 0 < #[trigger] kids[k] < t.len() && gets(t, lines, kids[k], 0)
            == Some(e);
    lemma_gets(t, lines, kids[k], 0);
    assert(children(t, 0).contains(kids[k]));
}

/// Every member of a class, a struct, an interface or a module at the top of a file is
/// listed under it. The members stand in its body, where it has one.
pub proof fn law_members_are_listed(t: Seq<NodeView>, lines: Seq<Seq<char>>, i: int, j: int)
    requires
        0 <= i < t.len(),
        construct(t[i].kind) matches Some(c) && (c == Construct::Class || c == Construct::Struct
            || c == Construct::Interface || c == Construct::Impl || c == Construct::Object || c
            == Construct::Module),
        children(t, member_node(t, i)).contains(j),
        construct(t[j].kind) is Some,
        i < j < t.len(),
    ensures
        exists|e: EntryView| #[trigger]
            entry_of(t, lines, i, 0)->0.children.contains(e) && entry_at(e, t, lines, j),
{
    let kids = children(t, member_node(t, i));
    let depth: nat = if is_namespace(t[i].kind) {
        0
    } else {
        1
    };
    lemma_entries_after(t, lines, i, kids, depth);
    let k = choose|k: int| 0 <= k < kids.len() && kids[k] == j;
    lemma_gets(t, lines, kids[k], depth);
    let e = gets(t, lines, kids[k], depth)->0;
    lemma_members(t, lines, i);
    assert(entry_of(t, lines, i, 0)->0.children.contains(e));
}

proof fn lemma_gets(t: Seq<NodeView>, lines: Seq<Seq<char>>, j: int, depth: nat)
    ensures
        gets(t, lines, j, depth) is Some <==> construct(t[j].kind) is Some,
        gets(t, lines, j, depth) matches Some(e) ==> entry_at(e, t, lines, j),
{
    reveal(gets);
    lemma_entry_of(t, lines, j, depth);
}

proof fn lemma_members(t: Seq<NodeView>, lines: Seq<Seq<char>>, i: int)
    requires
        construct(t[i].kind) matches Some(c) && is_container(c),
    ensures
        entry_of(t, lines, i, 0) is Some,
        entry_of(t, lines, i, 0)->0.children == entries_after(
            t,
            lines,
            i,
            children(t, member_node(t, i)),
            if is_namespace(t[i].kind) {
                0
            } else {
                1
            },
        ),
{
}

/// The members of a declaration stand in the first of its children that is a body, or,
/// without one, in the declaration itself; they come after it.
pub proof fn law_members_stand_in_the_body(t: Seq<NodeView>, i: int)
    requires
        0 <= i < t.len(),
    ensures
        i <= member_node(t, i) < t.len(),
        member_node(t, i) == i ==> forall|k: int|
            0 <= k < children(t, i).len() ==> !is_body(t[#[trigger] children(t, i)[k]].kind),
        member_node(t, i) != i ==> children(t, i).contains(member_node(t, i)) && is_body(
            t[member_node(t, i)].kind,
        ),
{
    lemma_first_body(t, children(t, i));
    crate::syntax::law_subtree_is_what_is_deeper(t, i);
    if let Some(b) = first_body(t, children(t, i)) {
        crate::syntax::law_children_are_one_level_deeper(t, i, b);
    }
}

proof fn lemma_first_body(t: Seq<NodeView>, kids: Seq<int>)
    ensures
        match first_body(t, kids) {
            Some(b) => kids.contains(b) && is_body(t[b].kind),
            None => forall|k: int| 0 <= k < kids.len() ==> !is_body(t[#[trigger] kids[k]].kind),
        },
    decreases kids.len(),
{
    if kids.len() > 0 {
        if is_body(t[kids[0]].kind) {
            assert(kids.contains(kids[0]));
        } else {
            let rest = kids.drop_first();
            lemma_first_body(t, rest);
            match first_body(t, rest) {
                Some(b) => {
                    let k = choose|k: int| 0 <= k < rest.len() && rest[k] == b;
                    assert(kids[k + 1] == b);
                },
                None => {
                    assert forall|k: int| 0 <= k < kids.len() implies !is_body(
                        t[#[trigger] kids[k]].kind,
                    ) by {
                        if k > 0 {
                            assert(rest[k - 1] == kids[k]);
                        }
                    }
                },
            }
        }
    }
}

/// The text of a node in one row is what stands there between its first and its last
/// byte.
pub proof fn law_node_text_stands_in_its_row(n: NodeView, lines: Seq<Seq<char>>, p: int, q: int)
    requires
        0 <= n.start_row < lines.len(),
        n.end_row == n.start_row,
        0 <= p <= q <= lines[n.start_row].len(),
        n.start_col == byte_len(lines[n.start_row].take(p)),
        n.end_col == byte_len(lines[n.start_row].take(q)),
    ensures
        first_line(n, lines) == lines[n.start_row].subrange(p, q),
        node_text(n, lines) == lines[n.start_row].subrange(p, q),
{
    let s = lines[n.start_row];
    crate::text::law_byte_offsets_lead_to_characters(s, p, q);
    crate::text::lemma_byte_len_take(s, q);
}

/// The text of a node of several rows is the rest of its first row, shortened where it
/// takes more than eighty bytes.
pub proof fn law_node_text_ends_with_its_row(n: NodeView, lines: Seq<Seq<char>>, p: int)
    requires
        0 <= n.start_row < lines.len(),
        n.end_row != n.start_row,
        0 <= p <= lines[n.start_row].len(),
        n.start_col == byte_len(lines[n.start_row].take(p)),
    ensures
        first_line(n, lines) == lines[n.start_row].skip(p),
        byte_len(lines[n.start_row].skip(p)) <= 80 ==> node_text(n, lines)
            == lines[n.start_row].skip(p),
{
    let s = lines[n.start_row];
    crate::text::lemma_char_place(s, p);
}

/// A text is kept whole up to the limit, and else cut so that it takes no more than that.
pub proof fn law_short_texts_are_kept(s: Seq<char>, max: int, keep: int)
    requires
        0 <= keep <= max - 3,
    ensures
        byte_len(s) <= max ==> shortened(s, max, keep) == s,
        byte_len(s) > max ==> exists|t: Seq<char>|
            #[trigger] t.is_prefix_of(s) && shortened(s, max, keep) == t + "..."@ && byte_len(t)
                <= keep,
{
    if byte_len(s) > max {
        crate::text::law_longest_start_that_fits(s, keep);
        assert(truncated(s, keep).is_prefix_of(s));
    }
}

/// The signature ends before the opening brace, or before the colon that ends the line.
pub proof fn law_signature_ends_before_the_body(a: Seq<char>, b: Seq<char>)
    requires
        !a.contains('{'),
    ensures
        signature_of_line(a + seq!['{'] + b) == trim(a),
        signature_of_line(a.push(':')) == trim(a),
        a.len() > 0 && a.last() != ':' && byte_len(a) <= 120 ==> signature_of_line(a) == a,
{
    let s = a + seq!['{'] + b;
    assert(s[a.len() as int] == '{');
    assert forall|j: int| 0 <= j < a.len() implies s[j] != '{' by {
        assert(s[j] == a[j]);
        assert(a.contains(a[j]));
    }
    crate::text::lemma_char_at_is(s, '{', a.len() as int);
    assert(s.take(a.len() as int) =~= a);
    let c = a.push(':');
    crate::text::lemma_char_at(c, '{');
    crate::text::lemma_char_at(a, '{');
    match char_at(c, '{') {
        Some(i) => {
            assert(a[i] == '{');
            assert(a.contains(a[i]));
        },
        None => {},
    }
    match char_at(a, '{') {
        Some(i) => {
            assert(a.contains(a[i]));
        },
        None => {},
    }
    assert(c.drop_last() =~= a);
}

/// Lines are counted from one.
pub proof fn law_lines_count_from_one(row: int)
    requires
        0 <= row < u32::MAX,
    ensures
        line_number(row) == row + 1,
{
}

proof fn lemma_trimmed(s: Seq<char>)
    requires
        s.len() > 0,
        !crate::text::is_space(s[0]),
        !crate::text::is_space(s.last()),
    ensures
        trim(s) == s,
{
    assert(crate::text::trim_start(s) == s);
    assert(crate::text::trim_end(s) == s);
}

/// The module that a `use` names is read, with or without a list behind it.
pub proof fn law_used_module_is_read(m: Seq<char>, items: Seq<char>)
    requires
        m.len() > 0,
        !crate::text::is_space(m[0]),
        !crate::text::is_space(m.last()),
        m.last() != ';',
        m.last() != ':',
        !m.contains('{'),
    ensures
        import_source("use "@ + m + seq![';']) == m,
        import_source("use "@ + m + seq![':', ':', '{'] + items + seq!['}', ';']) == m,
{
    reveal_strlit("use ");
    reveal_strlit("::");
    let u = "use "@;
    let a = u + m;
    let s = a + seq![';'];
    lemma_trimmed(s);
    assert(s.drop_last() =~= a);
    assert(strip_end(a, ';') == a) by {
        assert(a.last() == m.last());
    }
    assert(strip_end(s, ';') == a);
    assert(u =~= a.subrange(0, 4));
    assert(a.skip(4) =~= m);
    crate::text::lemma_char_at(m, '{');
    match char_at(m, '{') {
        Some(i) => {
            assert(m.contains(m[i]));
        },
        None => {},
    }
    lemma_trimmed(m);
    lemma_no_colons(m);
    let tail = seq![':', ':', '{'] + items + seq!['}'];
    let b = a + tail;
    let t = a + seq![':', ':', '{'] + items + seq!['}', ';'];
    assert(t =~= b.push(';'));
    lemma_trimmed(t);
    assert(t.drop_last() =~= b);
    assert(strip_end(b, ';') == b) by {
        assert(b.last() == '}');
    }
    assert(strip_end(t, ';') == b);
    assert(u =~= b.subrange(0, 4));
    let r = b.skip(4);
    assert(r =~= m + tail);
    let k = m.len() as int + 2;
    assert(r[k] == '{');
    assert forall|j: int| 0 <= j < k implies r[j] != '{' by {
        if j < m.len() {
            assert(r[j] == m[j]);
            assert(m.contains(m[j]));
        }
    }
    crate::text::lemma_char_at_is(r, '{', k);
    let v = r.take(k);
    assert(v =~= m + "::"@);
    lemma_trimmed(v);
    assert("::"@ =~= v.subrange(v.len() - 2, v.len() as int));
    assert(v.take(v.len() - 2) =~= m);
    assert(strip_suffixes(v, "::"@) == strip_suffixes(m, "::"@));
}

proof fn lemma_no_colons(m: Seq<char>)
    requires
        m.len() > 0,
        m.last() != ':',
    ensures
        strip_suffixes(m, "::"@) == m,
{
    reveal_strlit("::");
    if "::"@.is_suffix_of(m) {
        assert(m.subrange(m.len() - 2, m.len() as int)[1] == "::"@[1]);
    }
}

/// Nodes of the kind neither name a declaration nor wrap one.
pub open spec fn is_plain_kind(kind: Seq<char>) -> bool {
    !(has(kind, "identifier"@) || has(kind, "name"@) || has(kind, "declarator"@) || has(
        kind,
        "declaration"@,
    ))
}

/// The first identifier among the nodes gives the name, where none before it wraps a
/// declaration.
pub proof fn law_first_identifier_names(
    t: Seq<NodeView>,
    kids: Seq<int>,
    lines: Seq<Seq<char>>,
    k: int,
)
    requires
        0 <= k < kids.len(),
        has(t[kids[k]].kind, "identifier"@),
        node_text(t[kids[k]], lines).len() > 0,
        forall|j: int| 0 <= j < k ==> is_plain_kind(t[#[trigger] kids[j]].kind),
    ensures
        first_identifier(t, kids, lines) == Some(node_text(t[kids[k]], lines)),
        first_inner(t, kids, lines) == Some(node_text(t[kids[k]], lines)),
    decreases k,
{
    if k > 0 {
        assert(is_plain_kind(t[kids[0]].kind));
        let r = kids.drop_first();
        assert forall|j: int| 0 <= j < k - 1 implies is_plain_kind(t[#[trigger] r[j]].kind) by {
            assert(r[j] == kids[j + 1]);
        }
        assert(r[k - 1] == kids[k]);
        law_first_identifier_names(t, r, lines, k - 1);
    }
}

} // verus!
