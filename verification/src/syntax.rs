//! Syntax trees as flat lists of nodes in document order, each with its depth.
use streaming_iterator::StreamingIterator;
use vstd::prelude::*;

use crate::text::{opt_text, same_text};
use crate::types::{ints, lemma_ints_push};

verus! {

/// `tree_sitter::Language`: a grammar.
#[verifier::external_type_specification]
#[verifier::external_body]
pub struct ExLanguage(tree_sitter::Language);

/// `tree_sitter::Tree`: the syntax tree of a text.
#[verifier::external_type_specification]
#[verifier::external_body]
pub struct ExTree(tree_sitter::Tree);

/// One node of a syntax tree. Rows, columns and offsets count from zero, columns
/// and offsets in bytes.
#[derive(Debug)]
pub struct NodeRecord {
    pub kind: String,
    pub field: Option<String>,
    pub depth: usize,
    pub start_row: usize,
    pub start_col: usize,
    pub end_row: usize,
    pub end_col: usize,
    pub start_byte: usize,
    pub end_byte: usize,
}

/// What a node record says.
pub struct NodeView {
    pub kind: Seq<char>,
    pub field: Option<Seq<char>>,
    pub depth: int,
    pub start_row: int,
    pub start_col: int,
    pub end_row: int,
    pub end_col: int,
    pub start_byte: int,
    pub end_byte: int,
}

impl View for NodeRecord {
    type V = NodeView;

    open spec fn view(&self) -> NodeView {
        NodeView {
            kind: self.kind@,
            field: opt_text(self.field),
            depth: self.depth as int,
            start_row: self.start_row as int,
            start_col: self.start_col as int,
            end_row: self.end_row as int,
            end_col: self.end_col as int,
            start_byte: self.start_byte as int,
            end_byte: self.end_byte as int,
        }
    }
}

/// What the nodes of a list say.
pub open spec fn shape(v: Seq<NodeRecord>) -> Seq<NodeView> {
    v.map_values(|n: NodeRecord| n@)
}

// ---------------------------------------------------------------------------
// Parsing
// ---------------------------------------------------------------------------

/// The name of the grammar.
pub uninterp spec fn grammar_name(l: tree_sitter::Language) -> Seq<char>;

/// The nodes of the syntax tree that parsing the content with the grammar gives,
/// where it gives one.
pub uninterp spec fn parsed(grammar: Seq<char>, content: Seq<char>) -> Option<Seq<NodeView>>;

/// The grammar and the content that a syntax tree was made from.
pub uninterp spec fn tree_source(t: tree_sitter::Tree) -> (Seq<char>, Seq<char>);

/// The nodes of a syntax tree in document order, the root first.
pub open spec fn tree_nodes(t: tree_sitter::Tree) -> Seq<NodeView> {
    parsed(tree_source(t).0, tree_source(t).1)->0
}

/// `tree_sitter_rust::LANGUAGE`: the grammar `rust`.
#[verifier::external_body]
pub(crate) fn rust_grammar() -> (r: tree_sitter::Language)
    ensures
        grammar_name(r) == "rust"@,
{
    tree_sitter_rust::LANGUAGE.into()
}

/// `tree_sitter_typescript::LANGUAGE_TYPESCRIPT`: the grammar `typescript`.
#[verifier::external_body]
pub(crate) fn typescript_grammar() -> (r: tree_sitter::Language)
    ensures
        grammar_name(r) == "typescript"@,
{
    tree_sitter_typescript::LANGUAGE_TYPESCRIPT.into()
}

/// `tree_sitter_typescript::LANGUAGE_TSX`: the grammar `tsx`.
#[verifier::external_body]
pub(crate) fn tsx_grammar() -> (r: tree_sitter::Language)
    ensures
        grammar_name(r) == "tsx"@,
{
    tree_sitter_typescript::LANGUAGE_TSX.into()
}

/// `tree_sitter_javascript::LANGUAGE`: the grammar `javascript`.
#[verifier::external_body]
pub(crate) fn javascript_grammar() -> (r: tree_sitter::Language)
    ensures
        grammar_name(r) == "javascript"@,
{
    tree_sitter_javascript::LANGUAGE.into()
}

/// `tree_sitter_python::LANGUAGE`: the grammar `python`.
#[verifier::external_body]
pub(crate) fn python_grammar() -> (r: tree_sitter::Language)
    ensures
        grammar_name(r) == "python"@,
{
    tree_sitter_python::LANGUAGE.into()
}

/// `tree_sitter_scala::LANGUAGE`: the grammar `scala`.
#[verifier::external_body]
pub(crate) fn scala_grammar() -> (r: tree_sitter::Language)
    ensures
        grammar_name(r) == "scala"@,
{
    tree_sitter_scala::LANGUAGE.into()
}

/// `tree_sitter_go::LANGUAGE`: the grammar `go`.
#[verifier::external_body]
pub(crate) fn go_grammar() -> (r: tree_sitter::Language)
    ensures
        grammar_name(r) == "go"@,
{
    tree_sitter_go::LANGUAGE.into()
}

/// `tree_sitter_java::LANGUAGE`: the grammar `java`.
#[verifier::external_body]
pub(crate) fn java_grammar() -> (r: tree_sitter::Language)
    ensures
        grammar_name(r) == "java"@,
{
    tree_sitter_java::LANGUAGE.into()
}

/// `tree_sitter_c::LANGUAGE`: the grammar `c`.
#[verifier::external_body]
pub(crate) fn c_grammar() -> (r: tree_sitter::Language)
    ensures
        grammar_name(r) == "c"@,
{
    tree_sitter_c::LANGUAGE.into()
}

/// `tree_sitter_cpp::LANGUAGE`: the grammar `cpp`.
#[verifier::external_body]
pub(crate) fn cpp_grammar() -> (r: tree_sitter::Language)
    ensures
        grammar_name(r) == "cpp"@,
{
    tree_sitter_cpp::LANGUAGE.into()
}

/// `tree_sitter_ruby::LANGUAGE`: the grammar `ruby`.
#[verifier::external_body]
pub(crate) fn ruby_grammar() -> (r: tree_sitter::Language)
    ensures
        grammar_name(r) == "ruby"@,
{
    tree_sitter_ruby::LANGUAGE.into()
}

/// `tree_sitter_php::LANGUAGE_PHP`: the grammar `php`.
#[verifier::external_body]
pub(crate) fn php_grammar() -> (r: tree_sitter::Language)
    ensures
        grammar_name(r) == "php"@,
{
    tree_sitter_php::LANGUAGE_PHP.into()
}

/// `tree_sitter_c_sharp::LANGUAGE`: the grammar `c_sharp`.
#[verifier::external_body]
pub(crate) fn c_sharp_grammar() -> (r: tree_sitter::Language)
    ensures
        grammar_name(r) == "c_sharp"@,
{
    tree_sitter_c_sharp::LANGUAGE.into()
}

/// `tree_sitter_swift::LANGUAGE`: the grammar `swift`.
#[verifier::external_body]
pub(crate) fn swift_grammar() -> (r: tree_sitter::Language)
    ensures
        grammar_name(r) == "swift"@,
{
    tree_sitter_swift::LANGUAGE.into()
}

/// `tree_sitter_kotlin_ng::LANGUAGE`: the grammar `kotlin`.
#[verifier::external_body]
pub(crate) fn kotlin_grammar() -> (r: tree_sitter::Language)
    ensures
        grammar_name(r) == "kotlin"@,
{
    tree_sitter_kotlin_ng::LANGUAGE.into()
}

/// `tree_sitter_elixir::LANGUAGE`: the grammar `elixir`.
#[verifier::external_body]
pub(crate) fn elixir_grammar() -> (r: tree_sitter::Language)
    ensures
        grammar_name(r) == "elixir"@,
{
    tree_sitter_elixir::LANGUAGE.into()
}

/// `tree_sitter::Parser::parse`, after `set_language`: the tree of the content. It
/// depends on the grammar and the content alone.
#[verifier::external_body]
pub(crate) fn parse(language: &tree_sitter::Language, content: &str) -> (r: Option<
    tree_sitter::Tree,
>)
    ensures
        r is Some <==> parsed(grammar_name(*language), content@) is Some,
        r matches Some(t) ==> tree_source(t) == (grammar_name(*language), content@),
{
    let mut parser = tree_sitter::Parser::new();
    parser.set_language(language).ok()?;
    parser.parse(content, None)
}

/// `tree_sitter::Node::descendant_count` of the root: the number of nodes of the
/// tree.
#[verifier::external_body]
fn node_count(tree: &tree_sitter::Tree) -> (r: usize)
    ensures
        r == tree_nodes(*tree).len(),
{
    tree.root_node().descendant_count()
}

/// `tree_sitter::TreeCursor::goto_descendant`: the node that comes `i`-th in
/// document order, with the name of the field that it fills in its parent.
#[verifier::external_body]
fn node_at(tree: &tree_sitter::Tree, i: usize) -> (r: NodeRecord)
    requires
        i < tree_nodes(*tree).len(),
    ensures
        r@ == tree_nodes(*tree)[i as int],
{
    let mut cursor = tree.walk();
    cursor.goto_descendant(i);
    let node = cursor.node();
    let (start, end) = (node.start_position(), node.end_position());
    let (start_row, start_col) = (start.row, start.column);
    let (end_row, end_col) = (end.row, end.column);
    let kind = node.kind().to_string();
    let field = cursor.field_name().map(str::to_string);
    let depth = cursor.depth() as usize;
    let (start_byte, end_byte) = (node.start_byte(), node.end_byte());
    NodeRecord { kind, field, depth, start_row, start_col, end_row, end_col, start_byte, end_byte }
}

/// The nodes of the tree.
pub(crate) fn nodes_of(tree: &tree_sitter::Tree) -> (r: Vec<NodeRecord>)
    ensures
        shape(r@) == tree_nodes(*tree),
{
    let n: usize = node_count(tree);
    let mut v: Vec<NodeRecord> = Vec::new();
    let mut i: usize = 0;
    while i < n
        invariant
            i <= n,
            n == tree_nodes(*tree).len(),
            v@.len() == i,
            forall|j: int| 0 <= j < i ==> (#[trigger] v@[j])@ == tree_nodes(*tree)[j],
        decreases n - i,
    {
        v.push(node_at(tree, i));
        i = i + 1;
    }
    assert(shape(v@) =~= tree_nodes(*tree));
    v
}

/// The nodes that parsing the content gives.
pub(crate) fn parse_nodes(language: &tree_sitter::Language, content: &str) -> (r: Option<
    Vec<NodeRecord>,
>)
    ensures
        r matches Some(v) ==> parsed(grammar_name(*language), content@) == Some(shape(v@)),
        r is None ==> parsed(grammar_name(*language), content@) is None,
{
    match parse(language, content) {
        Some(tree) => Some(nodes_of(&tree)),
        None => None,
    }
}

// ---------------------------------------------------------------------------
// Queries
// ---------------------------------------------------------------------------

/// `tree_sitter::Query`: a query made ready for a grammar.
#[verifier::external_type_specification]
#[verifier::external_body]
pub struct ExQuery(tree_sitter::Query);

/// A node that a query captured, with the name of the capture. The text is missing
/// where the bytes of the node are no text.
#[derive(Debug)]
pub struct CaptureRecord {
    pub name: String,
    pub kind: String,
    pub text: Option<String>,
    pub start_row: usize,
    pub start_byte: usize,
    pub end_byte: usize,
}

/// What a capture says.
pub struct CaptureView {
    pub name: Seq<char>,
    pub kind: Seq<char>,
    pub text: Option<Seq<char>>,
    pub start_row: int,
    pub start_byte: int,
    pub end_byte: int,
}

impl View for CaptureRecord {
    type V = CaptureView;

    open spec fn view(&self) -> CaptureView {
        CaptureView {
            name: self.name@,
            kind: self.kind@,
            text: opt_text(self.text),
            start_row: self.start_row as int,
            start_byte: self.start_byte as int,
            end_byte: self.end_byte as int,
        }
    }
}

/// What the captures of a match say.
pub open spec fn captures_view(v: Seq<CaptureRecord>) -> Seq<CaptureView> {
    v.map_values(|c: CaptureRecord| c@)
}

/// What the matches of a query say.
pub open spec fn matches_view(v: Seq<Vec<CaptureRecord>>) -> Seq<Seq<CaptureView>> {
    v.map_values(|m: Vec<CaptureRecord>| captures_view(m@))
}

/// The query is one of the grammar.
pub uninterp spec fn query_compiles(grammar: Seq<char>, query: Seq<char>) -> bool;

/// The grammar and the text that a query was made from.
pub uninterp spec fn query_source(q: tree_sitter::Query) -> (Seq<char>, Seq<char>);

/// What the query finds in the content, match by match.
pub uninterp spec fn query_matches(
    grammar: Seq<char>,
    query: Seq<char>,
    content: Seq<char>,
) -> Seq<Seq<CaptureView>>;

/// `tree_sitter::Query::new`: the query made ready. Whether it can be depends on
/// the grammar and the text alone.
#[verifier::external_body]
fn compile_query(language: &tree_sitter::Language, query: &str) -> (r: Option<tree_sitter::Query>)
    ensures
        r is Some <==> query_compiles(grammar_name(*language), query@),
        r matches Some(q) ==> query_source(q) == (grammar_name(*language), query@),
{
    tree_sitter::Query::new(language, query).ok()
}

/// `tree_sitter::QueryCursor::matches` from the root of the tree: the matches in
/// order, each with its captures. They depend on the grammar, the query and the
/// content alone.
#[verifier::external_body]
fn matches_of(query: &tree_sitter::Query, tree: &tree_sitter::Tree, content: &str) -> (r: Vec<
    Vec<CaptureRecord>,
>)
    requires
        tree_source(*tree) == (query_source(*query).0, content@),
    ensures
        matches_view(r@) == query_matches(query_source(*query).0, query_source(*query).1, content@),
{
    let (names, bytes) = (query.capture_names(), content.as_bytes());
    let record = |c: &tree_sitter::QueryCapture| {
        let n = c.node;
        let text = n.utf8_text(bytes).ok().map(str::to_string);
        let (name, kind) = (names[c.index as usize].to_string(), n.kind().to_string());
        let (start_byte, end_byte) = (n.start_byte(), n.end_byte());
        let start_row = n.start_position().row;
        CaptureRecord { name, kind, text, start_row, start_byte, end_byte }
    };
    let mut cursor = tree_sitter::QueryCursor::new();
    let matches = cursor.matches(query, tree.root_node(), bytes);
    matches.map_deref(|m| m.captures.iter().map(record).collect()).collect()
}

/// What the query finds in the tree of the content: nothing where it is none of the
/// grammar.
pub open spec fn found_matches(grammar: Seq<char>, query: Seq<char>, content: Seq<char>) -> Seq<
    Seq<CaptureView>,
> {
    if query_compiles(grammar, query) {
        query_matches(grammar, query, content)
    } else {
        Seq::empty()
    }
}

/// What the query finds in the tree.
pub(crate) fn run_query(
    language: &tree_sitter::Language,
    query: &str,
    tree: &tree_sitter::Tree,
    content: &str,
) -> (r: Vec<Vec<CaptureRecord>>)
    requires
        tree_source(*tree) == (grammar_name(*language), content@),
    ensures
        matches_view(r@) == found_matches(grammar_name(*language), query@, content@),
{
    match compile_query(language, query) {
        Some(q) => matches_of(&q, tree, content),
        None => {
            let r: Vec<Vec<CaptureRecord>> = Vec::new();
            assert(matches_view(r@) =~= Seq::<Seq<CaptureView>>::empty());
            r
        },
    }
}

/// Whether the query is one of the grammar.
pub fn query_is_valid(language: &tree_sitter::Language, query: &str) -> (r: bool)
    ensures
        r == query_compiles(grammar_name(*language), query@),
{
    compile_query(language, query).is_some()
}

/// The number of kinds of nodes that a grammar has.
pub uninterp spec fn kind_count(grammar: Seq<char>) -> nat;

/// The number of fields that a grammar has.
pub uninterp spec fn field_count(grammar: Seq<char>) -> nat;

/// `tree_sitter::Language::node_kind_count`: the number of kinds of nodes.
#[verifier::external_body]
fn node_kind_count(language: &tree_sitter::Language) -> (r: usize)
    ensures
        r == kind_count(grammar_name(*language)),
{
    language.node_kind_count()
}

/// `tree_sitter::Language::field_count`: the number of fields.
#[verifier::external_body]
fn language_field_count(language: &tree_sitter::Language) -> (r: usize)
    ensures
        r == field_count(grammar_name(*language)),
{
    language.field_count()
}

/// What a grammar is known by where its name is not at hand: the numbers of its
/// kinds and fields.
pub fn lang_cache_key(language: &tree_sitter::Language) -> (r: (usize, usize))
    ensures
        r.0 == kind_count(grammar_name(*language)),
        r.1 == field_count(grammar_name(*language)),
{
    (node_kind_count(language), language_field_count(language))
}

// ---------------------------------------------------------------------------
// Moving about in a tree
// ---------------------------------------------------------------------------

/// The first position at or after `j` of a node no deeper than `d`.
pub open spec fn end_from(t: Seq<NodeView>, d: int, j: int) -> int
    decreases t.len() - j,
{
    if 0 <= j < t.len() && t[j].depth > d {
        end_from(t, d, j + 1)
    } else {
        j
    }
}

/// The position after the last descendant of node `i`.
pub open spec fn subtree_end(t: Seq<NodeView>, i: int) -> int {
    end_from(t, t[i].depth, i + 1)
}

/// The children of node `i` that stand before position `j`.
pub open spec fn children_before(t: Seq<NodeView>, i: int, j: int) -> Seq<int>
    decreases j - i,
{
    if j <= i + 1 {
        Seq::empty()
    } else {
        let r = children_before(t, i, j - 1);
        if t[j - 1].depth == t[i].depth + 1 {
            r.push(j - 1)
        } else {
            r
        }
    }
}

/// The children of node `i`, in document order.
pub open spec fn children(t: Seq<NodeView>, i: int) -> Seq<int> {
    children_before(t, i, subtree_end(t, i))
}

/// The sibling next before node `i`, searching from `j` on backwards.
pub open spec fn prev_from(t: Seq<NodeView>, i: int, j: int) -> Option<int>
    decreases j + 1,
{
    if j < 0 || t[j].depth < t[i].depth {
        None
    } else if t[j].depth == t[i].depth {
        Some(j)
    } else {
        prev_from(t, i, j - 1)
    }
}

/// The sibling next before node `i`.
pub open spec fn prev_sibling(t: Seq<NodeView>, i: int) -> Option<int> {
    prev_from(t, i, i - 1)
}

/// The closest shallower node at or before `j`.
pub open spec fn parent_from(t: Seq<NodeView>, d: int, j: int) -> Option<int>
    decreases j + 1,
{
    if j < 0 {
        None
    } else if t[j].depth < d {
        Some(j)
    } else {
        parent_from(t, d, j - 1)
    }
}

/// The parent of node `i`.
pub open spec fn parent(t: Seq<NodeView>, i: int) -> Option<int> {
    parent_from(t, t[i].depth, i - 1)
}

/// The first of the nodes that fills the field.
pub open spec fn first_with_field(t: Seq<NodeView>, nodes: Seq<int>, field: Seq<char>) -> Option<
    int,
>
    decreases nodes.len(),
{
    if nodes.len() == 0 {
        None
    } else if t[nodes[0]].field == Some(field) {
        Some(nodes[0])
    } else {
        first_with_field(t, nodes.drop_first(), field)
    }
}

/// The first child of node `i` that fills the field.
pub open spec fn child_by_field(t: Seq<NodeView>, i: int, field: Seq<char>) -> Option<int> {
    first_with_field(t, children(t, i), field)
}

/// The children of a node come after it, in rising order.
pub proof fn lemma_children(t: Seq<NodeView>, i: int, j: int)
    requires
        0 <= i < t.len(),
        j <= t.len(),
    ensures
        forall|k: int|
            0 <= k < children_before(t, i, j).len() ==> i < #[trigger] children_before(t, i, j)[k]
                < j,
    decreases j - i,
{
    if j > i + 1 {
        lemma_children(t, i, j - 1);
        let r = children_before(t, i, j);
        assert forall|k: int| 0 <= k < r.len() implies i < #[trigger] r[k] < j by {
            if k < children_before(t, i, j - 1).len() {
                assert(r[k] == children_before(t, i, j - 1)[k]);
            }
        }
    }
}

pub proof fn lemma_end_from(t: Seq<NodeView>, d: int, j: int)
    requires
        0 <= j <= t.len(),
    ensures
        j <= end_from(t, d, j) <= t.len(),
    decreases t.len() - j,
{
    if j < t.len() && t[j].depth > d {
        lemma_end_from(t, d, j + 1);
    }
}

/// The position after the last descendant of node `i`.
pub fn subtree_end_of(nodes: &[NodeRecord], i: usize) -> (r: usize)
    requires
        i < nodes@.len(),
    ensures
        r == subtree_end(shape(nodes@), i as int),
        i < r <= nodes@.len(),
{
    let ghost t = shape(nodes@);
    let n: usize = nodes.len();
    let d: usize = nodes[i].depth;
    let mut j: usize = i + 1;
    while j < n && nodes[j].depth > d
        invariant
            i < j <= n,
            n == nodes@.len(),
            t == shape(nodes@),
            d == t[i as int].depth,
            subtree_end(t, i as int) == end_from(t, d as int, j as int),
        decreases n - j,
    {
        j = j + 1;
    }
    j
}

/// The children of node `i`, in document order.
pub fn children_of(nodes: &[NodeRecord], i: usize) -> (r: Vec<usize>)
    requires
        i < nodes@.len(),
    ensures
        ints(r@) == children(shape(nodes@), i as int),
        forall|k: int| 0 <= k < r@.len() ==> i < #[trigger] r@[k] < nodes@.len(),
{
    broadcast use lemma_ints_push;

    let ghost t = shape(nodes@);
    let n: usize = nodes.len();
    let d: usize = nodes[i].depth;
    let end: usize = subtree_end_of(nodes, i);
    let mut r: Vec<usize> = Vec::new();
    let mut j: usize = i + 1;
    assert(ints(r@) =~= children_before(t, i as int, j as int));
    while j < end
        invariant
            i < j <= end,
            end <= n,
            n == nodes@.len(),
            t == shape(nodes@),
            d == t[i as int].depth,
            ints(r@) == children_before(t, i as int, j as int),
            forall|k: int| 0 <= k < r@.len() ==> i < #[trigger] r@[k] < n,
        decreases end - j,
    {
        if nodes[j].depth > 0 && nodes[j].depth - 1 == d {
            r.push(j);
        }
        j = j + 1;
    }
    r
}

pub fn prev_sibling_of(nodes: &[NodeRecord], i: usize) -> (r: Option<usize>)
    requires
        i < nodes@.len(),
    ensures
        r matches Some(j) ==> j < i && prev_sibling(shape(nodes@), i as int) == Some(j as int),
        r is None ==> prev_sibling(shape(nodes@), i as int) is None,
{
    let ghost t = shape(nodes@);
    let d: usize = nodes[i].depth;
    let mut j: usize = i;
    while j > 0
        invariant
            j <= i < nodes@.len(),
            t == shape(nodes@),
            d == t[i as int].depth,
            prev_sibling(t, i as int) == prev_from(t, i as int, j - 1),
        decreases j,
    {
        let e: usize = nodes[j - 1].depth;
        assert(e == t[j - 1].depth);
        if e < d {
            return None;
        }
        if e == d {
            return Some(j - 1);
        }
        j = j - 1;
    }
    None
}

pub fn parent_of(nodes: &[NodeRecord], i: usize) -> (r: Option<usize>)
    requires
        i < nodes@.len(),
    ensures
        r matches Some(j) ==> j < i && parent(shape(nodes@), i as int) == Some(j as int),
        r is None ==> parent(shape(nodes@), i as int) is None,
{
    let ghost t = shape(nodes@);
    let d: usize = nodes[i].depth;
    let mut j: usize = i;
    while j > 0
        invariant
            j <= i < nodes@.len(),
            t == shape(nodes@),
            d == t[i as int].depth,
            parent(t, i as int) == parent_from(t, d as int, j - 1),
        decreases j,
    {
        assert(nodes@[j - 1].depth == t[j - 1].depth);
        if nodes[j - 1].depth < d {
            return Some(j - 1);
        }
        j = j - 1;
    }
    None
}

pub fn child_by_field_of(nodes: &[NodeRecord], i: usize, field: &str) -> (r: Option<usize>)
    requires
        i < nodes@.len(),
    ensures
        r matches Some(j) ==> i < j < nodes@.len() && child_by_field(
            shape(nodes@),
            i as int,
            field@,
        ) == Some(j as int),
        r is None ==> child_by_field(shape(nodes@), i as int, field@) is None,
{
    let ghost t = shape(nodes@);
    let kids = children_of(nodes, i);
    let ghost c = ints(kids@);
    let mut k: usize = 0;
    assert(c.skip(0) =~= c);
    while k < kids.len()
        invariant
            k <= kids@.len(),
            t == shape(nodes@),
            c == ints(kids@),
            forall|k: int| 0 <= k < kids@.len() ==> i < #[trigger] kids@[k] < nodes@.len(),
            child_by_field(t, i as int, field@) == first_with_field(t, c.skip(k as int), field@),
        decreases kids@.len() - k,
    {
        let j: usize = kids[k];
        assert(c.skip(k as int)[0] == j);
        assert(c.skip(k as int).drop_first() =~= c.skip(k + 1));
        if let Some(f) = &nodes[j].field {
            if same_text(f.as_str(), field) {
                return Some(j);
            }
        }
        k = k + 1;
    }
    None
}

/// The subtree of a node is what follows it deeper in the tree: everything up to the
/// next node that is no deeper, and nothing behind that.
pub proof fn law_subtree_is_what_is_deeper(t: Seq<NodeView>, i: int)
    requires
        0 <= i < t.len(),
    ensures
        i < subtree_end(t, i) <= t.len(),
        forall|j: int| i < j < subtree_end(t, i) ==> (#[trigger] t[j]).depth > t[i].depth,
        subtree_end(t, i) < t.len() ==> t[subtree_end(t, i)].depth <= t[i].depth,
{
    lemma_end_exact(t, t[i].depth, i + 1);
}

proof fn lemma_end_exact(t: Seq<NodeView>, d: int, j: int)
    requires
        0 <= j <= t.len(),
    ensures
        j <= end_from(t, d, j) <= t.len(),
        forall|k: int| j <= k < end_from(t, d, j) ==> (#[trigger] t[k]).depth > d,
        end_from(t, d, j) < t.len() ==> t[end_from(t, d, j)].depth <= d,
    decreases t.len() - j,
{
    if j < t.len() && t[j].depth > d {
        lemma_end_exact(t, d, j + 1);
    }
}

/// The children of a node are all nodes of its subtree that are one level deeper, in
/// document order, and the node is the parent of each.
pub proof fn law_children_are_one_level_deeper(t: Seq<NodeView>, i: int, j: int)
    requires
        0 <= i < t.len(),
    ensures
        children(t, i).contains(j) <==> i < j < subtree_end(t, i) && t[j].depth == t[i].depth + 1,
        children(t, i).contains(j) ==> parent(t, j) == Some(i),
        forall|a: int, b: int|
            0 <= a < b < children(t, i).len() ==> #[trigger] children(t, i)[a]
                < #[trigger] children(t, i)[b],
{
    law_subtree_is_what_is_deeper(t, i);
    lemma_children_before(t, i, subtree_end(t, i), j);
    if children(t, i).contains(j) {
        lemma_parent_from(t, t[j].depth, j - 1);
    }
}

proof fn lemma_children_before(t: Seq<NodeView>, i: int, end: int, j: int)
    ensures
        children_before(t, i, end).contains(j) <==> i < j < end && t[j].depth == t[i].depth + 1,
        forall|a: int, b: int|
            0 <= a < b < children_before(t, i, end).len() ==> #[trigger] children_before(
                t,
                i,
                end,
            )[a] < #[trigger] children_before(t, i, end)[b],
        forall|a: int|
            0 <= a < children_before(t, i, end).len() ==> #[trigger] children_before(
                t,
                i,
                end,
            )[a] < end,
    decreases end - i,
{
    if end > i + 1 {
        lemma_children_before(t, i, end - 1, j);
        let q = children_before(t, i, end - 1);
        let r = children_before(t, i, end);
        if r.contains(j) {
            let a = choose|a: int| 0 <= a < r.len() && r[a] == j;
            if a < q.len() {
                assert(q[a] == j);
            }
        }
        if q.contains(j) {
            let a = choose|a: int| 0 <= a < q.len() && q[a] == j;
            assert(r[a] == j);
        }
        if t[end - 1].depth == t[i].depth + 1 {
            assert(r[q.len() as int] == end - 1);
        }
        assert forall|a: int, b: int| 0 <= a < b < r.len() implies #[trigger] r[a] < #[trigger] r[b] by {
            assert(r[a] == q[a]);
            if b < q.len() {
                assert(r[b] == q[b]);
            }
        }
        assert forall|a: int| 0 <= a < r.len() implies #[trigger] r[a] < end by {
            if a < q.len() {
                assert(r[a] == q[a]);
            }
        }
    }
}

/// The parent of a node is the closest node before it that is less deep; a node without
/// one is the root, or stands beside it.
pub proof fn law_parent_is_closest_above(t: Seq<NodeView>, i: int)
    requires
        0 <= i < t.len(),
    ensures
        match parent(t, i) {
            Some(p) => 0 <= p < i && t[p].depth < t[i].depth && forall|k: int|
                p < k < i ==> (#[trigger] t[k]).depth >= t[i].depth,
            None => forall|k: int| 0 <= k < i ==> (#[trigger] t[k]).depth >= t[i].depth,
        },
{
    lemma_parent_from(t, t[i].depth, i - 1);
}

proof fn lemma_parent_from(t: Seq<NodeView>, d: int, j: int)
    requires
        j < t.len(),
    ensures
        match parent_from(t, d, j) {
            Some(p) => 0 <= p <= j && t[p].depth < d && forall|k: int|
                p < k <= j ==> (#[trigger] t[k]).depth >= d,
            None => forall|k: int| 0 <= k <= j ==> (#[trigger] t[k]).depth >= d,
        },
    decreases j + 1,
{
    if j >= 0 && t[j].depth >= d {
        lemma_parent_from(t, d, j - 1);
    }
}

/// The sibling next before a node is of its depth, and nothing between them is less
/// deep; there is none only where the parent comes first.
pub proof fn law_sibling_is_next_before(t: Seq<NodeView>, i: int)
    requires
        0 <= i < t.len(),
    ensures
        match prev_sibling(t, i) {
            Some(p) => 0 <= p < i && t[p].depth == t[i].depth && forall|k: int|
                p < k < i ==> (#[trigger] t[k]).depth > t[i].depth,
            None => forall|k: int|
                0 <= k < i && (#[trigger] t[k]).depth == t[i].depth ==> exists|q: int|
                    k < q < i && (#[trigger] t[q]).depth < t[i].depth,
        },
{
    lemma_prev_from(t, i, i - 1);
}

proof fn lemma_prev_from(t: Seq<NodeView>, i: int, j: int)
    requires
        j < t.len(),
    ensures
        match prev_from(t, i, j) {
            Some(p) => 0 <= p <= j && t[p].depth == t[i].depth && forall|k: int|
                p < k <= j ==> (#[trigger] t[k]).depth > t[i].depth,
            None => forall|k: int|
                0 <= k <= j && (#[trigger] t[k]).depth == t[i].depth ==> exists|q: int|
                    k < q <= j && (#[trigger] t[q]).depth < t[i].depth,
        },
    decreases j + 1,
{
    if j >= 0 {
        if t[j].depth > t[i].depth {
            lemma_prev_from(t, i, j - 1);
            if prev_from(t, i, j) is None {
                assert forall|k: int|
                    0 <= k <= j && (#[trigger] t[k]).depth == t[i].depth implies exists|q: int|
                    k < q <= j && (#[trigger] t[q]).depth < t[i].depth by {
                    let q = choose|q: int|
                        k < q <= j - 1 && (#[trigger] t[q]).depth < t[i].depth;
                    assert(t[q].depth < t[i].depth);
                }
            }
        } else if t[j].depth < t[i].depth {
            assert(prev_from(t, i, j) is None);
        }
    }
}

/// A field is filled by the first child that has it, and by none only where no child
/// has it.
pub proof fn law_field_is_first_child(t: Seq<NodeView>, i: int, field: Seq<char>)
    ensures
        match child_by_field(t, i, field) {
            Some(c) => children(t, i).contains(c) && t[c].field == Some(field) && exists|k: int|
                0 <= k < children(t, i).len() && #[trigger] children(t, i)[k] == c && forall|a: int|
                    0 <= a < k ==> t[#[trigger] children(t, i)[a]].field != Some(field),
            None => forall|a: int|
                0 <= a < children(t, i).len() ==> t[#[trigger] children(t, i)[a]].field != Some(
                    field,
                ),
        },
{
    lemma_first_with_field(t, children(t, i), field);
}

proof fn lemma_first_with_field(t: Seq<NodeView>, nodes: Seq<int>, field: Seq<char>)
    ensures
        match first_with_field(t, nodes, field) {
            Some(c) => nodes.contains(c) && t[c].field == Some(field) && exists|k: int|
                0 <= k < nodes.len() && #[trigger] nodes[k] == c && forall|a: int|
                    0 <= a < k ==> t[#[trigger] nodes[a]].field != Some(field),
            None => forall|a: int|
                0 <= a < nodes.len() ==> t[#[trigger] nodes[a]].field != Some(field),
        },
    decreases nodes.len(),
{
    if nodes.len() > 0 {
        if t[nodes[0]].field == Some(field) {
            assert(nodes[0] == nodes[0]);
        } else {
            let rest = nodes.drop_first();
            lemma_first_with_field(t, rest, field);
            match first_with_field(t, rest, field) {
                Some(c) => {
                    let k = choose|k: int|
                        0 <= k < rest.len() && #[trigger] rest[k] == c && forall|a: int|
                            0 <= a < k ==> t[#[trigger] rest[a]].field != Some(field);
                    assert(nodes[k + 1] == c);
                    assert forall|a: int| 0 <= a < k + 1 implies t[#[trigger] nodes[a]].field
                        != Some(field) by {
                        if a > 0 {
                            assert(rest[a - 1] == nodes[a]);
                        }
                    }
                },
                None => {
                    assert forall|a: int| 0 <= a < nodes.len() implies t[#[trigger] nodes[a]].field
                        != Some(field) by {
                        if a > 0 {
                            assert(rest[a - 1] == nodes[a]);
                        }
                    }
                },
            }
        }
    }
}

} // verus!
