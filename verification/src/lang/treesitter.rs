//! Definitions in syntax trees: which nodes they are, their names and their
//! weights.
use vstd::prelude::*;

use crate::syntax::{
    child_by_field, child_by_field_of, children, children_of, parent, parent_of, shape, NodeRecord, NodeView,
};
use crate::text::{chars_of, has, has_text, lemma_strs_push, opt_text, same_text, string_of, strs, views};
use crate::types::{ints, Lang};

use super::outline::{first_line, first_line_of, line_number, line_of_row};

verus! {

/// The nodes of the kind are definitions.
pub open spec fn is_definition(kind: Seq<char>) -> bool {
    kind == "function_declaration"@ || kind == "function_definition"@ || kind == "function_item"@ || kind == "method_definition"@ || kind == "method_declaration"@ || kind == "class_declaration"@ || kind == "class_definition"@ || kind == "struct_item"@ || kind == "object_declaration"@ || kind == "interface_declaration"@ || kind == "trait_declaration"@ || kind == "type_alias_declaration"@ || kind == "type_item"@ || kind == "enum_item"@ || kind == "enum_declaration"@ || kind == "lexical_declaration"@ || kind == "variable_declaration"@ || kind == "const_item"@ || kind == "const_declaration"@ || kind == "static_item"@ || kind == "property_declaration"@ || kind == "trait_item"@ || kind == "impl_item"@ || kind == "mod_item"@ || kind == "namespace_definition"@ || kind == "decorated_definition"@ || kind == "type_declaration"@ || kind == "export_statement"@
}

/// Whether the nodes of the kind are definitions.
pub fn is_definition_kind(kind: &str) -> (r: bool)
    ensures
        r == is_definition(kind@),
{
    same_text(kind, "function_declaration") || same_text(kind, "function_definition") || same_text(kind, "function_item") || same_text(kind, "method_definition") || same_text(kind, "method_declaration") || same_text(kind, "class_declaration") || same_text(kind, "class_definition") || same_text(kind, "struct_item") || same_text(kind, "object_declaration") || same_text(kind, "interface_declaration") || same_text(kind, "trait_declaration") || same_text(kind, "type_alias_declaration") || same_text(kind, "type_item") || same_text(kind, "enum_item") || same_text(kind, "enum_declaration") || same_text(kind, "lexical_declaration") || same_text(kind, "variable_declaration") || same_text(kind, "const_item") || same_text(kind, "const_declaration") || same_text(kind, "static_item") || same_text(kind, "property_declaration") || same_text(kind, "trait_item") || same_text(kind, "impl_item") || same_text(kind, "mod_item") || same_text(kind, "namespace_definition") || same_text(kind, "decorated_definition") || same_text(kind, "type_declaration") || same_text(kind, "export_statement")
}

/// The nodes of the kind are types or modules, which qualify what is in them.
pub open spec fn is_type(kind: Seq<char>) -> bool {
    kind == "class_declaration"@ || kind == "class_definition"@ || kind == "struct_item"@ || kind == "impl_item"@ || kind == "interface_declaration"@ || kind == "trait_item"@ || kind == "trait_declaration"@ || kind == "type_declaration"@ || kind == "enum_item"@ || kind == "enum_declaration"@ || kind == "module"@ || kind == "mod_item"@ || kind == "namespace_definition"@
}

fn is_type_kind(kind: &str) -> (r: bool)
    ensures
        r == is_type(kind@),
{
    same_text(kind, "class_declaration") || same_text(kind, "class_definition") || same_text(kind, "struct_item") || same_text(kind, "impl_item") || same_text(kind, "interface_declaration") || same_text(kind, "trait_item") || same_text(kind, "trait_declaration") || same_text(kind, "type_declaration") || same_text(kind, "enum_item") || same_text(kind, "enum_declaration") || same_text(kind, "module") || same_text(kind, "mod_item") || same_text(kind, "namespace_definition")
}

/// The weight of definitions of the kind.
pub open spec fn weight(kind: Seq<char>) -> u16 {
    if kind == "function_declaration"@ || kind == "function_definition"@ || kind == "function_item"@ || kind == "method_definition"@ || kind == "method_declaration"@ || kind == "class_declaration"@ || kind == "class_definition"@ || kind == "struct_item"@ || kind == "interface_declaration"@ || kind == "trait_declaration"@ || kind == "trait_item"@ || kind == "enum_item"@ || kind == "enum_declaration"@ || kind == "type_item"@ || kind == "type_declaration"@ || kind == "decorated_definition"@ {
        100
    } else if kind == "impl_item"@ || kind == "object_declaration"@ {
        90
    } else if kind == "const_item"@ || kind == "const_declaration"@ || kind == "static_item"@ {
        80
    } else if kind == "mod_item"@ || kind == "namespace_definition"@ || kind == "property_declaration"@ {
        70
    } else if kind == "lexical_declaration"@ || kind == "variable_declaration"@ {
        40
    } else if kind == "export_statement"@ {
        30
    } else {
        50
    }
}

/// The weight of definitions of the kind; that of primary declarations is the
/// highest.
pub fn definition_weight(kind: &str) -> (r: u16)
    ensures
        r == weight(kind@),
{
    if same_text(kind, "function_declaration") || same_text(kind, "function_definition") || same_text(kind, "function_item") || same_text(kind, "method_definition") || same_text(kind, "method_declaration") || same_text(kind, "class_declaration") || same_text(kind, "class_definition") || same_text(kind, "struct_item") || same_text(kind, "interface_declaration") || same_text(kind, "trait_declaration") || same_text(kind, "trait_item") || same_text(kind, "enum_item") || same_text(kind, "enum_declaration") || same_text(kind, "type_item") || same_text(kind, "type_declaration") || same_text(kind, "decorated_definition") {
        100
    } else if same_text(kind, "impl_item") || same_text(kind, "object_declaration") {
        90
    } else if same_text(kind, "const_item") || same_text(kind, "const_declaration") || same_text(kind, "static_item") {
        80
    } else if same_text(kind, "mod_item") || same_text(kind, "namespace_definition") || same_text(kind, "property_declaration") {
        70
    } else if same_text(kind, "lexical_declaration") || same_text(kind, "variable_declaration") {
        40
    } else if same_text(kind, "export_statement") {
        30
    } else {
        50
    }
}

/// The text of a node up to the end of its first line.
pub fn node_text_simple(n: &NodeRecord, lines: &[&[char]]) -> (r: String)
    ensures
        r@ == first_line(n@, views(lines@)),
{
    string_of(first_line_of(n, lines))
}

/// The name in a field of a definition: that of a declarator is inside it. A field
/// without a text gives none.
pub open spec fn name_in_field(
    t: Seq<NodeView>,
    lines: Seq<Seq<char>>,
    i: int,
    field: Seq<char>,
) -> Option<Seq<char>> {
    match child_by_field(t, i, field) {
        None => None,
        Some(c) => if first_line(t[c], lines).len() == 0 {
            None
        } else if has(t[c].kind, "declarator"@) {
            match child_by_field(t, c, "name"@) {
                Some(n) => Some(first_line(t[n], lines)),
                None => Some(first_line(t[c], lines)),
            }
        } else {
            Some(first_line(t[c], lines))
        },
    }
}

/// The first of the nodes that is a definition.
pub open spec fn first_definition(t: Seq<NodeView>, kids: Seq<int>) -> Option<int>
    decreases kids.len(),
{
    if kids.len() == 0 {
        None
    } else if is_definition(t[kids[0]].kind) {
        Some(kids[0])
    } else {
        first_definition(t, kids.drop_first())
    }
}

/// The name that the definition at node `i` defines. What an export exports names
/// it.
pub open spec fn definition_name(t: Seq<NodeView>, lines: Seq<Seq<char>>, i: int) -> Option<Seq<char>>
    decreases t.len() - i,
{
    match name_in_field(t, lines, i, "name"@) {
        Some(n) => Some(n),
        None => match name_in_field(t, lines, i, "identifier"@) {
            Some(n) => Some(n),
            None => match name_in_field(t, lines, i, "declarator"@) {
                Some(n) => Some(n),
                None => if t[i].kind == "export_statement"@ {
                    match first_definition(t, children(t, i)) {
                        Some(d) => if i < d < t.len() {
                            definition_name(t, lines, d)
                        } else {
                            None
                        },
                        None => None,
                    }
                } else {
                    None
                },
            },
        },
    }
}

fn field_name(nodes: &[NodeRecord], i: usize, field: &str, lines: &[&[char]]) -> (r: Option<String>)
    requires
        i < nodes@.len(),
    ensures
        opt_text(r) == name_in_field(shape(nodes@), views(lines@), i as int, field@),
{
    let ghost t = shape(nodes@);
    match child_by_field_of(nodes, i, field) {
        None => None,
        Some(c) => {
            assert(t[c as int] == nodes@[c as int]@);
            let text = node_text_simple(&nodes[c], lines);
            if text.as_str().is_empty() {
                return None;
            }
            let kind = chars_of(nodes[c].kind.as_str());
            if has_text(kind.as_slice(), "declarator") {
                if let Some(n) = child_by_field_of(nodes, c, "name") {
                    assert(t[n as int] == nodes@[n as int]@);
                    return Some(node_text_simple(&nodes[n], lines));
                }
            }
            Some(text)
        },
    }
}

fn find_definition(nodes: &[NodeRecord], i: usize) -> (r: Option<usize>)
    requires
        i < nodes@.len(),
    ensures
        r matches Some(d) ==> i < d < nodes@.len() && first_definition(
            shape(nodes@),
            children(shape(nodes@), i as int),
        ) == Some(d as int),
        r is None ==> first_definition(shape(nodes@), children(shape(nodes@), i as int)) is None,
{
    let ghost t = shape(nodes@);
    let kids = children_of(nodes, i);
    let ghost c = ints(kids@);
    assert(c.skip(0) =~= c);
    let mut k: usize = 0;
    while k < kids.len()
        invariant
            k <= kids@.len(),
            t == shape(nodes@),
            c == ints(kids@),
            c == children(t, i as int),
            forall|k: int| 0 <= k < kids@.len() ==> i < #[trigger] kids@[k] < nodes@.len(),
            first_definition(t, c) == first_definition(t, c.skip(k as int)),
        decreases kids@.len() - k,
    {
        let d: usize = kids[k];
        assert(c.skip(k as int)[0] == d);
        assert(t[d as int] == nodes@[d as int]@);
        assert(c.skip(k as int).drop_first() =~= c.skip(k + 1));
        if is_definition_kind(nodes[d].kind.as_str()) {
            return Some(d);
        }
        k = k + 1;
    }
    None
}

/// The name that the definition at node `i` defines.
pub fn extract_definition_name(nodes: &[NodeRecord], i: usize, lines: &[&[char]]) -> (r: Option<String>)
    requires
        i < nodes@.len(),
    ensures
        opt_text(r) == definition_name(shape(nodes@), views(lines@), i as int),
    decreases nodes@.len() - i,
{
    assert(shape(nodes@)[i as int] == nodes@[i as int]@);
    if let Some(n) = field_name(nodes, i, "name", lines) {
        return Some(n);
    }
    if let Some(n) = field_name(nodes, i, "identifier", lines) {
        return Some(n);
    }
    if let Some(n) = field_name(nodes, i, "declarator", lines) {
        return Some(n);
    }
    if same_text(nodes[i].kind.as_str(), "export_statement") {
        if let Some(d) = find_definition(nodes, i) {
            return extract_definition_name(nodes, d, lines);
        }
    }
    None
}

/// The text of the child that fills a field.
pub open spec fn field_line(
    t: Seq<NodeView>,
    lines: Seq<Seq<char>>,
    i: int,
    field: Seq<char>,
) -> Option<Seq<char>> {
    match child_by_field(t, i, field) {
        Some(c) => Some(first_line(t[c], lines)),
        None => None,
    }
}

fn field_line_of(nodes: &[NodeRecord], i: usize, field: &str, lines: &[&[char]]) -> (r: Option<String>)
    requires
        i < nodes@.len(),
    ensures
        opt_text(r) == field_line(shape(nodes@), views(lines@), i as int, field@),
{
    match child_by_field_of(nodes, i, field) {
        Some(c) => {
            assert(shape(nodes@)[c as int] == nodes@[c as int]@);
            Some(node_text_simple(&nodes[c], lines))
        },
        None => None,
    }
}

/// The trait of an implementation; an inherent one has none.
pub fn extract_impl_trait(nodes: &[NodeRecord], i: usize, lines: &[&[char]]) -> (r: Option<String>)
    requires
        i < nodes@.len(),
    ensures
        opt_text(r) == field_line(shape(nodes@), views(lines@), i as int, "trait"@),
{
    field_line_of(nodes, i, "trait", lines)
}

/// The type of an implementation.
pub fn extract_impl_type(nodes: &[NodeRecord], i: usize, lines: &[&[char]]) -> (r: Option<String>)
    requires
        i < nodes@.len(),
    ensures
        opt_text(r) == field_line(shape(nodes@), views(lines@), i as int, "type"@),
{
    field_line_of(nodes, i, "type", lines)
}

/// The texts of the identifiers among the first `n` nodes, empty ones left out.
pub open spec fn identifiers(
    t: Seq<NodeView>,
    lines: Seq<Seq<char>>,
    kids: Seq<int>,
    n: int,
) -> Seq<Seq<char>>
    decreases n,
{
    if n <= 0 {
        Seq::empty()
    } else {
        let r = identifiers(t, lines, kids, n - 1);
        let k = t[kids[n - 1]];
        if has(k.kind, "identifier"@) && first_line(k, lines).len() > 0 {
            r.push(first_line(k, lines))
        } else {
            r
        }
    }
}

/// The node lists the interfaces that a class implements.
pub open spec fn is_interface_list(kind: Seq<char>) -> bool {
    kind == "implements_clause"@ || kind == "super_interfaces"@
}

/// The interfaces in those of the first `n` nodes that list them.
pub open spec fn interfaces(
    t: Seq<NodeView>,
    lines: Seq<Seq<char>>,
    kids: Seq<int>,
    n: int,
) -> Seq<Seq<char>>
    decreases n,
{
    if n <= 0 {
        Seq::empty()
    } else {
        let r = interfaces(t, lines, kids, n - 1);
        if is_interface_list(t[kids[n - 1]].kind) {
            let c = children(t, kids[n - 1]);
            r + identifiers(t, lines, c, c.len() as int)
        } else {
            r
        }
    }
}

/// The interfaces that a class implements.
pub fn extract_implemented_interfaces(nodes: &[NodeRecord], i: usize, lines: &[&[char]]) -> (r: Vec<
    String,
>)
    requires
        i < nodes@.len(),
    ensures
        strs(r@) == interfaces(
            shape(nodes@),
            views(lines@),
            children(shape(nodes@), i as int),
            children(shape(nodes@), i as int).len() as int,
        ),
{
    broadcast use lemma_strs_push;

    let ghost t = shape(nodes@);
    let ghost l = views(lines@);
    let kids = children_of(nodes, i);
    let ghost c = ints(kids@);
    let mut r: Vec<String> = Vec::new();
    let mut k: usize = 0;
    assert(strs(r@) =~= Seq::<Seq<char>>::empty());
    while k < kids.len()
        invariant
            k <= kids@.len(),
            t == shape(nodes@),
            l == views(lines@),
            c == ints(kids@),
            forall|k: int| 0 <= k < kids@.len() ==> #[trigger] kids@[k] < nodes@.len(),
            strs(r@) == interfaces(t, l, c, k as int),
        decreases kids@.len() - k,
    {
        let d: usize = kids[k];
        assert(c[k as int] == d);
        assert(t[d as int] == nodes@[d as int]@);
        let kind = nodes[d].kind.as_str();
        if same_text(kind, "implements_clause") || same_text(kind, "super_interfaces") {
            let inner = children_of(nodes, d);
            let ghost ci = ints(inner@);
            let ghost start = strs(r@);
            let mut j: usize = 0;
            assert(start + identifiers(t, l, ci, 0) =~= start);
            while j < inner.len()
                invariant
                    j <= inner@.len(),
                    t == shape(nodes@),
                    l == views(lines@),
                    ci == ints(inner@),
                    forall|k: int| 0 <= k < inner@.len() ==> #[trigger] inner@[k] < nodes@.len(),
                    strs(r@) == start + identifiers(t, l, ci, j as int),
                decreases inner@.len() - j,
            {
                let n = &nodes[inner[j]];
                assert(ci[j as int] == inner@[j as int]);
                assert(t[ci[j as int]] == n@);
                let k2 = chars_of(n.kind.as_str());
                if has_text(k2.as_slice(), "identifier") {
                    let text = node_text_simple(n, lines);
                    if !text.as_str().is_empty() {
                        let ghost before = identifiers(t, l, ci, j as int);
                        r.push(text);
                        assert((start + before).push(text@) =~= start + before.push(text@));
                    }
                }
                j = j + 1;
            }
        }
        k = k + 1;
    }
    r
}

// ---------------------------------------------------------------------------
// Definitions in Elixir
// ---------------------------------------------------------------------------

/// The word defines something in Elixir, where that is written as a call.
pub open spec fn elixir_definer(word: Seq<char>) -> bool {
    word == "def"@ || word == "defp"@ || word == "defmodule"@ || word == "defmacro"@ || word == "defmacrop"@ || word == "defguard"@ || word == "defguardp"@ || word == "defdelegate"@ || word == "defstruct"@ || word == "defexception"@ || word == "defprotocol"@ || word == "defimpl"@
}

fn is_elixir_definer(word: &str) -> (r: bool)
    ensures
        r == elixir_definer(word@),
{
    same_text(word, "def") || same_text(word, "defp") || same_text(word, "defmodule") || same_text(word, "defmacro") || same_text(word, "defmacrop") || same_text(word, "defguard") || same_text(word, "defguardp") || same_text(word, "defdelegate") || same_text(word, "defstruct") || same_text(word, "defexception") || same_text(word, "defprotocol") || same_text(word, "defimpl")
}

/// Node `i` defines something in Elixir: it is a call of a word that does.
pub open spec fn elixir_definition(t: Seq<NodeView>, lines: Seq<Seq<char>>, i: int) -> bool {
    t[i].kind == "call"@ && (match child_by_field(t, i, "target"@) {
        Some(c) => t[c].kind == "identifier"@ && elixir_definer(first_line(t[c], lines)),
        None => false,
    })
}

/// Whether node `i` defines something in Elixir.
pub fn is_elixir_definition(nodes: &[NodeRecord], i: usize, lines: &[&[char]]) -> (r: bool)
    requires
        i < nodes@.len(),
    ensures
        r == elixir_definition(shape(nodes@), views(lines@), i as int),
{
    let ghost t = shape(nodes@);
    assert(t[i as int] == nodes@[i as int]@);
    if !same_text(nodes[i].kind.as_str(), "call") {
        return false;
    }
    match child_by_field_of(nodes, i, "target") {
        Some(c) => {
            assert(t[c as int] == nodes@[c as int]@);
            same_text(nodes[c].kind.as_str(), "identifier") && is_elixir_definer(
                node_text_simple(&nodes[c], lines).as_str(),
            )
        },
        None => false,
    }
}

/// The node can name what is defined.
pub open spec fn names_definition(kind: Seq<char>) -> bool {
    kind == "identifier"@ || kind == "alias"@ || kind == "call"@ || kind == "binary_operator"@
}

/// The first of the nodes that holds arguments.
pub open spec fn first_arguments(t: Seq<NodeView>, kids: Seq<int>) -> Option<int>
    decreases kids.len(),
{
    if kids.len() == 0 {
        None
    } else if t[kids[0]].kind == "arguments"@ {
        Some(kids[0])
    } else {
        first_arguments(t, kids.drop_first())
    }
}

/// The first of the nodes that can name what is defined.
pub open spec fn first_name(t: Seq<NodeView>, kids: Seq<int>) -> Option<int>
    decreases kids.len(),
{
    if kids.len() == 0 {
        None
    } else if names_definition(t[kids[0]].kind) {
        Some(kids[0])
    } else {
        first_name(t, kids.drop_first())
    }
}

/// The name in the head of a definition: a word, or the target of what looks like a call.
pub open spec fn head_name(t: Seq<NodeView>, lines: Seq<Seq<char>>, h: int) -> Option<Seq<char>> {
    if t[h].kind == "identifier"@ || t[h].kind == "alias"@ {
        Some(first_line(t[h], lines))
    } else if t[h].kind == "call"@ {
        field_line(t, lines, h, "target"@)
    } else {
        None
    }
}

/// The name that the definition at node `i` defines in Elixir: the one in the head, which
/// is the first argument. Before a guard the head is what stands on the left.
pub open spec fn elixir_name(t: Seq<NodeView>, lines: Seq<Seq<char>>, i: int) -> Option<Seq<char>> {
    match first_arguments(t, children(t, i)) {
        None => None,
        Some(a) => match first_name(t, children(t, a)) {
            None => None,
            Some(h) => if t[h].kind == "binary_operator"@ {
                match child_by_field(t, h, "left"@) {
                    Some(l) => head_name(t, lines, l),
                    None => None,
                }
            } else {
                head_name(t, lines, h)
            },
        },
    }
}

fn find_arguments(nodes: &[NodeRecord], i: usize) -> (r: Option<usize>)
    requires
        i < nodes@.len(),
    ensures
        r matches Some(a) ==> a < nodes@.len() && first_arguments(
            shape(nodes@),
            children(shape(nodes@), i as int),
        ) == Some(a as int),
        r is None ==> first_arguments(shape(nodes@), children(shape(nodes@), i as int)) is None,
{
    let ghost t = shape(nodes@);
    let kids = children_of(nodes, i);
    let ghost c = ints(kids@);
    assert(c.skip(0) =~= c);
    let mut k: usize = 0;
    while k < kids.len()
        invariant
            k <= kids@.len(),
            t == shape(nodes@),
            c == ints(kids@),
            c == children(t, i as int),
            forall|k: int| 0 <= k < kids@.len() ==> #[trigger] kids@[k] < nodes@.len(),
            first_arguments(t, c) == first_arguments(t, c.skip(k as int)),
        decreases kids@.len() - k,
    {
        let d: usize = kids[k];
        assert(c.skip(k as int)[0] == d);
        assert(t[d as int] == nodes@[d as int]@);
        assert(c.skip(k as int).drop_first() =~= c.skip(k + 1));
        if same_text(nodes[d].kind.as_str(), "arguments") {
            return Some(d);
        }
        k = k + 1;
    }
    None
}

fn find_name(nodes: &[NodeRecord], i: usize) -> (r: Option<usize>)
    requires
        i < nodes@.len(),
    ensures
        r matches Some(h) ==> h < nodes@.len() && first_name(
            shape(nodes@),
            children(shape(nodes@), i as int),
        ) == Some(h as int),
        r is None ==> first_name(shape(nodes@), children(shape(nodes@), i as int)) is None,
{
    let ghost t = shape(nodes@);
    let kids = children_of(nodes, i);
    let ghost c = ints(kids@);
    assert(c.skip(0) =~= c);
    let mut k: usize = 0;
    while k < kids.len()
        invariant
            k <= kids@.len(),
            t == shape(nodes@),
            c == ints(kids@),
            c == children(t, i as int),
            forall|k: int| 0 <= k < kids@.len() ==> #[trigger] kids@[k] < nodes@.len(),
            first_name(t, c) == first_name(t, c.skip(k as int)),
        decreases kids@.len() - k,
    {
        let d: usize = kids[k];
        assert(c.skip(k as int)[0] == d);
        assert(t[d as int] == nodes@[d as int]@);
        assert(c.skip(k as int).drop_first() =~= c.skip(k + 1));
        let kind = nodes[d].kind.as_str();
        if same_text(kind, "identifier") || same_text(kind, "alias") || same_text(kind, "call")
            || same_text(kind, "binary_operator") {
            return Some(d);
        }
        k = k + 1;
    }
    None
}

fn name_in_head(nodes: &[NodeRecord], h: usize, lines: &[&[char]]) -> (r: Option<String>)
    requires
        h < nodes@.len(),
    ensures
        opt_text(r) == head_name(shape(nodes@), views(lines@), h as int),
{
    assert(shape(nodes@)[h as int] == nodes@[h as int]@);
    let kind = nodes[h].kind.as_str();
    if same_text(kind, "identifier") || same_text(kind, "alias") {
        Some(node_text_simple(&nodes[h], lines))
    } else if same_text(kind, "call") {
        field_line_of(nodes, h, "target", lines)
    } else {
        None
    }
}

/// The name that the definition at node `i` defines in Elixir.
pub fn extract_elixir_definition_name(nodes: &[NodeRecord], i: usize, lines: &[&[char]]) -> (r: Option<
    String,
>)
    requires
        i < nodes@.len(),
    ensures
        opt_text(r) == elixir_name(shape(nodes@), views(lines@), i as int),
{
    let ghost t = shape(nodes@);
    let a: usize = match find_arguments(nodes, i) {
        Some(a) => a,
        None => {
            return None;
        },
    };
    let h: usize = match find_name(nodes, a) {
        Some(h) => h,
        None => {
            return None;
        },
    };
    assert(t[h as int] == nodes@[h as int]@);
    if same_text(nodes[h].kind.as_str(), "binary_operator") {
        match child_by_field_of(nodes, h, "left") {
            Some(l) => name_in_head(nodes, l, lines),
            None => None,
        }
    } else {
        name_in_head(nodes, h, lines)
    }
}

// ---------------------------------------------------------------------------
// Enclosing definitions
// ---------------------------------------------------------------------------

/// The name of what node `i` defines, where it defines something.
pub open spec fn defined_name(t: Seq<NodeView>, lines: Seq<Seq<char>>, i: int, lang: Lang) -> Option<
    Seq<char>,
> {
    if is_definition(t[i].kind) {
        definition_name(t, lines, i)
    } else if lang == Lang::Elixir && elixir_definition(t, lines, i) {
        elixir_name(t, lines, i)
    } else {
        None
    }
}

fn name_defined(nodes: &[NodeRecord], i: usize, lines: &[&[char]], lang: Lang) -> (r: Option<String>)
    requires
        i < nodes@.len(),
    ensures
        opt_text(r) == defined_name(shape(nodes@), views(lines@), i as int, lang),
{
    assert(shape(nodes@)[i as int] == nodes@[i as int]@);
    if is_definition_kind(nodes[i].kind.as_str()) {
        extract_definition_name(nodes, i, lines)
    } else if lang == Lang::Elixir && is_elixir_definition(nodes, i, lines) {
        extract_elixir_definition_name(nodes, i, lines)
    } else {
        None
    }
}

/// The name by which node `i` qualifies what is in it: a type, or in Elixir whatever
/// defines something.
pub open spec fn qualifying_name(t: Seq<NodeView>, lines: Seq<Seq<char>>, i: int, lang: Lang) -> Option<
    Seq<char>,
> {
    if is_type(t[i].kind) && definition_name(t, lines, i) is Some {
        definition_name(t, lines, i)
    } else if lang == Lang::Elixir && elixir_definition(t, lines, i) {
        elixir_name(t, lines, i)
    } else {
        None
    }
}

fn name_qualifying(nodes: &[NodeRecord], i: usize, lines: &[&[char]], lang: Lang) -> (r: Option<String>)
    requires
        i < nodes@.len(),
    ensures
        opt_text(r) == qualifying_name(shape(nodes@), views(lines@), i as int, lang),
{
    assert(shape(nodes@)[i as int] == nodes@[i as int]@);
    if is_type_kind(nodes[i].kind.as_str()) {
        if let Some(n) = extract_definition_name(nodes, i, lines) {
            return Some(n);
        }
    }
    if lang == Lang::Elixir && is_elixir_definition(nodes, i, lines) {
        extract_elixir_definition_name(nodes, i, lines)
    } else {
        None
    }
}

/// The name of the closest type or module from node `i` upwards.
pub open spec fn qualifier(
    t: Seq<NodeView>,
    lines: Seq<Seq<char>>,
    i: Option<int>,
    lang: Lang,
) -> Option<Seq<char>>
    decreases
            match i {
                Some(p) => p + 1,
                None => 0,
            },
{
    match i {
        None => None,
        Some(p) => match qualifying_name(t, lines, p, lang) {
            Some(n) => Some(n),
            None => match parent(t, p) {
                Some(q) => if 0 <= q < p {
                    qualifier(t, lines, Some(q), lang)
                } else {
                    None
                },
                None => None,
            },
        },
    }
}

/// A function with its lines.
pub struct EnclosingView {
    pub name: Seq<char>,
    pub range: Option<(u32, u32)>,
}

/// The closest definition from node `i` upwards that has a name, qualified by the
/// type or module that it is in, and its lines.
pub open spec fn enclosing(t: Seq<NodeView>, lines: Seq<Seq<char>>, i: int, lang: Lang) -> EnclosingView
    decreases i,
{
    match defined_name(t, lines, i, lang) {
        Some(name) => EnclosingView {
            name: match qualifier(t, lines, parent(t, i), lang) {
                Some(q) => q + "."@ + name,
                None => name,
            },
            range: Some((line_number(t[i].start_row), line_number(t[i].end_row))),
        },
        None => match parent(t, i) {
            Some(p) => if 0 <= p < i {
                enclosing(t, lines, p, lang)
            } else {
                EnclosingView { name: "<top-level>"@, range: None }
            },
            None => EnclosingView { name: "<top-level>"@, range: None },
        },
    }
}

fn find_qualifier(nodes: &[NodeRecord], i: Option<usize>, lines: &[&[char]], lang: Lang) -> (r: Option<
    String,
>)
    requires
        i matches Some(p) ==> p < nodes@.len(),
    ensures
        opt_text(r) == qualifier(
            shape(nodes@),
            views(lines@),
            match i {
                Some(p) => Some(p as int),
                None => None,
            },
            lang,
        ),
    decreases
            match i {
                Some(p) => p + 1,
                None => 0,
            },
{
    match i {
        None => None,
        Some(p) => {
            if let Some(n) = name_qualifying(nodes, p, lines, lang) {
                return Some(n);
            }
            match parent_of(nodes, p) {
                Some(q) => find_qualifier(nodes, Some(q), lines, lang),
                None => None,
            }
        },
    }
}

/// The closest named definition from node `i` upwards, and its lines.
pub fn find_enclosing_function(nodes: &[NodeRecord], i: usize, lines: &[&[char]], lang: Lang) -> (r: (
    String,
    Option<(u32, u32)>,
))
    requires
        i < nodes@.len(),
    ensures
        r.0@ == enclosing(shape(nodes@), views(lines@), i as int, lang).name,
        r.1 == enclosing(shape(nodes@), views(lines@), i as int, lang).range,
    decreases i,
{
    assert(shape(nodes@)[i as int] == nodes@[i as int]@);
    if let Some(name) = name_defined(nodes, i, lines, lang) {
        let range = Some((line_of_row(nodes[i].start_row), line_of_row(nodes[i].end_row)));
        let full = match find_qualifier(nodes, parent_of(nodes, i), lines, lang) {
            Some(q) => {
                let mut s = q;
                vstd::string::StringExecFns::append(&mut s, ".");
                vstd::string::StringExecFns::append(&mut s, name.as_str());
                s
            },
            None => name,
        };
        return (full, range);
    }
    match parent_of(nodes, i) {
        Some(p) => find_enclosing_function(nodes, p, lines, lang),
        None => ("<top-level>".to_owned(), None),
    }
}

/// What encloses a node is the closest definition with a name from it upwards: the node
/// itself if it is one, else what encloses its parent, and at the top nothing. The name
/// ends in that of the definition, and the lines are those of the definition.
pub proof fn law_enclosing_is_closest(t: Seq<NodeView>, lines: Seq<Seq<char>>, i: int, lang: Lang)
    requires
        0 <= i < t.len(),
        0 <= t[i].start_row < u32::MAX,
        0 <= t[i].end_row < u32::MAX,
    ensures
        defined_name(t, lines, i, lang) matches Some(n) ==> n.is_suffix_of(
            enclosing(t, lines, i, lang).name,
        ) && enclosing(t, lines, i, lang).range == Some(
            ((t[i].start_row + 1) as u32, (t[i].end_row + 1) as u32),
        ),
        defined_name(t, lines, i, lang) is None && parent(t, i) is Some ==> enclosing(
            t,
            lines,
            i,
            lang,
        ) == enclosing(t, lines, parent(t, i)->0, lang),
        defined_name(t, lines, i, lang) is None && parent(t, i) is None ==> enclosing(
            t,
            lines,
            i,
            lang,
        ).name == "<top-level>"@ && enclosing(t, lines, i, lang).range is None,
{
    crate::syntax::law_parent_is_closest_above(t, i);
    if let Some(n) = defined_name(t, lines, i, lang) {
        let full = enclosing(t, lines, i, lang).name;
        assert(n =~= full.subrange(full.len() - n.len(), full.len() as int));
    }
}

/// A method is named after the closest type or module around it, and a function outside
/// of any has its own name.
pub proof fn law_names_are_qualified(t: Seq<NodeView>, lines: Seq<Seq<char>>, i: int, lang: Lang)
    requires
        0 <= i < t.len(),
        defined_name(t, lines, i, lang) is Some,
    ensures
        parent(t, i) is None ==> enclosing(t, lines, i, lang).name == defined_name(
            t,
            lines,
            i,
            lang,
        )->0,
        parent(t, i) is Some && is_type(t[parent(t, i)->0].kind) && definition_name(
            t,
            lines,
            parent(t, i)->0,
        ) is Some ==> enclosing(t, lines, i, lang).name == definition_name(
            t,
            lines,
            parent(t, i)->0,
        )->0 + "."@ + defined_name(t, lines, i, lang)->0,
        parent(t, i) is Some && qualifying_name(t, lines, parent(t, i)->0, lang) is None && parent(
            t,
            parent(t, i)->0,
        ) is Some ==> qualifier(t, lines, parent(t, i), lang) == qualifier(
            t,
            lines,
            parent(t, parent(t, i)->0),
            lang,
        ),
{
    crate::syntax::law_parent_is_closest_above(t, i);
    if parent(t, i) is Some {
        crate::syntax::law_parent_is_closest_above(t, parent(t, i)->0);
    }
}

/// Every identifier among the nodes is listed, where it has a text, and nothing else.
pub proof fn law_identifiers_are_listed(
    t: Seq<NodeView>,
    lines: Seq<Seq<char>>,
    kids: Seq<int>,
    n: int,
    s: Seq<char>,
)
    requires
        0 <= n <= kids.len(),
    ensures
        identifiers(t, lines, kids, n).contains(s) <==> s.len() > 0 && exists|i: int|
            0 <= i < n && has(t[#[trigger] kids[i]].kind, "identifier"@) && first_line(
                t[kids[i]],
                lines,
            ) == s,
    decreases n,
{
    if n > 0 {
        law_identifiers_are_listed(t, lines, kids, n - 1, s);
        let q = identifiers(t, lines, kids, n - 1);
        let r = identifiers(t, lines, kids, n);
        if q.contains(s) {
            let k = choose|k: int| 0 <= k < q.len() && q[k] == s;
            assert(r[k] == s);
        }
        if r.contains(s) {
            let k = choose|k: int| 0 <= k < r.len() && r[k] == s;
            if k < q.len() {
                assert(q[k] == s);
            } else {
                assert(first_line(t[kids[n - 1]], lines) == s);
            }
        }
        if s.len() > 0 && exists|i: int|
            0 <= i < n && has(t[#[trigger] kids[i]].kind, "identifier"@) && first_line(
                t[kids[i]],
                lines,
            ) == s {
            let i = choose|i: int|
                0 <= i < n && has(t[#[trigger] kids[i]].kind, "identifier"@) && first_line(
                    t[kids[i]],
                    lines,
                ) == s;
            if i == n - 1 {
                assert(r[q.len() as int] == s);
            }
        }
    }
}

/// Every interface that a class names as implemented is listed.
pub proof fn law_implemented_interfaces_are_listed(
    t: Seq<NodeView>,
    lines: Seq<Seq<char>>,
    kids: Seq<int>,
    n: int,
    i: int,
    k: int,
)
    requires
        0 <= i < n <= kids.len(),
        t[kids[i]].kind == "implements_clause"@ || t[kids[i]].kind == "super_interfaces"@,
        0 <= k < children(t, kids[i]).len(),
        has(t[children(t, kids[i])[k]].kind, "identifier"@),
        first_line(t[children(t, kids[i])[k]], lines).len() > 0,
    ensures
        interfaces(t, lines, kids, n).contains(
            first_line(t[children(t, kids[i])[k]], lines),
        ),
    decreases n,
{
    let s = first_line(t[children(t, kids[i])[k]], lines);
    let q = interfaces(t, lines, kids, n - 1);
    let r = interfaces(t, lines, kids, n);
    if i < n - 1 {
        law_implemented_interfaces_are_listed(t, lines, kids, n - 1, i, k);
        let x = choose|x: int| 0 <= x < q.len() && q[x] == s;
        assert(r[x] == s);
    } else {
        let c = children(t, kids[i]);
        let own = identifiers(t, lines, c, c.len() as int);
        law_identifiers_are_listed(t, lines, c, c.len() as int, s);
        assert(has(t[c[k]].kind, "identifier"@));
        let x = choose|x: int| 0 <= x < own.len() && own[x] == s;
        assert(r[q.len() + x] == s);
    }
}

/// What an export exports is the first definition among its children.
pub proof fn law_first_definition_is_exported(t: Seq<NodeView>, kids: Seq<int>, k: int)
    requires
        0 <= k < kids.len(),
        is_definition(t[kids[k]].kind),
        forall|j: int| 0 <= j < k ==> !is_definition(t[#[trigger] kids[j]].kind),
    ensures
        first_definition(t, kids) == Some(kids[k]),
    decreases k,
{
    if k > 0 {
        assert(!is_definition(t[kids[0]].kind));
        let r = kids.drop_first();
        assert forall|j: int| 0 <= j < k - 1 implies !is_definition(t[#[trigger] r[j]].kind) by {
            assert(r[j] == kids[j + 1]);
        }
        assert(r[k - 1] == kids[k]);
        law_first_definition_is_exported(t, r, k - 1);
    }
}

} // verus!
