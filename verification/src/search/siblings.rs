//! The fields and methods of the same type that a definition refers to.
use vstd::prelude::*;

use crate::sort::{lemma_sort_map, sort_by, stable_sort};
use crate::syntax::{captures_view, matches_view, CaptureRecord, CaptureView};
use crate::text::{opt_text, same_text, strs, text_le, text_ordered};
use crate::types::{entries_view, EntryView, Lang, OutlineEntry, OutlineKind};

use super::bfs_format::{sorted_names, sorted_names_of};
use super::callees::{capture_texts, find_matches, matches_in, push_capture_texts};

verus! {

/// A field or method of the same type.
#[derive(Debug)]
pub struct ResolvedSibling {
    pub name: String,
    pub kind: OutlineKind,
    pub signature: String,
    pub start_line: u32,
    pub end_line: u32,
}

/// What a sibling says.
pub struct SiblingView {
    pub name: Seq<char>,
    pub kind: OutlineKind,
    pub signature: Seq<char>,
    pub start_line: u32,
    pub end_line: u32,
}

impl View for ResolvedSibling {
    type V = SiblingView;

    open spec fn view(&self) -> SiblingView {
        SiblingView {
            name: self.name@,
            kind: self.kind,
            signature: self.signature@,
            start_line: self.start_line,
            end_line: self.end_line,
        }
    }
}

/// What the siblings of a list say.
pub open spec fn siblings_view(v: Seq<ResolvedSibling>) -> Seq<SiblingView> {
    v.map_values(|s: ResolvedSibling| s@)
}

/// The largest number of siblings that are shown.
pub const MAX_SIBLINGS: usize = 6;

/// The query for references to fields and methods of the same value.
pub open spec fn sibling_query(lang: Lang) -> Option<Seq<char>> {
    match lang {
        Lang::Rust => Some(
            "(field_expression value: (self) field: (field_identifier) @ref)\n(call_expression function: (field_expression value: (self) field: (field_identifier) @ref))\n"@,
        ),
        Lang::TypeScript => Some(
            "(member_expression object: (this) property: (property_identifier) @ref)\n"@,
        ),
        Lang::Tsx => Some(
            "(member_expression object: (this) property: (property_identifier) @ref)\n"@,
        ),
        Lang::JavaScript => Some(
            "(member_expression object: (this) property: (property_identifier) @ref)\n"@,
        ),
        Lang::Python => Some(
            "(attribute object: (identifier) @obj attribute: (identifier) @ref)\n"@,
        ),
        Lang::Go => Some(
            "(selector_expression operand: (identifier) @recv field: (field_identifier) @ref)\n"@,
        ),
        Lang::Java => Some(
            "(field_access object: (this) field: (identifier) @ref)\n(method_invocation object: (this) name: (identifier) @ref)\n"@,
        ),
        Lang::Scala => Some(
            "(field_expression (identifier) @obj (identifier) @ref)\n(call_expression function: (field_expression (identifier) @obj (identifier) @ref))\n"@,
        ),
        Lang::C => None,
        Lang::Cpp => None,
        Lang::Ruby => None,
        Lang::Php => None,
        Lang::Swift => Some(
            "(navigation_expression target: (self_expression) suffix: (navigation_suffix suffix: (simple_identifier) @ref))\n"@,
        ),
        Lang::Kotlin => None,
        Lang::CSharp => Some(
            "(member_access_expression expression: (this_expression) name: (identifier) @ref)\n(invocation_expression function: (member_access_expression expression: (this_expression) name: (identifier) @ref))\n"@,
        ),
        Lang::Elixir => None,
        Lang::Dockerfile => None,
        Lang::Make => None,
    }
}

/// The query for references to fields and methods of the same value.
pub fn sibling_query_str(lang: Lang) -> (r: Option<&'static str>)
    ensures
        r matches Some(q) ==> sibling_query(lang) == Some(q@),
        r is None ==> sibling_query(lang) is None,
{
    match lang {
        Lang::Rust => Some(
            "(field_expression value: (self) field: (field_identifier) @ref)\n(call_expression function: (field_expression value: (self) field: (field_identifier) @ref))\n",
        ),
        Lang::TypeScript => Some(
            "(member_expression object: (this) property: (property_identifier) @ref)\n",
        ),
        Lang::Tsx => Some(
            "(member_expression object: (this) property: (property_identifier) @ref)\n",
        ),
        Lang::JavaScript => Some(
            "(member_expression object: (this) property: (property_identifier) @ref)\n",
        ),
        Lang::Python => Some(
            "(attribute object: (identifier) @obj attribute: (identifier) @ref)\n",
        ),
        Lang::Go => Some(
            "(selector_expression operand: (identifier) @recv field: (field_identifier) @ref)\n",
        ),
        Lang::Java => Some(
            "(field_access object: (this) field: (identifier) @ref)\n(method_invocation object: (this) name: (identifier) @ref)\n",
        ),
        Lang::Scala => Some(
            "(field_expression (identifier) @obj (identifier) @ref)\n(call_expression function: (field_expression (identifier) @obj (identifier) @ref))\n",
        ),
        Lang::C => None,
        Lang::Cpp => None,
        Lang::Ruby => None,
        Lang::Php => None,
        Lang::Swift => Some(
            "(navigation_expression target: (self_expression) suffix: (navigation_suffix suffix: (simple_identifier) @ref))\n",
        ),
        Lang::Kotlin => None,
        Lang::CSharp => Some(
            "(member_access_expression expression: (this_expression) name: (identifier) @ref)\n(invocation_expression function: (member_access_expression expression: (this_expression) name: (identifier) @ref))\n",
        ),
        Lang::Elixir => None,
        Lang::Dockerfile => None,
        Lang::Make => None,
    }
}

/// One of the captures has the name and the text.
pub open spec fn captures(m: Seq<CaptureView>, name: Seq<char>, text: Seq<char>) -> bool {
    exists|i: int|
        0 <= i < m.len() && (#[trigger] m[i]).name == name && m[i].text == Some(text)
}

fn has_capture(m: &Vec<CaptureRecord>, name: &str, text: &str) -> (r: bool)
    ensures
        r == captures(captures_view(m@), name@, text@),
{
    let ghost c = captures_view(m@);
    let mut i: usize = 0;
    while i < m.len()
        invariant
            i <= m@.len(),
            c == captures_view(m@),
            forall|j: int|
                0 <= j < i ==> !((#[trigger] c[j]).name == name@ && c[j].text == Some(text@)),
        decreases m@.len() - i,
    {
        assert(c[i as int] == m@[i as int]@);
        if same_text(m[i].name.as_str(), name) {
            if let Some(t) = &m[i].text {
                if same_text(t.as_str(), text) {
                    return true;
                }
            }
        }
        i = i + 1;
    }
    false
}

/// The query for the receiver of a Go method.
pub open spec fn receiver_query() -> Seq<char> {
    "(method_declaration receiver: (parameter_list (parameter_declaration name: (identifier) @recv)))"@
}

/// The text of the first capture from `i` on with the name.
pub open spec fn first_capture(m: Seq<CaptureView>, name: Seq<char>, i: int) -> Option<Seq<char>>
    decreases m.len() - i,
{
    if i < 0 || i >= m.len() {
        None
    } else if m[i].name == name {
        m[i].text
    } else {
        first_capture(m, name, i + 1)
    }
}

/// The name of the receiver of the first method of a Go file.
pub open spec fn go_receiver(content: Seq<char>) -> Option<Seq<char>> {
    let ms = matches_in(content, Lang::Go, receiver_query());
    if ms.len() > 0 {
        first_capture(ms[0], "recv"@, 0)
    } else {
        None
    }
}

/// The name of the receiver of the first method of a Go file.
pub fn extract_go_receiver_name(content: &str) -> (r: Option<String>)
    ensures
        opt_text(r) == go_receiver(content@),
{
    let ms = find_matches(
        content,
        Lang::Go,
        "(method_declaration receiver: (parameter_list (parameter_declaration name: (identifier) @recv)))",
    );
    let ghost v = matches_view(ms@);
    if ms.len() == 0 {
        return None;
    }
    let m = &ms[0];
    assert(v[0] == captures_view(m@));
    let mut i: usize = 0;
    while i < m.len()
        invariant
            i <= m@.len(),
            first_capture(captures_view(m@), "recv"@, 0) == first_capture(
                captures_view(m@),
                "recv"@,
                i as int,
            ),
            go_receiver(content@) == first_capture(captures_view(m@), "recv"@, 0),
        decreases m@.len() - i,
    {
        assert(captures_view(m@)[i as int] == m@[i as int]@);
        if same_text(m[i].name.as_str(), "recv") {
            return crate::text::clone_opt(&m[i].text);
        }
        i = i + 1;
    }
    None
}

/// The match refers to the same value: `self` in Python, `this` in Scala, the
/// receiver in Go. Elsewhere the query sees to it.
pub open spec fn refers_to_self(
    m: Seq<CaptureView>,
    lang: Lang,
    receiver: Option<Seq<char>>,
) -> bool {
    match lang {
        Lang::Python => captures(m, "obj"@, "self"@),
        Lang::Scala => captures(m, "obj"@, "this"@),
        Lang::Go => match receiver {
            Some(r) => captures(m, "recv"@, r),
            None => false,
        },
        _ => true,
    }
}

/// The references in those of the first `n` matches that are to the same value.
pub open spec fn self_references(
    ms: Seq<Seq<CaptureView>>,
    lang: Lang,
    receiver: Option<Seq<char>>,
    range: (u32, u32),
    n: int,
) -> Seq<Seq<char>>
    decreases n,
{
    if n <= 0 {
        Seq::empty()
    } else {
        let r = self_references(ms, lang, receiver, range, n - 1);
        if refers_to_self(ms[n - 1], lang, receiver) {
            r + capture_texts(ms[n - 1], "ref"@, Some(range), ms[n - 1].len() as int)
        } else {
            r
        }
    }
}

/// The names of the fields and methods of the same value that the lines refer to,
/// in order and each once.
pub open spec fn sibling_names(content: Seq<char>, lang: Lang, range: (u32, u32)) -> Seq<Seq<char>> {
    match sibling_query(lang) {
        None => Seq::empty(),
        Some(q) => {
            let ms = matches_in(content, lang, q);
            let receiver = if lang == Lang::Go {
                go_receiver(content)
            } else {
                None
            };
            sorted_names(self_references(ms, lang, receiver, range, ms.len() as int))
        },
    }
}

fn match_refers_to_self(m: &Vec<CaptureRecord>, lang: Lang, receiver: &Option<String>) -> (r: bool)
    ensures
        r == refers_to_self(captures_view(m@), lang, opt_text(*receiver)),
{
    match lang {
        Lang::Python => has_capture(m, "obj", "self"),
        Lang::Scala => has_capture(m, "obj", "this"),
        Lang::Go => match receiver {
            Some(r) => has_capture(m, "recv", r.as_str()),
            None => false,
        },
        _ => true,
    }
}

/// The names of the fields and methods of the same value that the lines refer to.
pub fn extract_sibling_references(content: &str, lang: Lang, def_range: (u32, u32)) -> (r: Vec<String>)
    ensures
        strs(r@) == sibling_names(content@, lang, def_range),
{
    let mut names: Vec<String> = Vec::new();
    assert(strs(names@) =~= Seq::<Seq<char>>::empty());
    let query = match sibling_query_str(lang) {
        Some(q) => q,
        None => {
            return names;
        },
    };
    let receiver = if lang == Lang::Go {
        extract_go_receiver_name(content)
    } else {
        None
    };
    let ghost rv = opt_text(receiver);
    let matches = find_matches(content, lang, query);
    let ghost ms = matches_view(matches@);
    let mut i: usize = 0;
    while i < matches.len()
        invariant
            i <= matches@.len(),
            ms == matches_view(matches@),
            rv == opt_text(receiver),
            strs(names@) == self_references(ms, lang, rv, def_range, i as int),
        decreases matches@.len() - i,
    {
        assert(ms[i as int] == captures_view(matches@[i as int]@));
        if match_refers_to_self(&matches[i], lang, &receiver) {
            push_capture_texts(&mut names, &matches[i], "ref", Some(def_range));
        }
        i = i + 1;
    }
    sorted_names_of(&names)
}

// ---------------------------------------------------------------------------
// Definitions
// ---------------------------------------------------------------------------

/// The first entry from `i` on with the name.
pub open spec fn named_entry(entries: Seq<EntryView>, name: Seq<char>, i: int) -> Option<EntryView>
    decreases entries.len() - i,
{
    if i < 0 || i >= entries.len() {
        None
    } else if entries[i].name == name {
        Some(entries[i])
    } else {
        named_entry(entries, name, i + 1)
    }
}

/// The sibling that an entry is; without a signature its name stands for one.
pub open spec fn sibling_of(e: EntryView) -> SiblingView {
    SiblingView {
        name: e.name,
        kind: e.kind,
        signature: match e.signature {
            Some(s) => s,
            None => e.name,
        },
        start_line: e.start_line,
        end_line: e.end_line,
    }
}

/// The siblings that the first `n` names resolve to.
pub open spec fn found_siblings(
    names: Seq<Seq<char>>,
    entries: Seq<EntryView>,
    n: int,
) -> Seq<SiblingView>
    decreases n,
{
    if n <= 0 {
        Seq::empty()
    } else {
        let r = found_siblings(names, entries, n - 1);
        match named_entry(entries, names[n - 1], 0) {
            Some(e) => r.push(sibling_of(e)),
            None => r,
        }
    }
}

/// Functions come first, then by name.
pub open spec fn sibling_order() -> spec_fn(SiblingView, SiblingView) -> bool {
    |a: SiblingView, b: SiblingView|
        {
            let x = a.kind == OutlineKind::Function;
            let y = b.kind == OutlineKind::Function;
            if x != y {
                x
            } else {
                text_le(a.name, b.name)
            }
        }
}

/// The siblings that the names resolve to, functions first, as many as are shown.
pub open spec fn siblings(names: Seq<Seq<char>>, entries: Seq<EntryView>) -> Seq<SiblingView> {
    let s = stable_sort(found_siblings(names, entries, names.len() as int), sibling_order());
    if s.len() > MAX_SIBLINGS {
        s.take(MAX_SIBLINGS as int)
    } else {
        s
    }
}

spec fn sibling_le() -> spec_fn(ResolvedSibling, ResolvedSibling) -> bool {
    |a: ResolvedSibling, b: ResolvedSibling| sibling_order()(a@, b@)
}

fn siblings_ordered(a: &ResolvedSibling, b: &ResolvedSibling) -> (r: bool)
    ensures
        r == sibling_le()(*a, *b),
{
    let x = a.kind == OutlineKind::Function;
    let y = b.kind == OutlineKind::Function;
    if x != y {
        x
    } else {
        text_ordered(a.name.as_str(), b.name.as_str())
    }
}

/// The siblings that the names resolve to.
pub fn resolve_siblings(sibling_names: &[String], parent_children: &[OutlineEntry]) -> (r: Vec<
    ResolvedSibling,
>)
    ensures
        siblings_view(r@) == siblings(strs(sibling_names@), entries_view(parent_children@)),
{
    let ghost names = strs(sibling_names@);
    let ghost es = entries_view(parent_children@);
    let mut r: Vec<ResolvedSibling> = Vec::new();
    let mut i: usize = 0;
    assert(siblings_view(r@) =~= Seq::<SiblingView>::empty());
    while i < sibling_names.len()
        invariant
            i <= sibling_names@.len(),
            names == strs(sibling_names@),
            es == entries_view(parent_children@),
            siblings_view(r@) == found_siblings(names, es, i as int),
        decreases sibling_names@.len() - i,
    {
        let name = &sibling_names[i];
        assert(names[i as int] == name@);
        let ghost before = r@;
        let mut j: usize = 0;
        while j < parent_children.len() && !same_text(
            parent_children[j].name.as_str(),
            name.as_str(),
        )
            invariant
                j <= parent_children@.len(),
                es == entries_view(parent_children@),
                named_entry(es, name@, 0) == named_entry(es, name@, j as int),
            decreases parent_children@.len() - j,
        {
            assert(es[j as int] == parent_children@[j as int]@);
            j = j + 1;
        }
        if j < parent_children.len() {
            let e = &parent_children[j];
            assert(es[j as int] == e@);
            let signature = match &e.signature {
                Some(s) => s.clone(),
                None => e.name.clone(),
            };
            let s = ResolvedSibling {
                name: name.clone(),
                kind: e.kind,
                signature,
                start_line: e.start_line,
                end_line: e.end_line,
            };
            let ghost sv = s@;
            r.push(s);
            assert(siblings_view(r@) =~= siblings_view(before).push(sv));
        }
        i = i + 1;
    }
    proof {
        lemma_sort_map(r@, |s: ResolvedSibling| s@, sibling_le(), sibling_order());
    }
    sort_by(&mut r, siblings_ordered, Ghost(sibling_le()));
    let ghost s = siblings_view(r@);
    if r.len() > MAX_SIBLINGS {
        r.truncate(MAX_SIBLINGS);
        assert(siblings_view(r@) =~= s.take(MAX_SIBLINGS as int));
    }
    r
}

/// A child of the entry starts at the line.
pub open spec fn has_child_at(e: EntryView, line: u32) -> bool {
    exists|i: int| 0 <= i < e.children.len() && (#[trigger] e.children[i]).start_line == line
}

/// The first entry from `i` on that has a child at the line.
pub open spec fn parent_entry(entries: Seq<EntryView>, line: u32, i: int) -> Option<int>
    decreases entries.len() - i,
{
    if i < 0 || i >= entries.len() {
        None
    } else if has_child_at(entries[i], line) {
        Some(i)
    } else {
        parent_entry(entries, line, i + 1)
    }
}

/// The first entry that has a child at the line.
pub fn find_parent_entry(entries: &[OutlineEntry], method_line: u32) -> (r: Option<&OutlineEntry>)
    ensures
        match parent_entry(entries_view(entries@), method_line, 0) {
            Some(i) => 0 <= i < entries@.len() && r == Some(&entries@[i]),
            None => r is None,
        },
{
    let ghost es = entries_view(entries@);
    let mut i: usize = 0;
    while i < entries.len()
        invariant
            i <= entries@.len(),
            es == entries_view(entries@),
            parent_entry(es, method_line, 0) == parent_entry(es, method_line, i as int),
        decreases entries@.len() - i,
    {
        let e = &entries[i];
        proof {
            crate::types::lemma_children(*e);
            assert(es[i as int] == e@);
        }
        let mut j: usize = 0;
        while j < e.children.len()
            invariant
                j <= e.children@.len(),
                i < entries@.len(),
                es == entries_view(entries@),
                *e == entries@[i as int],
                es[i as int] == e@,
                e@.children == entries_view(e.children@),
                parent_entry(es, method_line, 0) == parent_entry(es, method_line, i as int),
                forall|k: int|
                    0 <= k < j ==> (#[trigger] e@.children[k]).start_line != method_line,
            decreases e.children@.len() - j,
        {
            assert(e@.children[j as int] == e.children@[j as int]@);
            if e.children[j].start_line == method_line {
                return Some(e);
            }
            j = j + 1;
        }
        i = i + 1;
    }
    None
}

proof fn lemma_self_references(
    ms: Seq<Seq<CaptureView>>,
    lang: Lang,
    receiver: Option<Seq<char>>,
    range: (u32, u32),
    n: int,
    text: Seq<char>,
)
    requires
        0 <= n <= ms.len(),
    ensures
        self_references(ms, lang, receiver, range, n).contains(text) <==> exists|k: int|
            0 <= k < n && refers_to_self(#[trigger] ms[k], lang, receiver) && capture_texts(
                ms[k],
                "ref"@,
                Some(range),
                ms[k].len() as int,
            ).contains(text),
    decreases n,
{
    if n > 0 {
        lemma_self_references(ms, lang, receiver, range, n - 1, text);
        let q = self_references(ms, lang, receiver, range, n - 1);
        let own = capture_texts(ms[n - 1], "ref"@, Some(range), ms[n - 1].len() as int);
        let r = self_references(ms, lang, receiver, range, n);
        if r.contains(text) {
            let a = choose|a: int| 0 <= a < r.len() && r[a] == text;
            if a < q.len() {
                assert(q[a] == text);
            } else {
                assert(own[a - q.len()] == text);
                assert(own.contains(text));
                assert(refers_to_self(ms[n - 1], lang, receiver));
            }
        }
        if q.contains(text) {
            let a = choose|a: int| 0 <= a < q.len() && q[a] == text;
            assert(r[a] == text);
        }
        if own.contains(text) && refers_to_self(ms[n - 1], lang, receiver) {
            let a = choose|a: int| 0 <= a < own.len() && own[a] == text;
            assert(r[q.len() + a] == text);
        }
    }
}

/// Every field or method of the same value that the lines refer to is listed, and
/// nothing else is.
pub proof fn law_self_references_are_listed(
    content: Seq<char>,
    lang: Lang,
    range: (u32, u32),
    query: Seq<char>,
    name: Seq<char>,
)
    requires
        sibling_query(lang) == Some(query),
    ensures
        sibling_names(content, lang, range).contains(name) <==> exists|k: int, i: int|
            0 <= k < matches_in(content, lang, query).len() && refers_to_self(
                matches_in(content, lang, query)[k],
                lang,
                if lang == Lang::Go {
                    go_receiver(content)
                } else {
                    None
                },
            ) && 0 <= i < matches_in(content, lang, query)[k].len() && (#[trigger] matches_in(
                content,
                lang,
                query,
            )[k][i]).name == "ref"@ && matches_in(content, lang, query)[k][i].text == Some(name)
                && super::callees::in_lines(
                matches_in(content, lang, query)[k][i].start_row,
                Some(range),
            ),
{
    let ms = matches_in(content, lang, query);
    let receiver = if lang == Lang::Go {
        go_receiver(content)
    } else {
        None
    };
    let all = self_references(ms, lang, receiver, range, ms.len() as int);
    lemma_self_references(ms, lang, receiver, range, ms.len() as int, name);
    super::bfs_format::law_names_listed_once(all);
    assert forall|k: int| 0 <= k < ms.len() implies (capture_texts(
        #[trigger] ms[k],
        "ref"@,
        Some(range),
        ms[k].len() as int,
    ).contains(name) <==> exists|i: int|
        0 <= i < ms[k].len() && (#[trigger] ms[k][i]).name == "ref"@
            && super::callees::in_lines(ms[k][i].start_row, Some(range)) && ms[k][i].text == Some(
            name,
        )) by {
        super::callees::lemma_capture_texts(
            ms[k],
            "ref"@,
            Some(range),
            ms[k].len() as int,
            name,
        );
    }
    if all.contains(name) {
        let k = choose|k: int|
            0 <= k < ms.len() && refers_to_self(#[trigger] ms[k], lang, receiver) && capture_texts(
                ms[k],
                "ref"@,
                Some(range),
                ms[k].len() as int,
            ).contains(name);
        let i = choose|i: int|
            0 <= i < ms[k].len() && (#[trigger] ms[k][i]).name == "ref"@
                && super::callees::in_lines(ms[k][i].start_row, Some(range)) && ms[k][i].text
                == Some(name);
        assert(ms[k][i].name == "ref"@);
    }
    if exists|k: int, i: int|
        0 <= k < ms.len() && refers_to_self(ms[k], lang, receiver) && 0 <= i < ms[k].len() && (
        #[trigger] ms[k][i]).name == "ref"@ && ms[k][i].text == Some(name)
            && super::callees::in_lines(ms[k][i].start_row, Some(range)) {
        let (k, i) = choose|k: int, i: int|
            0 <= k < ms.len() && refers_to_self(ms[k], lang, receiver) && 0 <= i < ms[k].len() && (
            #[trigger] ms[k][i]).name == "ref"@ && ms[k][i].text == Some(name)
                && super::callees::in_lines(ms[k][i].start_row, Some(range));
        assert(ms[k][i].name == "ref"@);
        assert(capture_texts(ms[k], "ref"@, Some(range), ms[k].len() as int).contains(name));
        assert(refers_to_self(ms[k], lang, receiver));
    }
}

proof fn lemma_named_entry(entries: Seq<EntryView>, name: Seq<char>, i: int)
    requires
        0 <= i,
    ensures
        match named_entry(entries, name, i) {
            Some(e) => e.name == name && entries.contains(e),
            None => forall|j: int| i <= j < entries.len() ==> (#[trigger] entries[j]).name != name,
        },
    decreases entries.len() - i,
{
    if i < entries.len() && entries[i].name != name {
        lemma_named_entry(entries, name, i + 1);
    }
}

proof fn lemma_found_siblings(names: Seq<Seq<char>>, entries: Seq<EntryView>, n: int)
    requires
        0 <= n <= names.len(),
    ensures
        found_siblings(names, entries, n).len() <= n,
        forall|i: int|
            0 <= i < n && (exists|j: int|
                0 <= j < entries.len() && (#[trigger] entries[j]).name == names[i]) ==> exists|
                s: SiblingView,
            | #[trigger]
                found_siblings(names, entries, n).contains(s) && s.name == #[trigger] names[i],
        forall|s: SiblingView| #[trigger]
            found_siblings(names, entries, n).contains(s) ==> names.contains(s.name) && exists|
                j: int,
            |
                0 <= j < entries.len() && (#[trigger] entries[j]).name == s.name
                    && entries[j].start_line == s.start_line && entries[j].end_line == s.end_line
                    && entries[j].kind == s.kind,
    decreases n,
{
    if n > 0 {
        lemma_found_siblings(names, entries, n - 1);
        lemma_named_entry(entries, names[n - 1], 0);
        let q = found_siblings(names, entries, n - 1);
        let r = found_siblings(names, entries, n);
        assert forall|s: SiblingView| q.contains(s) implies #[trigger] r.contains(s) by {
            let a = choose|a: int| 0 <= a < q.len() && q[a] == s;
            assert(r[a] == s);
        }
        assert forall|i: int|
            0 <= i < n && (exists|j: int|
                0 <= j < entries.len() && (#[trigger] entries[j]).name == names[i]) implies exists|
            s: SiblingView,
        | #[trigger] r.contains(s) && s.name == #[trigger] names[i] by {
            if i < n - 1 {
                let s = choose|s: SiblingView| #[trigger] q.contains(s) && s.name == names[i];
                assert(r.contains(s));
            } else {
                let s = r[q.len() as int];
                assert(r.contains(s));
            }
        }
        assert forall|s: SiblingView| #[trigger] r.contains(s) implies names.contains(s.name)
            && exists|j: int|
            0 <= j < entries.len() && (#[trigger] entries[j]).name == s.name
                && entries[j].start_line == s.start_line && entries[j].end_line == s.end_line
                && entries[j].kind == s.kind by {
            let a = choose|a: int| 0 <= a < r.len() && r[a] == s;
            if a < q.len() {
                assert(q[a] == s);
                assert(q.contains(s));
            } else {
                let e = named_entry(entries, names[n - 1], 0)->0;
                let j = choose|j: int| 0 <= j < entries.len() && entries[j] == e;
                assert(entries[j].name == s.name);
            }
        }
    }
}

proof fn lemma_sibling_order()
    ensures
        crate::sort::is_preorder(sibling_order()),
{
    let le = sibling_order();
    assert forall|a: SiblingView, b: SiblingView| #[trigger] le(a, b) || le(b, a) by {
        crate::text::lemma_text_order(a.name, b.name);
    }
    assert forall|a: SiblingView, b: SiblingView, c: SiblingView| #[trigger]
        le(a, b) && #[trigger] le(b, c) implies le(a, c) by {
        if text_le(a.name, b.name) && text_le(b.name, c.name) {
            crate::text::lemma_text_trans(a.name, b.name, c.name);
        }
    }
}

/// Every name that an entry bears is shown as a sibling, up to six; what is shown stands
/// on the lines of an entry of its name, and functions come first.
pub proof fn law_siblings_are_shown(names: Seq<Seq<char>>, entries: Seq<EntryView>)
    ensures
        siblings(names, entries).len() <= 6,
        forall|i: int|
            0 <= i < names.len() && (exists|j: int|
                0 <= j < entries.len() && (#[trigger] entries[j]).name == names[i]) ==> siblings(
                names,
                entries,
            ).len() == 6 || exists|s: SiblingView| #[trigger]
                siblings(names, entries).contains(s) && s.name == #[trigger] names[i],
        names.len() <= 6 ==> forall|i: int|
            0 <= i < names.len() && (exists|j: int|
                0 <= j < entries.len() && (#[trigger] entries[j]).name == names[i]) ==> exists|
                s: SiblingView,
            | #[trigger]
                siblings(names, entries).contains(s) && s.name == #[trigger] names[i],
        forall|s: SiblingView| #[trigger]
            siblings(names, entries).contains(s) ==> names.contains(s.name) && exists|j: int|
                0 <= j < entries.len() && (#[trigger] entries[j]).name == s.name
                    && entries[j].start_line == s.start_line && entries[j].end_line == s.end_line
                    && entries[j].kind == s.kind,
        forall|a: int, b: int|
            0 <= a < b < siblings(names, entries).len() && (#[trigger] siblings(
                names,
                entries,
            )[b]).kind == OutlineKind::Function ==> (#[trigger] siblings(names, entries)[a]).kind
                == OutlineKind::Function,
{
    let all = found_siblings(names, entries, names.len() as int);
    let sorted = stable_sort(all, sibling_order());
    let r = siblings(names, entries);
    lemma_found_siblings(names, entries, names.len() as int);
    crate::sort::law_sort_keeps_elements(all, sibling_order());
    lemma_sibling_order();
    crate::sort::law_sort_orders(all, sibling_order());
    assert forall|i: int|
        0 <= i < names.len() && (exists|j: int|
            0 <= j < entries.len() && (#[trigger] entries[j]).name == names[i]) implies r.len() == 6
        || exists|s: SiblingView| #[trigger] r.contains(s) && s.name == #[trigger] names[i] by {
        let s = choose|s: SiblingView| #[trigger] all.contains(s) && s.name == names[i];
        crate::sort::law_sort_keeps_members(all, sibling_order(), s);
        if r.len() < 6 {
            assert(r =~= sorted);
            assert(r.contains(s));
        }
    }
    if names.len() <= 6 {
        assert forall|i: int|
            0 <= i < names.len() && (exists|j: int|
                0 <= j < entries.len() && (#[trigger] entries[j]).name == names[i]) implies exists|
            s: SiblingView,
        | #[trigger] r.contains(s) && s.name == #[trigger] names[i] by {
            let s = choose|s: SiblingView| #[trigger] all.contains(s) && s.name == names[i];
            crate::sort::law_sort_keeps_members(all, sibling_order(), s);
            assert(r.contains(s));
        }
    }
    assert forall|s: SiblingView| #[trigger] r.contains(s) implies names.contains(s.name) && exists|
        j: int,
    |
        0 <= j < entries.len() && (#[trigger] entries[j]).name == s.name && entries[j].start_line
            == s.start_line && entries[j].end_line == s.end_line && entries[j].kind == s.kind by {
        let a = choose|a: int| 0 <= a < r.len() && r[a] == s;
        assert(sorted[a] == s);
        crate::sort::law_sort_keeps_members(all, sibling_order(), s);
    }
    assert forall|a: int, b: int|
        0 <= a < b < r.len() && (#[trigger] r[b]).kind == OutlineKind::Function implies (
    #[trigger] r[a]).kind == OutlineKind::Function by {
        assert(sibling_order()(sorted[a], sorted[b]));
    }
}

/// The entry around a line is the first that has a child there, and there is none only
/// where no entry has one.
pub proof fn law_parent_entry_has_the_child(entries: Seq<EntryView>, line: u32, i: int)
    requires
        0 <= i <= entries.len(),
    ensures
        match parent_entry(entries, line, i) {
            Some(p) => i <= p < entries.len() && (exists|c: int|
                0 <= c < entries[p].children.len() && (#[trigger] entries[p].children[c]).start_line
                    == line) && forall|k: int, c: int|
                i <= k < p && 0 <= c < entries[k].children.len() ==> (
                #[trigger] entries[k].children[c]).start_line != line,
            None => forall|k: int, c: int|
                i <= k < entries.len() && 0 <= c < entries[k].children.len() ==> (
                #[trigger] entries[k].children[c]).start_line != line,
        },
    decreases entries.len() - i,
{
    if i < entries.len() && !has_child_at(entries[i], line) {
        law_parent_entry_has_the_child(entries, line, i + 1);
    }
}

} // verus!
