//! Outlines of code: the declarations of a file with their lines.
use vstd::prelude::*;
use vstd::string::*;

use crate::lang::outline::{
    extract_import_source, import_source, nodes_in, parse_content, top_level, walk_top_level,
};
use crate::text::{
    byte_len, chars_of, dec, has_string, join, join_strings, lemma_strs_push, lines, lines_of, opt_text,
    pad_right, push_chars, push_dec, push_padded, same_text, strs, text_len, truncate_chars, truncated,
};
use crate::types::{entries_view, lemma_children, EntryView, Lang, OutlineEntry, OutlineKind};

verus! {

// ---------------------------------------------------------------------------
// Imports
// ---------------------------------------------------------------------------

/// How many sources of imports are named.
pub const MAX_SOURCES: usize = 5;

/// The sources of the first `n` imports, each once.
pub open spec fn sources(imports: Seq<Seq<char>>, n: int) -> Seq<Seq<char>>
    decreases n,
{
    if n <= 0 {
        Seq::empty()
    } else {
        let r = sources(imports, n - 1);
        let s = import_source(imports[n - 1]);
        if r.contains(s) {
            r
        } else {
            r.push(s)
        }
    }
}

/// How many of the first `n` imports have the source.
pub open spec fn times(imports: Seq<Seq<char>>, source: Seq<char>, n: int) -> nat
    decreases n,
{
    if n <= 0 {
        0
    } else {
        times(imports, source, n - 1) + (if import_source(imports[n - 1]) == source {
            1nat
        } else {
            0
        })
    }
}

/// A source, with the number of its imports where there are several.
pub open spec fn source_text(imports: Seq<Seq<char>>, source: Seq<char>) -> Seq<char> {
    let n = times(imports, source, imports.len() as int);
    if n > 1 {
        source + "("@ + dec(n) + ")"@
    } else {
        source
    }
}

/// The first of the sources.
pub open spec fn first_sources(imports: Seq<Seq<char>>) -> Seq<Seq<char>> {
    let s = sources(imports, imports.len() as int);
    if s.len() > MAX_SOURCES {
        s.take(MAX_SOURCES as int)
    } else {
        s
    }
}

/// The line for a group of imports.
pub open spec fn imports_line(imports: Seq<Seq<char>>, start: u32) -> Seq<char> {
    "["@ + dec(start as nat) + "-]   imports: "@ + join(
        first_sources(imports).map_values(|s: Seq<char>| source_text(imports, s)),
        ", "@,
    ) + (if imports.len() > MAX_SOURCES {
        ", ... ("@ + dec(imports.len()) + " total)"@
    } else {
        Seq::empty()
    })
}

fn collect_sources(imports: &Vec<String>) -> (r: Vec<String>)
    ensures
        strs(r@) == sources(strs(imports@), imports@.len() as int),
{
    broadcast use lemma_strs_push;

    let ghost v = strs(imports@);
    let mut r: Vec<String> = Vec::new();
    let mut i: usize = 0;
    assert(strs(r@) =~= Seq::<Seq<char>>::empty());
    while i < imports.len()
        invariant
            i <= imports@.len(),
            v == strs(imports@),
            strs(r@) == sources(v, i as int),
        decreases imports@.len() - i,
    {
        assert(v[i as int] == imports@[i as int]@);
        let s = extract_import_source(imports[i].as_str());
        if !has_string(r.as_slice(), s.as_str()) {
            r.push(s);
        }
        i = i + 1;
    }
    r
}

fn count_source(imports: &Vec<String>, source: &str) -> (r: usize)
    ensures
        r == times(strs(imports@), source@, imports@.len() as int),
{
    let ghost v = strs(imports@);
    let mut r: usize = 0;
    let mut i: usize = 0;
    while i < imports.len()
        invariant
            i <= imports@.len(),
            v == strs(imports@),
            r <= i,
            r == times(v, source@, i as int),
        decreases imports@.len() - i,
    {
        assert(v[i as int] == imports@[i as int]@);
        let s = extract_import_source(imports[i].as_str());
        if same_text(s.as_str(), source) {
            r = r + 1;
        }
        i = i + 1;
    }
    r
}

/// The line for a group of imports: `imports: react(4), express(2), @/lib(3)`.
pub fn format_imports(imports: &Vec<String>, start: u32) -> (r: String)
    ensures
        r@ == imports_line(strs(imports@), start),
{
    let ghost v = strs(imports@);
    assert(v.len() == imports@.len());
    let all = collect_sources(imports);
    let ghost s = strs(all@);
    let ghost first = first_sources(v);
    let ghost g = |x: Seq<char>| source_text(v, x);
    assert(s.len() == all@.len());
    let mut parts: Vec<String> = Vec::new();
    let mut i: usize = 0;
    while i < all.len() && i < MAX_SOURCES
        invariant
            i <= all@.len(),
            i <= MAX_SOURCES,
            s == strs(all@),
            v == strs(imports@),
            v.len() == imports@.len(),
            g == (|x: Seq<char>| source_text(v, x)),
            parts@.len() == i,
            forall|k: int| 0 <= k < i ==> (#[trigger] parts@[k])@ == g(s[k]),
        decreases all@.len() - i,
    {
        assert(s[i as int] == all@[i as int]@);
        let n: usize = count_source(imports, all[i].as_str());
        let mut part = all[i].clone();
        if n > 1 {
            part.append("(");
            push_dec(&mut part, n);
            part.append(")");
        }
        parts.push(part);
        i = i + 1;
    }
    assert(strs(parts@) =~= first.map_values(g));
    let mut out = "[".to_owned();
    push_dec(&mut out, start as usize);
    out.append("-]   imports: ");
    out.append(join_strings(parts.as_slice(), ", ").as_str());
    let ghost head = out@;
    if imports.len() > MAX_SOURCES {
        out.append(", ... (");
        push_dec(&mut out, imports.len());
        out.append(" total)");
        assert(out@ =~= head + (", ... ("@ + dec(v.len()) + " total)"@));
    } else {
        assert(out@ =~= head + Seq::<char>::empty());
    }
    out
}

// ---------------------------------------------------------------------------
// Entries
// ---------------------------------------------------------------------------

/// What a kind of entry is called in the language.
pub open spec fn entry_label(kind: OutlineKind, lang: Lang) -> Seq<char> {
    match kind {
        OutlineKind::Function => if lang == Lang::Scala {
            "def"@
        } else if lang == Lang::Kotlin {
            "fun"@
        } else {
            "fn"@
        },
        OutlineKind::Interface => if lang == Lang::Scala {
            "trait"@
        } else {
            "interface"@
        },
        OutlineKind::Variable => if lang == Lang::Scala {
            "var"@
        } else {
            "let"@
        },
        OutlineKind::Module => if lang == Lang::Scala || lang == Lang::Kotlin {
            "object"@
        } else {
            "mod"@
        },
        OutlineKind::Class => "class"@,
        OutlineKind::Struct => "struct"@,
        OutlineKind::TypeAlias => "type"@,
        OutlineKind::Enum => "enum"@,
        OutlineKind::Constant => "const"@,
        OutlineKind::ImmutableVariable => "val"@,
        OutlineKind::Export => "export"@,
        OutlineKind::Property => "prop"@,
        OutlineKind::Import => "import"@,
        OutlineKind::TestSuite => "suite"@,
        OutlineKind::TestCase => "test"@,
    }
}

fn label_of(kind: OutlineKind, lang: Lang) -> (r: &'static str)
    ensures
        r@ == entry_label(kind, lang),
{
    match kind {
        OutlineKind::Function => if lang == Lang::Scala {
            "def"
        } else if lang == Lang::Kotlin {
            "fun"
        } else {
            "fn"
        },
        OutlineKind::Interface => if lang == Lang::Scala {
            "trait"
        } else {
            "interface"
        },
        OutlineKind::Variable => if lang == Lang::Scala {
            "var"
        } else {
            "let"
        },
        OutlineKind::Module => if lang == Lang::Scala || lang == Lang::Kotlin {
            "object"
        } else {
            "mod"
        },
        OutlineKind::Class => "class",
        OutlineKind::Struct => "struct",
        OutlineKind::TypeAlias => "type",
        OutlineKind::Enum => "enum",
        OutlineKind::Constant => "const",
        OutlineKind::ImmutableVariable => "val",
        OutlineKind::Export => "export",
        OutlineKind::Property => "prop",
        OutlineKind::Import => "import",
        OutlineKind::TestSuite => "suite",
        OutlineKind::TestCase => "test",
    }
}

/// The lines of an entry, in brackets.
pub open spec fn entry_range(e: EntryView) -> Seq<char> {
    if e.start_line == e.end_line {
        "["@ + dec(e.start_line as nat) + "]"@
    } else {
        "["@ + dec(e.start_line as nat) + "-"@ + dec(e.end_line as nat) + "]"@
    }
}

/// Two blanks for each level.
pub open spec fn indent_text(n: nat) -> Seq<char>
    decreases n,
{
    if n == 0 {
        Seq::empty()
    } else {
        indent_text((n - 1) as nat) + "  "@
    }
}

/// The documentation of an entry, shortened where it is long.
pub open spec fn doc_text(d: Seq<char>) -> Seq<char> {
    "  // "@ + (if byte_len(d) > 60 {
        truncated(d, 57) + "..."@
    } else {
        d
    })
}

/// The line of an entry, with its signature on a line of its own.
pub open spec fn entry_line(e: EntryView, indent: nat, lang: Lang) -> Seq<char> {
    indent_text(indent) + pad_right(entry_range(e), 12) + " "@ + entry_label(e.kind, lang) + " "@ + e.name + (
    match e.signature {
        Some(s) => "\n"@ + indent_text(indent) + "           "@ + s,
        None => Seq::empty(),
    }) + (match e.doc {
        Some(d) => doc_text(d),
        None => Seq::empty(),
    })
}

fn indentation(n: usize) -> (r: String)
    ensures
        r@ == indent_text(n as nat),
{
    let mut r = String::new();
    let mut i: usize = 0;
    assert(r@ =~= indent_text(0));
    while i < n
        invariant
            i <= n,
            r@ == indent_text(i as nat),
        decreases n - i,
    {
        r.append("  ");
        i = i + 1;
    }
    r
}

/// The line of an entry.
pub fn format_entry(entry: &OutlineEntry, indent: usize, lang: Lang) -> (r: String)
    ensures
        r@ == entry_line(entry@, indent as nat, lang),
{
    let prefix = indentation(indent);
    let mut range = "[".to_owned();
    push_dec(&mut range, entry.start_line as usize);
    if entry.start_line != entry.end_line {
        range.append("-");
        push_dec(&mut range, entry.end_line as usize);
    }
    range.append("]");
    assert(range@ =~= entry_range(entry@));
    let mut out = prefix.clone();
    push_padded(&mut out, range.as_str(), 12);
    out.append(" ");
    out.append(label_of(entry.kind, lang));
    out.append(" ");
    out.append(entry.name.as_str());
    let ghost head = out@;
    match &entry.signature {
        Some(s) => {
            out.append("\n");
            out.append(prefix.as_str());
            out.append("           ");
            out.append(s.as_str());
            assert(out@ =~= head + ("\n"@ + indent_text(indent as nat) + "           "@ + s@));
        },
        None => {
            assert(out@ =~= head + Seq::<char>::empty());
        },
    }
    let ghost mid = out@;
    match &entry.doc {
        Some(d) => {
            out.append("  // ");
            if text_len(d.as_str()) > 60 {
                let c = chars_of(d.as_str());
                push_chars(&mut out, truncate_chars(c.as_slice(), 57));
                out.append("...");
            } else {
                out.append(d.as_str());
            }
            assert(out@ =~= mid + doc_text(d@));
        },
        None => {
            assert(out@ =~= mid + Seq::<char>::empty());
        },
    }
    out
}

// ---------------------------------------------------------------------------
// Outlines
// ---------------------------------------------------------------------------

/// The lines so far, and the imports that are still to be shown.
pub struct LinesView {
    pub out: Seq<Seq<char>>,
    pub imports: Seq<Seq<char>>,
    pub start: u32,
}

/// The line added, unless there are as many as may be.
pub open spec fn capped(out: Seq<Seq<char>>, line: Seq<char>, max: nat) -> Seq<Seq<char>> {
    if out.len() >= max {
        out
    } else {
        out.push(line)
    }
}

/// The first `n` entries added, as far as there is room.
pub open spec fn with_entries(
    out: Seq<Seq<char>>,
    entries: Seq<EntryView>,
    indent: nat,
    lang: Lang,
    max: nat,
    n: int,
) -> Seq<Seq<char>>
    decreases n,
{
    if n <= 0 {
        out
    } else {
        capped(
            with_entries(out, entries, indent, lang, max, n - 1),
            entry_line(entries[n - 1], indent, lang),
            max,
        )
    }
}

/// The first `n` entries and their children added, as far as there is room.
pub open spec fn with_nested(
    out: Seq<Seq<char>>,
    entries: Seq<EntryView>,
    lang: Lang,
    max: nat,
    n: int,
) -> Seq<Seq<char>>
    decreases n,
{
    if n <= 0 {
        out
    } else {
        let e = entries[n - 1];
        with_entries(
            capped(with_nested(out, entries, lang, max, n - 1), entry_line(e, 1, lang), max),
            e.children,
            2,
            lang,
            max,
            e.children.len() as int,
        )
    }
}

/// The imports that are still to be shown added as one line.
pub open spec fn flushed(s: LinesView) -> LinesView {
    if s.imports.len() == 0 {
        s
    } else {
        LinesView {
            out: s.out.push(imports_line(s.imports, s.start)),
            imports: Seq::empty(),
            start: s.start,
        }
    }
}

/// An entry added: imports are gathered; the children of a module are shown with
/// their own children.
pub open spec fn add_entry(s: LinesView, e: EntryView, lang: Lang, max: nat) -> LinesView {
    if s.out.len() >= max {
        s
    } else if e.kind == OutlineKind::Import {
        LinesView {
            out: s.out,
            imports: s.imports.push(e.name),
            start: if s.imports.len() == 0 {
                e.start_line
            } else {
                s.start
            },
        }
    } else {
        let f = flushed(s);
        let own = f.out.push(entry_line(e, 0, lang));
        LinesView {
            out: if e.kind == OutlineKind::Module && e.children.len() > 0 {
                with_nested(own, e.children, lang, max, e.children.len() as int)
            } else {
                with_entries(own, e.children, 1, lang, max, e.children.len() as int)
            },
            imports: f.imports,
            start: f.start,
        }
    }
}

/// The first `n` entries added.
pub open spec fn outline_lines(entries: Seq<EntryView>, lang: Lang, max: nat, n: int) -> LinesView
    decreases n,
{
    if n <= 0 {
        LinesView { out: Seq::empty(), imports: Seq::empty(), start: 1 }
    } else {
        add_entry(outline_lines(entries, lang, max, n - 1), entries[n - 1], lang, max)
    }
}

/// The outline of the entries, of at most so many lines.
pub open spec fn entries_text(entries: Seq<EntryView>, lang: Lang, max: nat) -> Seq<char> {
    join(flushed(outline_lines(entries, lang, max, entries.len() as int)).out, "\n"@)
}

fn push_entries(out: &mut Vec<String>, entries: &Vec<OutlineEntry>, indent: usize, lang: Lang, max: usize)
    ensures
        strs(final(out)@) == with_entries(
            strs(old(out)@),
            entries_view(entries@),
            indent as nat,
            lang,
            max as nat,
            entries@.len() as int,
        ),
{
    broadcast use lemma_strs_push;

    let ghost es = entries_view(entries@);
    let ghost start = strs(out@);
    let mut i: usize = 0;
    while i < entries.len()
        invariant
            i <= entries@.len(),
            es == entries_view(entries@),
            strs(out@) == with_entries(start, es, indent as nat, lang, max as nat, i as int),
        decreases entries@.len() - i,
    {
        assert(es[i as int] == entries@[i as int]@);
        assert(strs(out@).len() == out@.len());
        if out.len() < max {
            out.push(format_entry(&entries[i], indent, lang));
        }
        i = i + 1;
    }
}

fn push_nested(out: &mut Vec<String>, entries: &Vec<OutlineEntry>, lang: Lang, max: usize)
    ensures
        strs(final(out)@) == with_nested(
            strs(old(out)@),
            entries_view(entries@),
            lang,
            max as nat,
            entries@.len() as int,
        ),
{
    broadcast use lemma_strs_push;

    let ghost es = entries_view(entries@);
    let ghost start = strs(out@);
    let mut i: usize = 0;
    while i < entries.len()
        invariant
            i <= entries@.len(),
            es == entries_view(entries@),
            strs(out@) == with_nested(start, es, lang, max as nat, i as int),
        decreases entries@.len() - i,
    {
        let e = &entries[i];
        proof {
            assert(es[i as int] == e@);
            lemma_children(*e);
            assert(entries_view(e.children@).len() == e.children@.len());
        }
        assert(strs(out@).len() == out@.len());
        let ghost before = strs(out@);
        if out.len() < max {
            out.push(format_entry(e, 1, lang));
        }
        assert(strs(out@) == capped(before, entry_line(e@, 1, lang), max as nat));
        push_entries(out, &e.children, 2, lang, max);
        assert(e@.children.len() == e.children@.len());
        i = i + 1;
    }
}

/// The outline of the entries, of at most so many lines.
pub fn format_entries(entries: &[OutlineEntry], max_lines: usize, lang: Lang) -> (r: String)
    ensures
        r@ == entries_text(entries_view(entries@), lang, max_lines as nat),
{
    broadcast use lemma_strs_push;

    let ghost es = entries_view(entries@);
    assert(es.len() == entries@.len());
    let mut out: Vec<String> = Vec::new();
    let mut imports: Vec<String> = Vec::new();
    let mut start: u32 = 1;
    let mut i: usize = 0;
    assert(strs(out@) =~= Seq::<Seq<char>>::empty());
    assert(strs(imports@) =~= Seq::<Seq<char>>::empty());
    while i < entries.len()
        invariant
            i <= entries@.len(),
            es == entries_view(entries@),
            (LinesView { out: strs(out@), imports: strs(imports@), start }) == outline_lines(
                es,
                lang,
                max_lines as nat,
                i as int,
            ),
        decreases entries@.len() - i,
    {
        let e = &entries[i];
        proof {
            assert(es[i as int] == e@);
            lemma_children(*e);
            assert(entries_view(e.children@).len() == e.children@.len());
            assert(strs(out@).len() == out@.len());
            assert(strs(imports@).len() == imports@.len());
        }
        let ghost before = LinesView { out: strs(out@), imports: strs(imports@), start };
        if out.len() < max_lines {
            if e.kind == OutlineKind::Import {
                if imports.len() == 0 {
                    start = e.start_line;
                }
                imports.push(e.name.clone());
            } else {
                if imports.len() > 0 {
                    out.push(format_imports(&imports, start));
                    imports.clear();
                    assert(strs(imports@) =~= Seq::<Seq<char>>::empty());
                }
                assert(strs(out@) =~= flushed(before).out);
                out.push(format_entry(e, 0, lang));
                assert(strs(out@) =~= flushed(before).out.push(entry_line(e@, 0, lang)));
                assert(e@.children.len() == e.children@.len());
                if e.kind == OutlineKind::Module && e.children.len() > 0 {
                    push_nested(&mut out, &e.children, lang, max_lines);
                } else {
                    push_entries(&mut out, &e.children, 1, lang, max_lines);
                }
            }
        }
        proof {
            let now = LinesView { out: strs(out@), imports: strs(imports@), start };
            let next = add_entry(before, e@, lang, max_lines as nat);
            assert(now.imports =~= next.imports);
            assert(now.start == next.start);
            assert(now.out =~= next.out);
        }
        i = i + 1;
    }
    assert(strs(imports@).len() == imports@.len());
    if imports.len() > 0 {
        out.push(format_imports(&imports, start));
    }
    join_strings(out.as_slice(), "\n")
}

/// The outline of the content, of at most so many lines, unless there is no grammar for
/// the language or parsing fails.
pub fn outline(content: &str, lang: Lang, max_lines: usize) -> (r: Option<String>)
    ensures
        opt_text(r) == (match nodes_in(content@, lang) {
            Some(t) => Some(entries_text(top_level(t, lines(content@)), lang, max_lines as nat)),
            None => None,
        }),
{
    match parse_content(content, lang) {
        Some(nodes) => {
            let text = chars_of(content);
            let l = lines_of(text.as_slice());
            let entries = walk_top_level(nodes.as_slice(), l.as_slice());
            Some(format_entries(entries.as_slice(), max_lines, lang))
        },
        None => None,
    }
}

proof fn lemma_with_entries_bound(
    out: Seq<Seq<char>>,
    entries: Seq<EntryView>,
    indent: nat,
    lang: Lang,
    max: nat,
    n: int,
)
    ensures
        with_entries(out, entries, indent, lang, max, n).len() >= out.len(),
        with_entries(out, entries, indent, lang, max, n).len() <= max || with_entries(
            out,
            entries,
            indent,
            lang,
            max,
            n,
        ) == out,
    decreases n,
{
    if n > 0 {
        lemma_with_entries_bound(out, entries, indent, lang, max, n - 1);
    }
}

proof fn lemma_with_nested_bound(
    out: Seq<Seq<char>>,
    entries: Seq<EntryView>,
    lang: Lang,
    max: nat,
    n: int,
)
    ensures
        with_nested(out, entries, lang, max, n).len() >= out.len(),
        with_nested(out, entries, lang, max, n).len() <= max || with_nested(
            out,
            entries,
            lang,
            max,
            n,
        ) == out,
    decreases n,
{
    if n > 0 {
        lemma_with_nested_bound(out, entries, lang, max, n - 1);
        let e = entries[n - 1];
        let c = capped(
            with_nested(out, entries, lang, max, n - 1),
            entry_line(e, 1, lang),
            max,
        );
        lemma_with_entries_bound(c, e.children, 2, lang, max, e.children.len() as int);
    }
}

proof fn lemma_lines_bound(entries: Seq<EntryView>, lang: Lang, max: nat, n: int)
    requires
        n <= entries.len(),
    ensures
        ({
            let s = outline_lines(entries, lang, max, n);
            &&& s.out.len() <= max + 1
            &&& s.out.len() > max ==> s.imports.len() == 0
            &&& max == 0 ==> s.out.len() == 0 && s.imports.len() == 0
        }),
    decreases n,
{
    if n > 0 {
        lemma_lines_bound(entries, lang, max, n - 1);
        let s = outline_lines(entries, lang, max, n - 1);
        let e = entries[n - 1];
        if s.out.len() < max && e.kind != OutlineKind::Import {
            let own = flushed(s).out.push(entry_line(e, 0, lang));
            lemma_with_nested_bound(own, e.children, lang, max, e.children.len() as int);
            lemma_with_entries_bound(own, e.children, 1, lang, max, e.children.len() as int);
        }
    }
}

/// An outline has at most one entry more than it may: the imports before the last
/// entry, or those at the end, are shown even where there is no more room.
pub proof fn law_outline_bounded(entries: Seq<EntryView>, lang: Lang, max: nat)
    ensures
        flushed(outline_lines(entries, lang, max, entries.len() as int)).out.len() <= max + 1,
{
    lemma_lines_bound(entries, lang, max, entries.len() as int);
}

proof fn lemma_grows(a: Seq<Seq<char>>, b: Seq<Seq<char>>, x: Seq<char>)
    requires
        a.is_prefix_of(b),
        a.contains(x),
    ensures
        b.contains(x),
{
    let k = choose|k: int| 0 <= k < a.len() && a[k] == x;
    assert(b.subrange(0, a.len() as int)[k] == b[k]);
    assert(b[k] == x);
}

proof fn lemma_prefix_trans(a: Seq<Seq<char>>, b: Seq<Seq<char>>, c: Seq<Seq<char>>)
    requires
        a.is_prefix_of(b),
        b.is_prefix_of(c),
    ensures
        a.is_prefix_of(c),
{
    assert forall|k: int| 0 <= k < a.len() implies a[k] == c[k] by {
        assert(b.subrange(0, a.len() as int)[k] == b[k]);
        assert(c.subrange(0, b.len() as int)[k] == c[k]);
    }
    assert(a =~= c.subrange(0, a.len() as int));
}

proof fn lemma_capped(out: Seq<Seq<char>>, line: Seq<char>, max: nat)
    ensures
        out.is_prefix_of(capped(out, line, max)),
        capped(out, line, max).len() < max ==> capped(out, line, max).contains(line),
{
    let r = capped(out, line, max);
    assert(out =~= r.subrange(0, out.len() as int));
    if r.len() < max {
        assert(r[out.len() as int] == line);
    }
}

proof fn lemma_entries_listed(
    out: Seq<Seq<char>>,
    entries: Seq<EntryView>,
    indent: nat,
    lang: Lang,
    max: nat,
    n: int,
)
    requires
        0 <= n <= entries.len(),
    ensures
        out.is_prefix_of(with_entries(out, entries, indent, lang, max, n)),
        with_entries(out, entries, indent, lang, max, n).len() < max ==> forall|i: int|
            0 <= i < n ==> with_entries(out, entries, indent, lang, max, n).contains(
                entry_line(#[trigger] entries[i], indent, lang),
            ),
    decreases n,
{
    if n <= 0 {
        assert(out =~= out.subrange(0, out.len() as int));
    } else {
        lemma_entries_listed(out, entries, indent, lang, max, n - 1);
        let q = with_entries(out, entries, indent, lang, max, n - 1);
        let line = entry_line(entries[n - 1], indent, lang);
        let r = with_entries(out, entries, indent, lang, max, n);
        lemma_capped(q, line, max);
        lemma_prefix_trans(out, q, r);
        if r.len() < max {
            assert forall|i: int| 0 <= i < n implies r.contains(
                entry_line(#[trigger] entries[i], indent, lang),
            ) by {
                if i < n - 1 {
                    lemma_grows(q, r, entry_line(entries[i], indent, lang));
                }
            }
        }
    }
}

proof fn lemma_nested_listed(
    out: Seq<Seq<char>>,
    entries: Seq<EntryView>,
    lang: Lang,
    max: nat,
    n: int,
)
    requires
        0 <= n <= entries.len(),
    ensures
        out.is_prefix_of(with_nested(out, entries, lang, max, n)),
        with_nested(out, entries, lang, max, n).len() < max ==> forall|i: int|
            0 <= i < n ==> with_nested(out, entries, lang, max, n).contains(
                entry_line(#[trigger] entries[i], 1, lang),
            ),
        with_nested(out, entries, lang, max, n).len() < max ==> forall|i: int, j: int|
            0 <= i < n && 0 <= j < entries[i].children.len() ==> with_nested(
                out,
                entries,
                lang,
                max,
                n,
            ).contains(entry_line(#[trigger] entries[i].children[j], 2, lang)),
    decreases n,
{
    if n <= 0 {
        assert(out =~= out.subrange(0, out.len() as int));
    } else {
        lemma_nested_listed(out, entries, lang, max, n - 1);
        let e = entries[n - 1];
        let q = with_nested(out, entries, lang, max, n - 1);
        let m = capped(q, entry_line(e, 1, lang), max);
        let r = with_nested(out, entries, lang, max, n);
        lemma_capped(q, entry_line(e, 1, lang), max);
        lemma_entries_listed(m, e.children, 2, lang, max, e.children.len() as int);
        lemma_prefix_trans(out, q, m);
        lemma_prefix_trans(out, m, r);
        lemma_prefix_trans(q, m, r);
        if r.len() < max {
            assert forall|i: int| 0 <= i < n implies r.contains(
                entry_line(#[trigger] entries[i], 1, lang),
            ) by {
                if i < n - 1 {
                    lemma_grows(q, r, entry_line(entries[i], 1, lang));
                } else {
                    lemma_grows(m, r, entry_line(e, 1, lang));
                }
            }
            assert forall|i: int, j: int|
                0 <= i < n && 0 <= j < entries[i].children.len() implies r.contains(
                entry_line(#[trigger] entries[i].children[j], 2, lang),
            ) by {
                if i < n - 1 {
                    lemma_grows(q, r, entry_line(entries[i].children[j], 2, lang));
                }
            }
        }
    }
}

proof fn lemma_entry_added(s: LinesView, e: EntryView, lang: Lang, max: nat)
    ensures
        s.out.is_prefix_of(add_entry(s, e, lang, max).out),
        add_entry(s, e, lang, max).out.len() < max && e.kind != OutlineKind::Import ==> {
            &&& add_entry(s, e, lang, max).out.contains(entry_line(e, 0, lang))
            &&& forall|j: int|
                0 <= j < e.children.len() ==> add_entry(s, e, lang, max).out.contains(
                    entry_line(#[trigger] e.children[j], 1, lang),
                )
            &&& e.kind == OutlineKind::Module ==> forall|j: int, k: int|
                0 <= j < e.children.len() && 0 <= k < e.children[j].children.len() ==> add_entry(
                    s,
                    e,
                    lang,
                    max,
                ).out.contains(entry_line(#[trigger] e.children[j].children[k], 2, lang))
        },
{
    let r = add_entry(s, e, lang, max);
    if s.out.len() >= max || e.kind == OutlineKind::Import {
        assert(s.out =~= s.out.subrange(0, s.out.len() as int));
    } else {
        let f = flushed(s);
        let own = f.out.push(entry_line(e, 0, lang));
        assert(s.out =~= own.subrange(0, s.out.len() as int));
        assert(own[f.out.len() as int] == entry_line(e, 0, lang));
        assert(own.contains(entry_line(e, 0, lang)));
        if e.kind == OutlineKind::Module && e.children.len() > 0 {
            lemma_nested_listed(own, e.children, lang, max, e.children.len() as int);
        } else {
            lemma_entries_listed(own, e.children, 1, lang, max, e.children.len() as int);
        }
        lemma_prefix_trans(s.out, own, r.out);
        lemma_grows(own, r.out, entry_line(e, 0, lang));
    }
}

/// An outline that is not cut short lists every entry that is no import, every child of
/// one, and every child of a child of a module, each on a line of its own.
pub proof fn law_outline_lists_every_entry(
    entries: Seq<EntryView>,
    lang: Lang,
    max: nat,
    n: int,
    i: int,
)
    requires
        0 <= i < n <= entries.len(),
        outline_lines(entries, lang, max, n).out.len() < max,
        entries[i].kind != OutlineKind::Import,
    ensures
        outline_lines(entries, lang, max, n).out.contains(entry_line(entries[i], 0, lang)),
        forall|j: int|
            0 <= j < entries[i].children.len() ==> outline_lines(
                entries,
                lang,
                max,
                n,
            ).out.contains(entry_line(#[trigger] entries[i].children[j], 1, lang)),
        entries[i].kind == OutlineKind::Module ==> forall|j: int, k: int|
            0 <= j < entries[i].children.len() && 0 <= k < entries[i].children[j].children.len()
                ==> outline_lines(entries, lang, max, n).out.contains(
                entry_line(#[trigger] entries[i].children[j].children[k], 2, lang),
            ),
    decreases n,
{
    let q = outline_lines(entries, lang, max, n - 1);
    let r = outline_lines(entries, lang, max, n);
    lemma_entry_added(q, entries[n - 1], lang, max);
    assert(q.out.len() <= r.out.len());
    if i < n - 1 {
        law_outline_lists_every_entry(entries, lang, max, n - 1, i);
        lemma_grows(q.out, r.out, entry_line(entries[i], 0, lang));
        assert forall|j: int| 0 <= j < entries[i].children.len() implies r.out.contains(
            entry_line(#[trigger] entries[i].children[j], 1, lang),
        ) by {
            lemma_grows(q.out, r.out, entry_line(entries[i].children[j], 1, lang));
        }
        if entries[i].kind == OutlineKind::Module {
            assert forall|j: int, k: int|
                0 <= j < entries[i].children.len() && 0 <= k < entries[i].children[j].children.len()
                implies r.out.contains(
                entry_line(#[trigger] entries[i].children[j].children[k], 2, lang),
            ) by {
                lemma_grows(
                    q.out,
                    r.out,
                    entry_line(entries[i].children[j].children[k], 2, lang),
                );
            }
        }
    }
}

/// The source of every import is named once, and how often it is imported is counted.
pub proof fn law_import_sources_are_named(imports: Seq<Seq<char>>, n: int, s: Seq<char>)
    requires
        0 <= n <= imports.len(),
    ensures
        sources(imports, n).contains(s) <==> exists|i: int|
            0 <= i < n && import_source(#[trigger] imports[i]) == s,
        sources(imports, n).no_duplicates(),
        times(imports, s, n) == imports.take(n).filter(|x: Seq<char>| import_source(x) == s).len(),
    decreases n,
{
    reveal(Seq::filter);
    if n > 0 {
        law_import_sources_are_named(imports, n - 1, s);
        assert(imports.take(n).drop_last() =~= imports.take(n - 1));
        let q = sources(imports, n - 1);
        let r = sources(imports, n);
        if r.contains(s) {
            let k = choose|k: int| 0 <= k < r.len() && r[k] == s;
            if k < q.len() {
                assert(q[k] == s);
            } else {
                assert(import_source(imports[n - 1]) == s);
            }
        }
        if exists|i: int| 0 <= i < n && import_source(#[trigger] imports[i]) == s {
            if q.contains(s) {
                let k = choose|k: int| 0 <= k < q.len() && q[k] == s;
                assert(r[k] == s);
            } else {
                let i = choose|i: int| 0 <= i < n && import_source(#[trigger] imports[i]) == s;
                assert(i == n - 1);
                assert(r[q.len() as int] == s);
            }
        }
        if r.len() > q.len() {
            assert forall|i: int, j: int| 0 <= i < r.len() && 0 <= j < r.len() && i != j implies r[i]
                != r[j] by {
                if i < q.len() && j < q.len() {
                    assert(q[i] != q[j]);
                } else if i < q.len() {
                    assert(q.contains(q[i]));
                } else {
                    assert(q.contains(q[j]));
                }
            }
        }
    } else {
        assert(imports.take(0) =~= Seq::<Seq<char>>::empty());
    }
}

} // verus!
