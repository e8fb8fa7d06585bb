//! Symbols of a file with their hashes, and what became of each between two
//! versions.
use std::collections::hash_map::DefaultHasher;
use std::hash::Hasher;

use vstd::bytes::*;
use vstd::prelude::*;
use vstd::slice::slice_subrange;
use vstd::std_specs::hash::*;
use vstd::string::*;
use vstd::utf8::*;

use crate::lang::outline::{nodes_in, parse_content};
use crate::syntax::{shape, subtree_end, subtree_end_of, NodeRecord, NodeView};
use crate::text::{
    alnum_char, at_text, byte_len, char_width, chars_of, clone_opt, find, find_chars, has, has_text,
    is_alnum, join, join_slices, lemma_byte_len_encoded, lemma_byte_len_take, lemma_find_from, lines,
    lines_of, occurs_at, same_opt, same_text, views,
};
use crate::types::{entries_view, EntryView, Lang, OutlineEntry};

use super::pairing::{
    accounted, pair_symbols, pairings, symbols_view, Grounds, IdentityView, Pairing,
};
use super::{
    changes_view, ChangeType, ChangeTypeView, ChangeView, DiffSymbol, MatchConfidence, SymbolChange,
    SymbolIdentity, SymbolView,
};

verus! {

// ---------------------------------------------------------------------------
// Hashes
// ---------------------------------------------------------------------------

/// What hashing a text writes: its bytes and an end mark.
pub open spec fn text_writes(s: Seq<char>) -> Seq<Seq<u8>> {
    seq![encode_utf8(s), seq![0xffu8]]
}

/// What hashing a run of bytes writes: their number and the bytes.
pub open spec fn bytes_writes(b: Seq<u8>) -> Seq<Seq<u8>> {
    seq![spec_u64_to_le_bytes(b.len() as u64), b]
}

/// The hash of a text.
pub open spec fn text_hash(s: Seq<char>) -> u64 {
    DefaultHasher::spec_finish(text_writes(s))
}

fn write_text(h: &mut DefaultHasher, s: &str)
    ensures
        final(h)@ == old(h)@ + text_writes(s@),
{
    let end: [u8; 1] = [0xff];
    h.write(s.as_bytes());
    h.write(&end);
    assert(end@ =~= seq![0xffu8]);
    assert(h@ =~= old(h)@ + text_writes(s@));
}

fn write_bytes(h: &mut DefaultHasher, b: &[u8])
    ensures
        final(h)@ == old(h)@ + bytes_writes(b@),
{
    let n = u64_to_le_bytes(b.len() as u64);
    h.write(n.as_slice());
    h.write(b);
    assert(h@ =~= old(h)@ + bytes_writes(b@));
}

/// The hash of a text.
pub fn hash_string(s: &str) -> (r: u64)
    ensures
        r == text_hash(s@),
{
    let mut h = DefaultHasher::new();
    write_text(&mut h, s);
    assert(h@ =~= text_writes(s@));
    h.finish()
}

/// The byte is an ASCII white space.
pub open spec fn is_ascii_space(b: u8) -> bool {
    b == 0x20 || b == 0x09 || b == 0x0a || b == 0x0c || b == 0x0d
}

/// The bytes without the white space before them.
pub open spec fn trim_bytes_start(b: Seq<u8>) -> Seq<u8>
    decreases b.len(),
{
    if b.len() > 0 && is_ascii_space(b[0]) {
        trim_bytes_start(b.drop_first())
    } else {
        b
    }
}

/// The bytes without the white space after them.
pub open spec fn trim_bytes_end(b: Seq<u8>) -> Seq<u8>
    decreases b.len(),
{
    if b.len() > 0 && is_ascii_space(b.last()) {
        trim_bytes_end(b.drop_last())
    } else {
        b
    }
}

fn ascii_space(b: u8) -> (r: bool)
    ensures
        r == is_ascii_space(b),
{
    b == 0x20 || b == 0x09 || b == 0x0a || b == 0x0c || b == 0x0d
}

/// The bytes without the white space around them.
pub fn trim_ascii(bytes: &[u8]) -> (r: &[u8])
    ensures
        r@ == trim_bytes_end(trim_bytes_start(bytes@)),
{
    let n: usize = bytes.len();
    let mut a: usize = 0;
    assert(bytes@.subrange(0, n as int) =~= bytes@);
    while a < n && ascii_space(bytes[a])
        invariant
            a <= n,
            n == bytes@.len(),
            trim_bytes_start(bytes@) == trim_bytes_start(bytes@.subrange(a as int, n as int)),
        decreases n - a,
    {
        assert(bytes@.subrange(a as int, n as int).drop_first() =~= bytes@.subrange(
            a + 1,
            n as int,
        ));
        a = a + 1;
    }
    let mut b: usize = n;
    while b > a && ascii_space(bytes[b - 1])
        invariant
            a <= b <= n,
            n == bytes@.len(),
            trim_bytes_end(bytes@.subrange(a as int, n as int)) == trim_bytes_end(
                bytes@.subrange(a as int, b as int),
            ),
        decreases b - a,
    {
        assert(bytes@.subrange(a as int, b as int).drop_last() =~= bytes@.subrange(
            a as int,
            b - 1,
        ));
        b = b - 1;
    }
    slice_subrange(bytes, a, b)
}

// ---------------------------------------------------------------------------
// Names
// ---------------------------------------------------------------------------

/// The character may be part of an identifier.
pub open spec fn is_word(c: char) -> bool {
    is_alnum(c) || c == '_'
}

/// The name stands at `i` as a whole word.
pub open spec fn word_at(s: Seq<char>, name: Seq<char>, i: int) -> bool {
    &&& occurs_at(s, name, i)
    &&& i == 0 || !is_word(s[i - 1])
    &&& i + name.len() >= s.len() || !is_word(s[i + name.len()])
}

/// The first position at or after `i` where the name is a whole word.
pub open spec fn word_from(s: Seq<char>, name: Seq<char>, i: int) -> Option<int>
    decreases s.len() + 1 - i,
{
    if i < 0 || i + name.len() > s.len() {
        None
    } else if word_at(s, name, i) {
        Some(i)
    } else {
        word_from(s, name, i + 1)
    }
}

/// Where the name stands in the source: as a whole word, or else anywhere.
pub open spec fn name_pos(s: Seq<char>, name: Seq<char>) -> Option<int> {
    match word_from(s, name, 0) {
        Some(i) => Some(i),
        None => find(s, name),
    }
}

/// The bytes of the source that hold the name.
pub open spec fn name_range(s: Seq<char>, name: Seq<char>) -> Option<(int, int)> {
    if name.len() == 0 {
        None
    } else {
        match name_pos(s, name) {
            Some(i) => Some(
                (byte_len(s.take(i)) as int, byte_len(s.take(i + name.len())) as int),
            ),
            None => None,
        }
    }
}

/// The number of bytes before position `i`.
fn byte_offset(s: &[char], i: usize) -> (r: usize)
    requires
        i <= s@.len(),
        byte_len(s@) <= usize::MAX,
    ensures
        r == byte_len(s@.take(i as int)),
{
    let mut r: usize = 0;
    let mut k: usize = 0;
    while k < i
        invariant
            k <= i <= s@.len(),
            byte_len(s@) <= usize::MAX,
            r == byte_len(s@.take(k as int)),
        decreases i - k,
    {
        proof {
            lemma_byte_len_take(s@, k + 1);
            assert(s@.take(k + 1).drop_last() =~= s@.take(k as int));
        }
        r = r + char_width(s[k]);
        k = k + 1;
    }
    r
}

fn word_char(c: char) -> (r: bool)
    ensures
        r == is_word(c),
{
    alnum_char(c) || c == '_'
}

/// What an optional range of bytes is.
pub open spec fn opt_range(r: Option<(usize, usize)>) -> Option<(int, int)> {
    match r {
        Some((a, b)) => Some((a as int, b as int)),
        None => None,
    }
}

/// The bytes of the source that hold the name.
pub fn find_name_range(source: &str, name: &str) -> (r: Option<(usize, usize)>)
    ensures
        opt_range(r) == name_range(source@, name@),
{
    proof {
        lemma_byte_len_encoded(source@);
        lemma_find_from(source@, name@, 0);
    }
    let s = chars_of(source);
    let p = chars_of(name);
    let bytes: usize = source.as_bytes().len();
    let n: usize = s.len();
    let k: usize = p.len();
    if k == 0 {
        return None;
    }
    if k <= n {
        let mut i: usize = 0;
        while i <= n - k
            invariant
                0 < k <= n,
                i <= n - k + 1,
                n == s@.len(),
                k == p@.len(),
                s@ == source@,
                p@ == name@,
                byte_len(s@) == bytes,
                word_from(s@, p@, 0) == word_from(s@, p@, i as int),
            decreases n - k + 1 - i,
        {
            if at_text(s.as_slice(), p.as_slice(), i) && (i == 0 || !word_char(s[i - 1])) && (i
                + k >= n || !word_char(s[i + k])) {
                return Some((byte_offset(s.as_slice(), i), byte_offset(s.as_slice(), i + k)));
            }
            i = i + 1;
        }
    }
    match find_chars(s.as_slice(), p.as_slice(), 0) {
        Some(i) => Some((byte_offset(s.as_slice(), i), byte_offset(s.as_slice(), i + k))),
        None => None,
    }
}

// ---------------------------------------------------------------------------
// Structure
// ---------------------------------------------------------------------------

/// The bytes between two offsets, none unless both are in range and in order.
pub open spec fn byte_range(src: Seq<u8>, a: int, b: int) -> Seq<u8> {
    if 0 <= a <= b <= src.len() {
        src.subrange(a, b)
    } else {
        Seq::empty()
    }
}

/// The node has no children.
pub open spec fn is_leaf(t: Seq<NodeView>, i: int) -> bool {
    i + 1 >= t.len() || t[i + 1].depth <= t[i].depth
}

/// The node shares bytes with the range.
pub open spec fn overlaps(n: NodeView, range: Option<(int, int)>) -> bool {
    match range {
        Some((a, b)) => n.start_byte < b && n.end_byte > a,
        None => false,
    }
}

/// What node `i` itself adds to the structure: its kind and, for a leaf outside
/// the name, its text.
pub open spec fn own_writes(
    t: Seq<NodeView>,
    src: Seq<u8>,
    name: Option<(int, int)>,
    i: int,
) -> Seq<Seq<u8>> {
    if is_leaf(t, i) && !overlaps(t[i], name) {
        text_writes(t[i].kind) + bytes_writes(
            trim_bytes_end(trim_bytes_start(byte_range(src, t[i].start_byte, t[i].end_byte))),
        )
    } else {
        text_writes(t[i].kind)
    }
}

/// What the nodes from `i` on add to the structure; comments and what is in them
/// add nothing.
pub open spec fn structure_writes(
    t: Seq<NodeView>,
    src: Seq<u8>,
    name: Option<(int, int)>,
    i: int,
) -> Seq<Seq<u8>>
    decreases t.len() - i,
{
    if i < 0 || i >= t.len() {
        Seq::empty()
    } else if has(t[i].kind, "comment"@) {
        let e = subtree_end(t, i);
        if i < e <= t.len() {
            structure_writes(t, src, name, e)
        } else {
            Seq::empty()
        }
    } else {
        own_writes(t, src, name, i) + structure_writes(t, src, name, i + 1)
    }
}

/// The hash of the structure of a symbol: its syntax without comments and without
/// its name. Without a syntax tree it is that of the text.
pub open spec fn structure_hash(source: Seq<char>, name: Seq<char>, lang: Lang) -> u64 {
    match nodes_in(source, lang) {
        Some(t) => DefaultHasher::spec_finish(
            structure_writes(t, encode_utf8(source), name_range(source, name), 0),
        ),
        None => text_hash(source),
    }
}

/// Sources with one syntax tree that differ only in the bytes of the name have one
/// structure.
pub proof fn law_structure_ignores_name(
    t: Seq<NodeView>,
    a: Seq<u8>,
    b: Seq<u8>,
    name: (int, int),
    i: int,
)
    requires
        a.len() == b.len(),
        forall|k: int|
            0 <= k < a.len() && !(name.0 <= k < name.1) ==> #[trigger] a[k] == #[trigger] b[k],
    ensures
        structure_writes(t, a, Some(name), i) == structure_writes(t, b, Some(name), i),
    decreases t.len() - i,
{
    if 0 <= i < t.len() {
        if has(t[i].kind, "comment"@) {
            let e = subtree_end(t, i);
            if i < e <= t.len() {
                law_structure_ignores_name(t, a, b, name, e);
            }
        } else {
            law_structure_ignores_name(t, a, b, name, i + 1);
            if is_leaf(t, i) && !overlaps(t[i], Some(name)) {
                assert(byte_range(a, t[i].start_byte, t[i].end_byte) =~= byte_range(
                    b,
                    t[i].start_byte,
                    t[i].end_byte,
                ));
            }
        }
    }
}

/// Hashes the nodes without comments and without the text in the name range.
fn walk_ast_for_hash(
    nodes: &[NodeRecord],
    source: &[u8],
    name: Option<(usize, usize)>,
    h: &mut DefaultHasher,
)
    ensures
        final(h)@ == old(h)@ + structure_writes(shape(nodes@), source@, opt_range(name), 0),
{
    let ghost t = shape(nodes@);
    let ghost r = opt_range(name);
    let n: usize = nodes.len();
    let mut i: usize = 0;
    while i < n
        invariant
            i <= n,
            n == nodes@.len(),
            t == shape(nodes@),
            r == opt_range(name),
            h@ + structure_writes(t, source@, r, i as int) == old(h)@ + structure_writes(
                t,
                source@,
                r,
                0,
            ),
        decreases n - i,
    {
        let node = &nodes[i];
        assert(t[i as int] == node@);
        let kind = chars_of(node.kind.as_str());
        if has_text(kind.as_slice(), "comment") {
            i = subtree_end_of(nodes, i);
        } else {
            let ghost before = h@;
            write_text(h, node.kind.as_str());
            let leaf = i + 1 >= n || nodes[i + 1].depth <= node.depth;
            assert(leaf == is_leaf(t, i as int));
            let named = match name {
                Some((a, b)) => node.start_byte < b && node.end_byte > a,
                None => false,
            };
            if leaf && !named {
                let empty: &[u8] = &[];
                assert(empty@ =~= Seq::<u8>::empty());
                let text = if node.start_byte <= node.end_byte && node.end_byte <= source.len() {
                    slice_subrange(source, node.start_byte, node.end_byte)
                } else {
                    empty
                };
                write_bytes(h, trim_ascii(text));
            }
            proof {
                let own = own_writes(t, source@, r, i as int);
                let rest = structure_writes(t, source@, r, i + 1);
                assert(h@ =~= before + own);
                assert(before + (own + rest) =~= (before + own) + rest);
            }
            i = i + 1;
        }
    }
    assert(h@ + Seq::<Seq<u8>>::empty() =~= h@);
}

/// The hash of the structure of a symbol.
pub fn compute_structural_hash(source: &str, symbol_name: &str, lang: Lang) -> (r: u64)
    ensures
        r == structure_hash(source@, symbol_name@, lang),
{
    match parse_content(source, lang) {
        Some(nodes) => {
            let range = find_name_range(source, symbol_name);
            let mut h = DefaultHasher::new();
            walk_ast_for_hash(nodes.as_slice(), source.as_bytes(), range, &mut h);
            assert(h@ =~= structure_writes(
                shape(nodes@),
                encode_utf8(source@),
                opt_range(range),
                0,
            ));
            h.finish()
        },
        None => hash_string(source),
    }
}

// ---------------------------------------------------------------------------
// Symbols
// ---------------------------------------------------------------------------

/// The lines from `start` to `end`, both counted from one, as far as there are
/// any.
pub open spec fn source_between(lines: Seq<Seq<char>>, start: u32, end: u32) -> Seq<char> {
    let a: int = if start > 0 {
        start - 1
    } else {
        0
    };
    let b: int = if end < lines.len() {
        end as int
    } else {
        lines.len() as int
    };
    if a >= b {
        Seq::empty()
    } else {
        join(lines.subrange(a, b), "\n"@)
    }
}

/// The lines from `start_line` to `end_line`.
pub fn extract_source(lines: &[&[char]], start_line: u32, end_line: u32) -> (r: String)
    ensures
        r@ == source_between(views(lines@), start_line, end_line),
{
    let n: usize = lines.len();
    let a: usize = if start_line > 0 {
        (start_line - 1) as usize
    } else {
        0
    };
    let b: usize = if (end_line as usize) < n {
        end_line as usize
    } else {
        n
    };
    if a >= b {
        return String::new();
    }
    let part = slice_subrange(lines, a, b);
    assert(views(part@) =~= views(lines@).subrange(a as int, b as int));
    join_slices(part, "\n")
}

/// The path of what is inside an entry.
pub open spec fn child_path(parent: Seq<char>, name: Seq<char>) -> Seq<char> {
    if parent.len() == 0 {
        name
    } else {
        parent + "::"@ + name
    }
}

/// The entry without its children.
pub open spec fn childless(e: EntryView) -> EntryView {
    EntryView { children: Seq::empty(), ..e }
}

/// The symbol of an entry.
pub open spec fn symbol_of(
    e: EntryView,
    lines: Seq<Seq<char>>,
    lang: Lang,
    parent: Seq<char>,
) -> SymbolView {
    let source = source_between(lines, e.start_line, e.end_line);
    SymbolView {
        entry: childless(e),
        identity: IdentityView { kind: e.kind, parent_path: parent, name: e.name },
        content_hash: text_hash(source),
        structural_hash: structure_hash(source, e.name, lang),
        source_text: source,
    }
}

/// The symbols of an entry and of all inside it.
pub open spec fn entry_symbols(
    e: EntryView,
    lines: Seq<Seq<char>>,
    lang: Lang,
    parent: Seq<char>,
) -> Seq<SymbolView>
    decreases e, 0int,
{
    seq![symbol_of(e, lines, lang, parent)] + symbols_of(
        e.children,
        lines,
        lang,
        child_path(parent, e.name),
    )
}

/// The symbols of the entries, each followed by those inside it.
pub open spec fn symbols_of(
    entries: Seq<EntryView>,
    lines: Seq<Seq<char>>,
    lang: Lang,
    parent: Seq<char>,
) -> Seq<SymbolView>
    decreases entries, 1int,
{
    if entries.len() == 0 {
        Seq::empty()
    } else {
        symbols_of(entries.drop_last(), lines, lang, parent) + entry_symbols(
            entries[entries.len() - 1],
            lines,
            lang,
            parent,
        )
    }
}

/// The entry without its children.
pub fn clone_entry_shallow(entry: &OutlineEntry) -> (r: OutlineEntry)
    ensures
        r@ == childless(entry@),
{
    let r = OutlineEntry {
        kind: entry.kind,
        name: entry.name.clone(),
        start_line: entry.start_line,
        end_line: entry.end_line,
        signature: clone_opt(&entry.signature),
        children: Vec::new(),
        doc: clone_opt(&entry.doc),
    };
    assert(r@.children =~= Seq::<EntryView>::empty());
    r
}

fn build_symbols_recursive(
    entries: &[OutlineEntry],
    lines: &[&[char]],
    lang: Lang,
    parent_path: &str,
    out: &mut Vec<DiffSymbol>,
)
    ensures
        symbols_view(final(out)@) == symbols_view(old(out)@) + symbols_of(
            entries_view(entries@),
            views(lines@),
            lang,
            parent_path@,
        ),
    decreases entries_view(entries@),
{
    let ghost es = entries_view(entries@);
    let ghost l = views(lines@);
    let ghost start = symbols_view(out@);
    let mut k: usize = 0;
    assert(start + symbols_of(es.take(0), l, lang, parent_path@) =~= start);
    while k < entries.len()
        invariant
            k <= entries@.len(),
            es == entries_view(entries@),
            l == views(lines@),
            symbols_view(out@) == start + symbols_of(es.take(k as int), l, lang, parent_path@),
        decreases entries@.len() - k,
    {
        let e = &entries[k];
        let ghost before = symbols_view(out@);
        let source = extract_source(lines, e.start_line, e.end_line);
        let content_hash: u64 = hash_string(source.as_str());
        let structural_hash: u64 = compute_structural_hash(source.as_str(), e.name.as_str(), lang);
        let sym = DiffSymbol {
            entry: clone_entry_shallow(e),
            identity: SymbolIdentity {
                kind: e.kind,
                parent_path: parent_path.to_owned(),
                name: e.name.clone(),
            },
            content_hash,
            structural_hash,
            source_text: source,
        };
        let ghost own = sym@;
        assert(own == symbol_of(e@, l, lang, parent_path@));
        out.push(sym);
        assert(symbols_view(out@) =~= before.push(own));
        proof {
            crate::types::lemma_children(*e);
            assert(es[k as int] == e@);
            assert(decreases_to!(es => es[k as int]));
            assert(decreases_to!(es[k as int] => es[k as int].children));
        }
        let mut child = String::new();
        if parent_path.is_empty() {
            child.append(e.name.as_str());
        } else {
            child.append(parent_path);
            child.append("::");
            child.append(e.name.as_str());
        }
        assert(child@ =~= child_path(parent_path@, e.name@));
        build_symbols_recursive(e.children.as_slice(), lines, lang, child.as_str(), out);
        proof {
            let inner = symbols_of(e@.children, l, lang, child@);
            let t = es.take(k + 1);
            assert(t.drop_last() =~= es.take(k as int));
            assert(t[t.len() - 1] == e@);
            assert(entry_symbols(e@, l, lang, parent_path@) == seq![own] + inner);
            assert(symbols_of(t, l, lang, parent_path@) == symbols_of(
                es.take(k as int),
                l,
                lang,
                parent_path@,
            ) + entry_symbols(e@, l, lang, parent_path@));
            assert(symbols_view(out@) =~= start + symbols_of(t, l, lang, parent_path@));
        }
        k = k + 1;
    }
    assert(es.take(entries@.len() as int) =~= es);
}

/// The symbols of an outline, with their hashes.
pub fn build_diff_symbols(entries: &[OutlineEntry], content: &str, lang: Lang) -> (r: Vec<DiffSymbol>)
    ensures
        symbols_view(r@) == symbols_of(entries_view(entries@), lines(content@), lang, Seq::empty()),
{
    let text = chars_of(content);
    let lines = lines_of(text.as_slice());
    let mut out: Vec<DiffSymbol> = Vec::new();
    let root = String::new();
    build_symbols_recursive(entries, lines.as_slice(), lang, root.as_str(), &mut out);
    assert(root@ =~= Seq::<char>::empty());
    assert(symbols_view(out@) =~= symbols_of(
        entries_view(entries@),
        views(lines@),
        lang,
        Seq::empty(),
    ));
    out
}

// ---------------------------------------------------------------------------
// Changes
// ---------------------------------------------------------------------------

/// The number of lines that an entry takes.
pub open spec fn span(e: EntryView) -> u32 {
    let d: int = if e.end_line >= e.start_line {
        e.end_line - e.start_line
    } else {
        0
    };
    if d < u32::MAX {
        (d + 1) as u32
    } else {
        u32::MAX
    }
}

fn span_of(e: &OutlineEntry) -> (r: u32)
    ensures
        r == span(e@),
{
    e.end_line.saturating_sub(e.start_line).saturating_add(1)
}

/// What became of a symbol that has its counterpart.
pub open spec fn paired_change(o: SymbolView, n: SymbolView, g: Grounds) -> ChangeView {
    let (change, confidence, sigs) = match g {
        Grounds::Structure => (
            ChangeTypeView::Renamed { old_name: o.identity.name },
            MatchConfidence::Structure,
            true,
        ),
        Grounds::Similar(score) => (
            if o.identity.name == n.identity.name {
                ChangeTypeView::BodyChanged
            } else {
                ChangeTypeView::Renamed { old_name: o.identity.name }
            },
            MatchConfidence::Fuzzy(score),
            true,
        ),
        _ => if o.content_hash == n.content_hash {
            (ChangeTypeView::Unchanged, MatchConfidence::Exact, false)
        } else if o.entry.signature != n.entry.signature {
            (ChangeTypeView::SignatureChanged, MatchConfidence::Exact, true)
        } else {
            (ChangeTypeView::BodyChanged, MatchConfidence::Exact, false)
        },
    };
    ChangeView {
        name: n.identity.name,
        kind: n.identity.kind,
        change,
        match_confidence: confidence,
        line: n.entry.start_line,
        old_sig: if sigs {
            o.entry.signature
        } else {
            None
        },
        new_sig: if sigs {
            n.entry.signature
        } else {
            None
        },
        size_delta: Some((span(o.entry), span(n.entry))),
    }
}

/// What became of a symbol without a counterpart.
pub open spec fn lone_change(s: SymbolView, added: bool, g: Grounds) -> ChangeView {
    ChangeView {
        name: s.identity.name,
        kind: s.identity.kind,
        change: if added {
            ChangeTypeView::Added
        } else {
            ChangeTypeView::Deleted
        },
        match_confidence: match g {
            Grounds::Ambiguous(n) => MatchConfidence::Ambiguous(n),
            _ => MatchConfidence::Exact,
        },
        line: s.entry.start_line,
        old_sig: if added {
            None
        } else {
            s.entry.signature
        },
        new_sig: if added {
            s.entry.signature
        } else {
            None
        },
        size_delta: None,
    }
}

/// What became of the symbols of a pairing.
pub open spec fn change_of(old: Seq<SymbolView>, new: Seq<SymbolView>, p: Pairing) -> ChangeView {
    match (p.old, p.new) {
        (Some(o), Some(n)) => paired_change(old[o as int], new[n as int], p.grounds),
        (None, Some(n)) => lone_change(new[n as int], true, p.grounds),
        (Some(o), None) => lone_change(old[o as int], false, p.grounds),
        (None, None) => arbitrary(),
    }
}

/// What became of each symbol.
pub open spec fn changes(old: Seq<SymbolView>, new: Seq<SymbolView>) -> Seq<ChangeView> {
    pairings(old, new).map_values(|p: Pairing| change_of(old, new, p))
}

fn paired_change_of(o: &DiffSymbol, n: &DiffSymbol, g: Grounds) -> (r: SymbolChange)
    ensures
        r@ == paired_change(o@, n@, g),
{
    let mut sigs = true;
    let mut confidence = MatchConfidence::Exact;
    let change = match g {
        Grounds::Structure => {
            confidence = MatchConfidence::Structure;
            ChangeType::Renamed { old_name: o.identity.name.clone() }
        },
        Grounds::Similar(score) => {
            confidence = MatchConfidence::Fuzzy(score);
            if same_text(o.identity.name.as_str(), n.identity.name.as_str()) {
                ChangeType::BodyChanged
            } else {
                ChangeType::Renamed { old_name: o.identity.name.clone() }
            }
        },
        _ => {
            if o.content_hash == n.content_hash {
                sigs = false;
                ChangeType::Unchanged
            } else if !same_opt(&o.entry.signature, &n.entry.signature) {
                ChangeType::SignatureChanged
            } else {
                sigs = false;
                ChangeType::BodyChanged
            }
        },
    };
    SymbolChange {
        name: n.identity.name.clone(),
        kind: n.identity.kind,
        change,
        match_confidence: confidence,
        line: n.entry.start_line,
        old_sig: if sigs {
            clone_opt(&o.entry.signature)
        } else {
            None
        },
        new_sig: if sigs {
            clone_opt(&n.entry.signature)
        } else {
            None
        },
        size_delta: Some((span_of(&o.entry), span_of(&n.entry))),
    }
}

fn lone_change_of(s: &DiffSymbol, added: bool, g: Grounds) -> (r: SymbolChange)
    ensures
        r@ == lone_change(s@, added, g),
{
    SymbolChange {
        name: s.identity.name.clone(),
        kind: s.identity.kind,
        change: if added {
            ChangeType::Added
        } else {
            ChangeType::Deleted
        },
        match_confidence: match g {
            Grounds::Ambiguous(n) => MatchConfidence::Ambiguous(n),
            _ => MatchConfidence::Exact,
        },
        line: s.entry.start_line,
        old_sig: if added {
            None
        } else {
            clone_opt(&s.entry.signature)
        },
        new_sig: if added {
            clone_opt(&s.entry.signature)
        } else {
            None
        },
        size_delta: None,
    }
}

/// What became of each symbol between two versions. Every symbol of either
/// version is accounted for exactly once.
pub fn match_symbols(old: &[DiffSymbol], new: &[DiffSymbol]) -> (r: Vec<SymbolChange>)
    ensures
        changes_view(r@) == changes(symbols_view(old@), symbols_view(new@)),
        accounted(
            pairings(symbols_view(old@), symbols_view(new@)),
            old@.len() as int,
            new@.len() as int,
        ),
{
    let ghost so = symbols_view(old@);
    let ghost sn = symbols_view(new@);
    let p = pair_symbols(old, new);
    let mut r: Vec<SymbolChange> = Vec::new();
    let mut k: usize = 0;
    while k < p.len()
        invariant
            k <= p@.len(),
            so == symbols_view(old@),
            sn == symbols_view(new@),
            accounted(p@, old@.len() as int, new@.len() as int),
            r@.len() == k,
            forall|j: int| 0 <= j < k ==> (#[trigger] r@[j])@ == change_of(so, sn, p@[j]),
        decreases p@.len() - k,
    {
        let q = p[k];
        assert(p@[k as int] == q);
        match (q.old, q.new) {
            (Some(o), Some(n)) => {
                assert(so[o as int] == old@[o as int]@);
                assert(sn[n as int] == new@[n as int]@);
                r.push(paired_change_of(&old[o], &new[n], q.grounds));
            },
            (None, Some(n)) => {
                assert(sn[n as int] == new@[n as int]@);
                r.push(lone_change_of(&new[n], true, q.grounds));
            },
            (Some(o), None) => {
                assert(so[o as int] == old@[o as int]@);
                r.push(lone_change_of(&old[o], false, q.grounds));
            },
            (None, None) => {
                assert(false);
            },
        }
        k = k + 1;
    }
    assert(changes_view(r@) =~= changes(so, sn));
    r
}

/// The source of a symbol holds every line of its range, whole and in order, as far as
/// there are lines.
pub proof fn law_source_holds_every_line(l: Seq<Seq<char>>, a: u32, b: u32)
    requires
        1 <= a <= b,
        a <= l.len(),
        forall|i: int| 0 <= i < l.len() ==> !(#[trigger] l[i]).contains('\n'),
    ensures
        b <= l.len() ==> crate::text::split(source_between(l, a, b), '\n') == l.subrange(
            a - 1,
            b as int,
        ),
        b > l.len() ==> crate::text::split(source_between(l, a, b), '\n') == l.subrange(
            a - 1,
            l.len() as int,
        ),
{
    reveal_strlit("\n");
    assert("\n"@ =~= seq!['\n']);
    let end = if b <= l.len() {
        b as int
    } else {
        l.len() as int
    };
    let part = l.subrange(a - 1, end);
    assert forall|i: int| 0 <= i < part.len() implies !(#[trigger] part[i]).contains('\n') by {
        assert(part[i] == l[a - 1 + i]);
    }
    crate::text::law_split_undoes_join(part, '\n');
}

/// Two ranges of lines that differ in any line, or in their number of lines, have
/// different sources.
pub proof fn law_sources_tell_lines_apart(
    l: Seq<Seq<char>>,
    a: u32,
    b: u32,
    m: Seq<Seq<char>>,
    c: u32,
    d: u32,
)
    requires
        1 <= a <= b <= l.len(),
        1 <= c <= d <= m.len(),
        forall|i: int| 0 <= i < l.len() ==> !(#[trigger] l[i]).contains('\n'),
        forall|i: int| 0 <= i < m.len() ==> !(#[trigger] m[i]).contains('\n'),
        l.subrange(a - 1, b as int) != m.subrange(c - 1, d as int),
    ensures
        source_between(l, a, b) != source_between(m, c, d),
{
    law_source_holds_every_line(l, a, b);
    law_source_holds_every_line(m, c, d);
}

/// What is hashed of a text tells it from every other text.
pub proof fn law_hashed_bytes_tell_texts_apart(s: Seq<char>, t: Seq<char>)
    requires
        text_writes(s) == text_writes(t),
    ensures
        s == t,
{
    assert(text_writes(s)[0] == text_writes(t)[0]);
    encode_utf8_decode_utf8(s);
    encode_utf8_decode_utf8(t);
}

/// Every entry of an outline has its symbol, whatever its depth: an entry is known by
/// its kind, its name and the names of the entries around it, and the symbol carries
/// the source of its lines and the hash of that.
pub proof fn law_every_entry_has_a_symbol(
    entries: Seq<EntryView>,
    lines: Seq<Seq<char>>,
    lang: Lang,
    parent: Seq<char>,
    i: int,
)
    requires
        0 <= i < entries.len(),
    ensures
        exists|s: SymbolView| #[trigger]
            symbols_of(entries, lines, lang, parent).contains(s) && s.identity.kind
                == entries[i].kind && s.identity.name == entries[i].name && s.identity.parent_path
                == parent && s.entry.start_line == entries[i].start_line && s.entry.end_line
                == entries[i].end_line && s.entry.signature == entries[i].signature && s.source_text
                == source_between(lines, entries[i].start_line, entries[i].end_line)
                && s.content_hash == text_hash(s.source_text),
        forall|s: SymbolView|
            symbols_of(
                entries[i].children,
                lines,
                lang,
                if parent.len() == 0 {
                    entries[i].name
                } else {
                    parent + "::"@ + entries[i].name
                },
            ).contains(s) ==> #[trigger] symbols_of(entries, lines, lang, parent).contains(s),
        symbols_of(entries, lines, lang, parent).len() >= entries.len(),
    decreases entries.len(),
{
    let t = entries.drop_last();
    let e = entries[entries.len() - 1];
    let q = symbols_of(t, lines, lang, parent);
    let own = entry_symbols(e, lines, lang, parent);
    let r = symbols_of(entries, lines, lang, parent);
    assert(r == q + own);
    let kids = symbols_of(e.children, lines, lang, child_path(parent, e.name));
    assert(own == seq![symbol_of(e, lines, lang, parent)] + kids);
    if t.len() > 0 {
        law_every_entry_has_a_symbol(t, lines, lang, parent, 0);
    }
    assert forall|s: SymbolView| q.contains(s) implies #[trigger] r.contains(s) by {
        let k = choose|k: int| 0 <= k < q.len() && q[k] == s;
        assert(r[k] == s);
    }
    if i < t.len() {
        law_every_entry_has_a_symbol(t, lines, lang, parent, i);
        assert(t[i] == entries[i]);
        let s = choose|s: SymbolView| #[trigger]
            q.contains(s) && s.identity.kind == t[i].kind && s.identity.name == t[i].name
                && s.identity.parent_path == parent && s.entry.start_line == t[i].start_line
                && s.entry.end_line == t[i].end_line && s.entry.signature == t[i].signature
                && s.source_text == source_between(lines, t[i].start_line, t[i].end_line)
                && s.content_hash == text_hash(s.source_text);
        assert(r.contains(s));
    } else {
        assert(r[q.len() as int] == symbol_of(e, lines, lang, parent));
        assert(r.contains(symbol_of(e, lines, lang, parent)));
        assert forall|s: SymbolView| kids.contains(s) implies #[trigger] r.contains(s) by {
            let k = choose|k: int| 0 <= k < kids.len() && kids[k] == s;
            assert(r[q.len() + 1 + k] == s);
        }
    }
}

/// A symbol that keeps its kind, parent and name is reported as unchanged exactly if
/// its text hashes as before; else as a change of the signature if that differs, and as
/// a change of the body if not.
pub proof fn law_edits_are_reported(
    old: Seq<SymbolView>,
    new: Seq<SymbolView>,
    o: int,
    n: int,
)
    requires
        old.len() <= usize::MAX,
        new.len() <= usize::MAX,
        0 <= o < old.len(),
        0 <= n < new.len(),
        old[o].identity == new[n].identity,
        crate::groups::occurrences(super::pairing::identities(old).take(o), old[o].identity)
            == crate::groups::occurrences(
            super::pairing::identities(new).take(n),
            new[n].identity,
        ),
    ensures
        exists|c: ChangeView| #[trigger]
            changes(old, new).contains(c) && c.name == new[n].identity.name && c.kind
                == new[n].identity.kind && c.line == new[n].entry.start_line && (c.change
                == ChangeTypeView::Unchanged <==> old[o].content_hash == new[n].content_hash) && (
            old[o].content_hash != new[n].content_hash && old[o].entry.signature
                != new[n].entry.signature ==> c.change == ChangeTypeView::SignatureChanged
                && c.old_sig == old[o].entry.signature && c.new_sig == new[n].entry.signature) && (
            old[o].content_hash != new[n].content_hash && old[o].entry.signature
                == new[n].entry.signature ==> c.change == ChangeTypeView::BodyChanged)
                && c.match_confidence == MatchConfidence::Exact,
{
    super::pairing::law_same_identity_is_paired(old, new, o, n);
    let q = Pairing { old: Some(o as usize), new: Some(n as usize), grounds: Grounds::Identity };
    let p = pairings(old, new);
    let k = choose|k: int| 0 <= k < p.len() && p[k] == q;
    assert(changes(old, new)[k] == change_of(old, new, q));
    assert(changes(old, new).contains(change_of(old, new, q)));
}

/// Every symbol is reported: each new one under its name, at its line, and each old one
/// that has no counterpart as deleted. What has no counterpart of its kind is added or
/// deleted.
pub proof fn law_every_symbol_is_reported(old: Seq<SymbolView>, new: Seq<SymbolView>)
    requires
        old.len() <= usize::MAX,
        new.len() <= usize::MAX,
    ensures
        forall|n: int|
            0 <= n < new.len() ==> exists|c: ChangeView|
                #![trigger changes(old, new).contains(c)]
                changes(old, new).contains(c) && c.name == (#[trigger] new[n]).identity.name
                    && c.kind == new[n].identity.kind && c.line == new[n].entry.start_line
                    && c.change != ChangeTypeView::Deleted && ((forall|o: int|
                    0 <= o < old.len() ==> (#[trigger] old[o]).identity.kind
                        != new[n].identity.kind) ==> c.change == ChangeTypeView::Added),
        forall|o: int|
            0 <= o < old.len() && (forall|n: int|
                0 <= n < new.len() ==> (#[trigger] new[n]).identity.kind
                    != old[o].identity.kind) ==> exists|c: ChangeView|
                #![trigger changes(old, new).contains(c)]
                changes(old, new).contains(c) && c.name == (#[trigger] old[o]).identity.name
                    && c.change == ChangeTypeView::Deleted && c.line == old[o].entry.start_line,
{
    let p = pairings(old, new);
    let all = changes(old, new);
    super::pairing::law_symbols_accounted(old, new);
    assert forall|n: int| 0 <= n < new.len() implies exists|c: ChangeView|
        #![trigger all.contains(c)]
        all.contains(c) && c.name == (#[trigger] new[n]).identity.name && c.kind
            == new[n].identity.kind && c.line == new[n].entry.start_line && c.change
            != ChangeTypeView::Deleted && ((forall|o: int|
            0 <= o < old.len() ==> (#[trigger] old[o]).identity.kind != new[n].identity.kind)
            ==> c.change == ChangeTypeView::Added) by {
        assert(super::pairing::touched_new(p, n));
        let k = choose|k: int|
            0 <= k < p.len() && super::pairing::holds((#[trigger] p[k]).new, n);
        super::pairing::law_pairs_are_justified(old, new, k);
        let c = all[k];
        assert(all.contains(c));
        assert(c == change_of(old, new, p[k]));
        if p[k].old is Some {
            assert(old[p[k].old->0 as int].identity.kind == new[n].identity.kind);
        }
    }
    assert forall|o: int|
        0 <= o < old.len() && (forall|n: int|
            0 <= n < new.len() ==> (#[trigger] new[n]).identity.kind
                != old[o].identity.kind) implies exists|c: ChangeView|
        #![trigger all.contains(c)]
        all.contains(c) && c.name == (#[trigger] old[o]).identity.name && c.change
            == ChangeTypeView::Deleted && c.line == old[o].entry.start_line by {
        assert(super::pairing::touched_old(p, o));
        let k = choose|k: int|
            0 <= k < p.len() && super::pairing::holds((#[trigger] p[k]).old, o);
        super::pairing::law_pairs_are_justified(old, new, k);
        let c = all[k];
        assert(all.contains(c));
        assert(c == change_of(old, new, p[k]));
        if p[k].new is Some {
            assert(new[p[k].new->0 as int].identity.kind == old[o].identity.kind);
        }
    }
}

/// A symbol that was renamed, its structure being kept, is reported under its new name
/// with the old one and both signatures.
pub proof fn law_renames_are_reported(
    old: Seq<SymbolView>,
    new: Seq<SymbolView>,
    o: int,
    n: int,
)
    requires
        old.len() <= usize::MAX,
        new.len() <= usize::MAX,
        0 <= o < old.len(),
        0 <= n < new.len(),
        old[o].identity.kind == new[n].identity.kind,
        old[o].structural_hash == new[n].structural_hash,
        forall|j: int| 0 <= j < new.len() ==> (#[trigger] new[j]).identity != old[o].identity,
        forall|j: int| 0 <= j < old.len() ==> (#[trigger] old[j]).identity != new[n].identity,
        forall|j: int|
            0 <= j < old.len() && j != o ==> (#[trigger] old[j]).structural_hash
                != old[o].structural_hash,
        forall|j: int|
            0 <= j < new.len() && j != n ==> (#[trigger] new[j]).structural_hash
                != new[n].structural_hash,
    ensures
        exists|c: ChangeView| #[trigger]
            changes(old, new).contains(c) && c.name == new[n].identity.name && c.kind
                == new[n].identity.kind && c.line == new[n].entry.start_line && c.change
                == (ChangeTypeView::Renamed { old_name: old[o].identity.name }) && c.old_sig
                == old[o].entry.signature && c.new_sig == new[n].entry.signature
                && c.match_confidence == MatchConfidence::Structure,
{
    super::pairing::law_same_structure_is_paired(old, new, o, n);
    let q = Pairing { old: Some(o as usize), new: Some(n as usize), grounds: Grounds::Structure };
    let p = pairings(old, new);
    let k = choose|k: int| 0 <= k < p.len() && p[k] == q;
    let c = change_of(old, new, q);
    assert(changes(old, new)[k] == c);
    assert(changes(old, new).contains(c));
}

/// The structure of a symbol holds the kind of every node outside of comments, and the
/// text of every leaf among them that is not the name.
pub proof fn law_structure_holds_every_leaf(
    t: Seq<NodeView>,
    src: Seq<u8>,
    name: Option<(int, int)>,
    i: int,
    k: int,
)
    requires
        0 <= i <= k < t.len(),
        forall|j: int|
            i <= j <= k && has((#[trigger] t[j]).kind, "comment"@) ==> subtree_end(t, j) <= k,
    ensures
        structure_writes(t, src, name, i).contains(encode_utf8(t[k].kind)),
        ({
            let a = t[k].start_byte as int;
            let b = t[k].end_byte as int;
            &&& 0 <= a < b <= src.len()
            &&& k + 1 >= t.len() || t[k + 1].depth <= t[k].depth
            &&& name matches Some((x, y)) ==> b <= x || y <= a
            &&& !is_ascii_space(src[a]) && !is_ascii_space(src[b - 1])
        }) ==> structure_writes(t, src, name, i).contains(
            src.subrange(t[k].start_byte as int, t[k].end_byte as int),
        ),
    decreases t.len() - i,
{
    let a = t[k].start_byte as int;
    let b = t[k].end_byte as int;
    let all = structure_writes(t, src, name, i);
    let text = src.subrange(a, b);
    let told = {
        &&& 0 <= a < b <= src.len()
        &&& k + 1 >= t.len() || t[k + 1].depth <= t[k].depth
        &&& name matches Some((x, y)) ==> b <= x || y <= a
        &&& !is_ascii_space(src[a]) && !is_ascii_space(src[b - 1])
    };
    if has(t[i].kind, "comment"@) {
        let e = subtree_end(t, i);
        crate::syntax::lemma_end_from(t, t[i].depth as int, i + 1);
        assert(e <= k);
        law_structure_holds_every_leaf(t, src, name, e, k);
    } else {
        let own = own_writes(t, src, name, i);
        let rest = structure_writes(t, src, name, i + 1);
        if i < k {
            law_structure_holds_every_leaf(t, src, name, i + 1, k);
            lemma_behind(own, rest, encode_utf8(t[k].kind));
            if told {
                lemma_behind(own, rest, text);
            }
        } else {
            assert(all[0] == encode_utf8(t[k].kind));
            if told {
                assert(trim_bytes_start(text) == text);
                assert(trim_bytes_end(text) == text);
                assert(own[3] == text);
                assert(all[3] == text);
            }
        }
    }
}

proof fn lemma_behind(a: Seq<Seq<u8>>, b: Seq<Seq<u8>>, x: Seq<u8>)
    requires
        b.contains(x),
    ensures
        (a + b).contains(x),
{
    let k = choose|k: int| 0 <= k < b.len() && b[k] == x;
    assert((a + b)[a.len() + k] == x);
}

} // verus!
