//! The source of a match, and where it stands in the outline of its file.
use vstd::prelude::*;
use vstd::slice::slice_subrange;
use vstd::string::*;

use crate::read::outline::code::{entry_line, entry_range, indent_text};
use crate::text::{
    byte_len, char_at, chars_of, dec, find_char, has, has_prefix, has_text, is_digit, is_space, join,
    join_strings, law_decimal_round_trip, lemma_char_at, lemma_dec_value, lemma_strs_push, lines,
    lines_of, pad_left, parse_u64, parse_uint, push_aligned, push_chars, push_dec, split, split_on,
    string_of, strs, text_len, trim, trim_end, trim_of, trim_start, views,
};
use crate::types::{estimate_tokens, tokens, EntryView, Lang, Match, MatchView};

use super::bfs_format::{rel, shown};

verus! {

// ---------------------------------------------------------------------------
// Outlines
// ---------------------------------------------------------------------------

/// The lines that an entry such as `[20-115]` or `[16]` stands for, without the
/// brackets.
pub open spec fn bracket_range(s: Seq<char>) -> Option<(u32, u32)> {
    match char_at(s, '-') {
        Some(i) => match parse_uint(trim(s.take(i)), u32::MAX as nat) {
            Some(a) => {
                let b = trim(s.skip(i + 1));
                if b.len() == 0 {
                    Some((a as u32, a as u32))
                } else {
                    match parse_uint(b, u32::MAX as nat) {
                        Some(e) => Some((a as u32, e as u32)),
                        None => None,
                    }
                }
            },
            None => None,
        },
        None => match parse_uint(trim(s), u32::MAX as nat) {
            Some(n) => Some((n as u32, n as u32)),
            None => None,
        },
    }
}

/// The lines that an entry of an outline stands for.
pub open spec fn line_range(line: Seq<char>) -> Option<(u32, u32)> {
    let t = trim(line);
    if t.len() > 0 && t[0] == '[' {
        match char_at(t, ']') {
            Some(e) => bracket_range(t.subrange(1, e)),
            None => None,
        }
    } else {
        None
    }
}

proof fn lemma_trim_start_blanks(b: Seq<char>, s: Seq<char>)
    requires
        forall|i: int| 0 <= i < b.len() ==> is_space(#[trigger] b[i]),
    ensures
        trim_start(b + s) == trim_start(s),
    decreases b.len(),
{
    if b.len() == 0 {
        assert(b + s =~= s);
    } else {
        assert((b + s)[0] == b[0]);
        assert((b + s).drop_first() =~= b.drop_first() + s);
        lemma_trim_start_blanks(b.drop_first(), s);
    }
}

proof fn lemma_trim_end_keeps(p: Seq<char>, s: Seq<char>)
    requires
        p.len() > 0,
        !is_space(p.last()),
    ensures
        p.is_prefix_of(trim_end(p + s)),
    decreases s.len(),
{
    if s.len() == 0 {
        assert(p + s =~= p);
        assert(p =~= p.subrange(0, p.len() as int));
    } else if is_space(s.last()) {
        assert((p + s).drop_last() =~= p + s.drop_last());
        lemma_trim_end_keeps(p, s.drop_last());
    } else {
        assert(p =~= (p + s).subrange(0, p.len() as int));
    }
}

proof fn lemma_indent_blank(n: nat)
    ensures
        forall|i: int| 0 <= i < indent_text(n).len() ==> is_space(#[trigger] indent_text(n)[i]),
    decreases n,
{
    reveal_strlit("  ");
    if n > 0 {
        lemma_indent_blank((n - 1) as nat);
        let r = indent_text((n - 1) as nat);
        assert forall|i: int| 0 <= i < indent_text(n).len() implies is_space(
            #[trigger] indent_text(n)[i],
        ) by {
            if i < r.len() {
                assert(indent_text(n)[i] == r[i]);
            } else {
                assert(indent_text(n)[i] == "  "@[i - r.len()]);
            }
        }
    }
}

/// The notation of a number has no white space, no dash and no bracket.
proof fn lemma_dec_plain(n: nat)
    ensures
        dec(n).len() > 0,
        trim(dec(n)) == dec(n),
        forall|i: int|
            0 <= i < dec(n).len() ==> (#[trigger] dec(n)[i]) != '-' && dec(n)[i] != ']' && dec(n)[i] != '[',
{
    lemma_dec_value(n);
    let d = dec(n);
    assert(is_digit(d[0]));
    assert(is_digit(d[d.len() - 1]));
    assert forall|i: int| 0 <= i < d.len() implies (#[trigger] d[i]) != '-' && d[i] != ']' && d[i] != '[' by {
        assert(is_digit(d[i]));
    }
}

/// The lines that are read from what starts with the lines of an entry are those of the
/// entry, whatever follows and however deep it stands.
pub proof fn law_range_reads_back(e: EntryView, indent: nat, after: Seq<char>)
    ensures
        line_range(indent_text(indent) + entry_range(e) + after) == Some((e.start_line, e.end_line)),
{
    let p = entry_range(e);
    let line = indent_text(indent) + p + after;
    let a = dec(e.start_line as nat);
    let b = dec(e.end_line as nat);
    reveal_strlit("[");
    reveal_strlit("]");
    reveal_strlit("-");
    lemma_dec_plain(e.start_line as nat);
    lemma_dec_plain(e.end_line as nat);
    law_decimal_round_trip(e.start_line as nat, u32::MAX as nat);
    law_decimal_round_trip(e.end_line as nat, u32::MAX as nat);
    lemma_indent_blank(indent);
    assert(line =~= indent_text(indent) + (p + after));
    lemma_trim_start_blanks(indent_text(indent), p + after);
    assert((p + after)[0] == '[');
    lemma_trim_end_keeps(p, after);
    let t = trim(line);
    let last = p.len() - 1;
    assert forall|i: int| 0 <= i < p.len() implies t[i] == #[trigger] p[i] by {
        assert(t.subrange(0, p.len() as int)[i] == t[i]);
    }
    let inner = if e.start_line == e.end_line {
        a
    } else {
        a + "-"@ + b
    };
    assert(p =~= "["@ + inner + "]"@);
    assert(p[0] == '[');
    assert(p[last] == ']');
    assert forall|i: int| 0 <= i < last implies #[trigger] p[i] != ']' by {
        if i > 0 {
            assert(p[i] == inner[i - 1]);
        }
    }
    lemma_char_at(t, ']');
    assert(t[last] == p[last]);
    assert(char_at(t, ']') == Some(last)) by {
        match char_at(t, ']') {
            Some(k) => {
                if k < last {
                    assert(t[k] == p[k]);
                }
            },
            None => {},
        }
    }
    assert(t.subrange(1, last) =~= inner) by {
        assert forall|i: int| 0 <= i < inner.len() implies t.subrange(1, last)[i] == inner[i] by {
            assert(t[i + 1] == p[i + 1]);
        }
    }
    lemma_char_at(inner, '-');
    if e.start_line == e.end_line {
        assert(char_at(inner, '-') is None) by {
            if let Some(k) = char_at(inner, '-') {
                assert(a[k] == '-');
            }
        }
    } else {
        assert(inner[a.len() as int] == '-');
        assert(char_at(inner, '-') == Some(a.len() as int)) by {
            match char_at(inner, '-') {
                Some(k) => {
                    if k < a.len() {
                        assert(inner[k] == a[k]);
                    }
                },
                None => {},
            }
        }
        assert(inner.take(a.len() as int) =~= a);
        assert(inner.skip(a.len() as int + 1) =~= b);
    }
}

/// The lines that are read from the line of an outline entry are those of the entry.
pub proof fn law_entry_range_reads_back(e: EntryView, indent: nat, lang: Lang)
    ensures
        line_range(entry_line(e, indent, lang)) == Some((e.start_line, e.end_line)),
{
    let p = entry_range(e);
    let line = entry_line(e, indent, lang);
    let head = indent_text(indent) + p;
    let after = line.skip(head.len() as int);
    assert(line =~= head + after) by {
        assert forall|i: int| 0 <= i < head.len() implies line[i] == head[i] by {}
    }
    law_range_reads_back(e, indent, after);
}

fn parse_line(s: &[char]) -> (r: Option<u32>)
    ensures
        r matches Some(n) ==> parse_uint(trim(s@), u32::MAX as nat) == Some(n as nat),
        r is None ==> parse_uint(trim(s@), u32::MAX as nat) is None,
{
    match parse_u64(trim_of(s), u32::MAX as u64) {
        Some(n) => Some(n as u32),
        None => None,
    }
}

/// The lines that an entry of an outline stands for.
pub fn extract_line_range(line: &[char]) -> (r: Option<(u32, u32)>)
    ensures
        r == line_range(line@),
{
    let t = trim_of(line);
    let n: usize = t.len();
    if n == 0 || t[0] != '[' {
        return None;
    }
    let e: usize = match find_char(t, ']') {
        Some(e) => e,
        None => {
            return None;
        },
    };
    proof {
        lemma_char_at(t@, ']');
    }
    let s = slice_subrange(t, 1, e);
    let len: usize = s.len();
    match find_char(s, '-') {
        Some(i) => {
            proof {
                lemma_char_at(s@, '-');
                assert(s@.subrange(0, i as int) =~= s@.take(i as int));
                assert(s@.subrange(i + 1, len as int) =~= s@.skip(i + 1));
            }
            let a: u32 = match parse_line(slice_subrange(s, 0, i)) {
                Some(a) => a,
                None => {
                    return None;
                },
            };
            let tail = slice_subrange(s, i + 1, len);
            if trim_of(tail).len() == 0 {
                return Some((a, a));
            }
            match parse_line(tail) {
                Some(b) => Some((a, b)),
                None => None,
            }
        },
        None => match parse_line(s) {
            Some(a) => Some((a, a)),
            None => None,
        },
    }
}

/// The entry stands for the line among others.
pub open spec fn covers(entry: Seq<char>, line: u32) -> bool {
    line_range(entry) matches Some((s, e)) && s <= line <= e
}

/// The first entry from `i` on that stands for the line.
pub open spec fn covering(entries: Seq<Seq<char>>, line: u32, i: int) -> Option<int>
    decreases entries.len() - i,
{
    if i < 0 || i >= entries.len() {
        None
    } else if covers(entries[i], line) {
        Some(i)
    } else {
        covering(entries, line, i + 1)
    }
}

/// The entry of the outline that stands for the line.
pub open spec fn enclosing_idx(outline: Option<Seq<char>>, line: u32) -> Option<int> {
    match outline {
        Some(o) => covering(lines(o), line, 0),
        None => None,
    }
}

fn find_covering(entries: &[&[char]], line: u32) -> (r: Option<usize>)
    ensures
        r matches Some(i) ==> i < entries@.len() && covering(views(entries@), line, 0) == Some(
            i as int,
        ),
        r is None ==> covering(views(entries@), line, 0) is None,
{
    let ghost v = views(entries@);
    let mut i: usize = 0;
    while i < entries.len()
        invariant
            i <= entries@.len(),
            v == views(entries@),
            covering(v, line, 0) == covering(v, line, i as int),
        decreases entries@.len() - i,
    {
        assert(v[i as int] == entries@[i as int]@);
        if let Some((s, e)) = extract_line_range(entries[i]) {
            if s <= line && line <= e {
                return Some(i);
            }
        }
        i = i + 1;
    }
    None
}

/// The entry of the outline that stands for the line.
pub fn find_enclosing_outline_idx(outline: &Option<String>, match_line: u32) -> (r: Option<usize>)
    ensures
        match r {
            Some(i) => enclosing_idx(crate::text::opt_text(*outline), match_line) == Some(i as int),
            None => enclosing_idx(crate::text::opt_text(*outline), match_line) is None,
        },
{
    match outline {
        Some(o) => {
            let s = chars_of(o.as_str());
            let entries = lines_of(s.as_slice());
            find_covering(entries.as_slice(), match_line)
        },
        None => None,
    }
}

/// The entries from `first` up to `n`, the one at `at` marked.
pub open spec fn context_rows(entries: Seq<Seq<char>>, at: int, first: int, n: int) -> Seq<char>
    decreases n - first,
{
    if n <= first {
        Seq::empty()
    } else {
        context_rows(entries, at, first, n - 1) + (if n - 1 == at {
            "\n→ "@
        } else {
            "\n  "@
        }) + entries[n - 1]
    }
}

/// The entry of the outline that stands for the line, with two before and two after.
pub open spec fn outline_context(outline: Option<Seq<char>>, line: u32) -> Option<Seq<char>> {
    match enclosing_idx(outline, line) {
        Some(at) => {
            let entries = lines(outline->0);
            let first = if at > 2 {
                at - 2
            } else {
                0
            };
            let last = if at + 3 < entries.len() {
                at + 3
            } else {
                entries.len() as int
            };
            Some(context_rows(entries, at, first, last))
        },
        None => None,
    }
}

/// The entry of the outline that stands for the line, with two before and two after.
pub fn outline_context_for_match(outline: &Option<String>, match_line: u32) -> (r: Option<String>)
    ensures
        crate::text::opt_text(r) == outline_context(crate::text::opt_text(*outline), match_line),
{
    let o = match outline {
        Some(o) => o,
        None => {
            return None;
        },
    };
    let s = chars_of(o.as_str());
    let entries = lines_of(s.as_slice());
    let ghost v = views(entries@);
    let at: usize = match find_covering(entries.as_slice(), match_line) {
        Some(i) => i,
        None => {
            return None;
        },
    };
    let n: usize = entries.len();
    let first: usize = if at > 2 {
        at - 2
    } else {
        0
    };
    let last: usize = if n - at > 3 {
        at + 3
    } else {
        n
    };
    let mut out = String::new();
    let mut i: usize = first;
    assert(out@ =~= context_rows(v, at as int, first as int, first as int));
    while i < last
        invariant
            first <= i <= last <= n,
            n == entries@.len(),
            v == views(entries@),
            out@ == context_rows(v, at as int, first as int, i as int),
        decreases last - i,
    {
        assert(v[i as int] == entries@[i as int]@);
        let ghost before = out@;
        if i == at {
            out.append("\n→ ");
        } else {
            out.append("\n  ");
        }
        push_chars(&mut out, entries[i]);
        i = i + 1;
    }
    Some(out)
}

// ---------------------------------------------------------------------------
// Lists of lines
// ---------------------------------------------------------------------------

/// The first `n` lines as runs of lines that follow each other.
pub open spec fn runs(l: Seq<u32>, n: int) -> Seq<(u32, u32)>
    decreases n,
{
    if n <= 0 {
        Seq::empty()
    } else {
        let r = runs(l, n - 1);
        let x = l[n - 1];
        if r.len() > 0 && r.last().1 + 1 == x {
            r.drop_last().push((r.last().0, x))
        } else {
            r.push((x, x))
        }
    }
}

/// A run: of three lines or more its ends, else each line.
pub open spec fn run_text(r: (u32, u32)) -> Seq<char> {
    if r.1 > r.0 + 1 {
        dec(r.0 as nat) + "-"@ + dec(r.1 as nat)
    } else if r.1 > r.0 {
        dec(r.0 as nat) + ","@ + dec(r.1 as nat)
    } else {
        dec(r.0 as nat)
    }
}

/// The texts of the runs.
pub open spec fn run_texts(r: Seq<(u32, u32)>) -> Seq<Seq<char>> {
    r.map_values(|x: (u32, u32)| run_text(x))
}

fn push_run_text(out: &mut Vec<String>, a: u32, b: u32)
    ensures
        strs(final(out)@) == strs(old(out)@).push(run_text((a, b))),
{
    broadcast use lemma_strs_push;

    let mut s = String::new();
    push_dec(&mut s, a as usize);
    assert(s@ =~= dec(a as nat));
    if b > a {
        if b - a > 1 {
            s.append("-");
        } else {
            s.append(",");
        }
        push_dec(&mut s, b as usize);
    }
    out.push(s);
}

/// The lines, with commas between them; runs are drawn together, as in `50,55-58,63`.
pub fn format_line_list(lines: &[u32]) -> (r: String)
    ensures
        r@ == join(run_texts(runs(lines@, lines@.len() as int)), ","@),
{
    if lines.len() == 0 {
        let none: Vec<String> = Vec::new();
        assert(strs(none@) =~= run_texts(runs(lines@, 0)));
        return join_strings(none.as_slice(), ",");
    }
    let mut parts: Vec<String> = Vec::new();
    let mut a: u32 = lines[0];
    let mut b: u32 = lines[0];
    let mut i: usize = 1;
    proof {
        assert(runs(lines@, 1) =~= seq![(a, b)]) by {
            assert(runs(lines@, 0) =~= Seq::<(u32, u32)>::empty());
        }
        assert(strs(parts@) =~= run_texts(runs(lines@, 1).drop_last()));
    }
    while i < lines.len()
        invariant
            1 <= i <= lines@.len(),
            runs(lines@, i as int).len() > 0,
            runs(lines@, i as int).last() == (a, b),
            strs(parts@) == run_texts(runs(lines@, i as int).drop_last()),
        decreases lines@.len() - i,
    {
        let ghost r = runs(lines@, i as int);
        let x: u32 = lines[i];
        if x > 0 && x - 1 == b {
            b = x;
            assert(r.drop_last().push((r.last().0, x)).drop_last() =~= r.drop_last());
        } else {
            push_run_text(&mut parts, a, b);
            assert(r.push((x, x)).drop_last() =~= r);
            assert(run_texts(r) =~= run_texts(r.drop_last()).push(run_text((a, b))));
            a = x;
            b = x;
        }
        i = i + 1;
    }
    let ghost r = runs(lines@, lines@.len() as int);
    push_run_text(&mut parts, a, b);
    assert(run_texts(r) =~= run_texts(r.drop_last()).push(run_text((a, b))));
    join_strings(parts.as_slice(), ",")
}

/// The lines from `a` to `b`.
pub open spec fn lines_between(a: u32, b: u32) -> Seq<u32> {
    Seq::new((b - a + 1) as nat, |i: int| (a + i) as u32)
}

/// The lines of the runs.
pub open spec fn run_lines(r: Seq<(u32, u32)>) -> Seq<u32>
    decreases r.len(),
{
    if r.len() == 0 {
        Seq::empty()
    } else {
        run_lines(r.drop_last()) + lines_between(r.last().0, r.last().1)
    }
}

proof fn lemma_runs(l: Seq<u32>, n: int)
    requires
        0 <= n <= l.len(),
    ensures
        run_lines(runs(l, n)) == l.take(n),
        forall|i: int| 0 <= i < runs(l, n).len() ==> (#[trigger] runs(l, n)[i]).0 <= runs(l, n)[i].1,
    decreases n,
{
    if n > 0 {
        lemma_runs(l, n - 1);
        let r = runs(l, n - 1);
        let x = l[n - 1];
        assert(l.take(n) =~= l.take(n - 1).push(x));
        if r.len() > 0 && r.last().1 + 1 == x {
            let t = r.drop_last().push((r.last().0, x));
            assert(t.drop_last() =~= r.drop_last());
            assert(r[r.len() - 1].0 <= r[r.len() - 1].1);
            assert(lines_between(r.last().0, x) =~= lines_between(r.last().0, r.last().1).push(x));
            assert(run_lines(t) =~= run_lines(r).push(x));
            assert forall|i: int| 0 <= i < t.len() implies (#[trigger] t[i]).0 <= t[i].1 by {
                if i < r.len() - 1 {
                    assert(t[i] == r[i]);
                }
            }
        } else {
            let t = r.push((x, x));
            assert(t.drop_last() =~= r);
            assert(lines_between(x, x) =~= seq![x]);
            assert(run_lines(t) =~= run_lines(r).push(x));
            assert forall|i: int| 0 <= i < t.len() implies (#[trigger] t[i]).0 <= t[i].1 by {
                if i < r.len() {
                    assert(t[i] == r[i]);
                }
            }
        }
    } else {
        assert(l.take(0) =~= Seq::<u32>::empty());
    }
}

/// Drawing lines together loses none and adds none: the runs are the lines, in their
/// order.
pub proof fn law_runs_are_the_lines(l: Seq<u32>)
    ensures
        run_lines(runs(l, l.len() as int)) == l,
{
    lemma_runs(l, l.len() as int);
    assert(l.take(l.len() as int) =~= l);
}

// ---------------------------------------------------------------------------
// Source
// ---------------------------------------------------------------------------

/// The number of tokens below which a file is shown whole.
pub const EXPAND_FULL_FILE_THRESHOLD: u64 = 800;

/// The line imports something.
pub open spec fn is_import(t: Seq<char>) -> bool {
    ||| "use "@.is_prefix_of(t)
    ||| "import "@.is_prefix_of(t)
    ||| "from "@.is_prefix_of(t)
    ||| "#include"@.is_prefix_of(t)
    ||| "require("@.is_prefix_of(t)
    ||| "require "@.is_prefix_of(t)
    ||| "const "@.is_prefix_of(t) && has(t, "= require("@)
}

/// The line is neither blank nor an import.
pub open spec fn is_code(line: Seq<char>) -> bool {
    !is_import(trim(line)) && trim(line).len() > 0
}

fn code_line(line: &[char]) -> (r: bool)
    ensures
        r == is_code(line@),
{
    let t = trim_of(line);
    let import = has_prefix(t, "use ") || has_prefix(t, "import ") || has_prefix(t, "from ")
        || has_prefix(t, "#include") || has_prefix(t, "require(") || has_prefix(t, "require ") || (
    has_prefix(t, "const ") && has_text(t, "= require("));
    !import && t.len() > 0
}

/// The first line from `i` to `end` that is neither blank nor an import.
pub open spec fn first_code(l: Seq<Seq<char>>, i: int, end: int) -> Option<int>
    decreases end - i + 1,
{
    if i < 1 || i > end || i > l.len() {
        None
    } else if is_code(l[i - 1]) {
        Some(i)
    } else {
        first_code(l, i + 1, end)
    }
}

/// The lines that are shown of a match: all of a small file, else those of the
/// definition or ten to either side.
pub open spec fn shown_range(m: MatchView, content: Seq<char>) -> (int, int) {
    let total: int = lines(content).len() as int % 0x1_0000_0000;
    if tokens(byte_len(content)) < EXPAND_FULL_FILE_THRESHOLD {
        (1, total)
    } else {
        let (s, e): (int, int) = match m.def_range {
            Some((s, e)) => (s as int, e as int),
            None => (
                if m.line > 10 {
                    m.line - 10
                } else {
                    0
                },
                if m.line + 10 <= u32::MAX {
                    m.line + 10
                } else {
                    u32::MAX as int
                },
            ),
        };
        (
            if s > 1 {
                s
            } else {
                1
            },
            if e < total {
                e
            } else {
                total
            },
        )
    }
}

/// The first line that is shown: imports before a definition at the top of the file
/// are left out.
pub open spec fn shown_start(m: MatchView, content: Seq<char>) -> int {
    let (start, end) = shown_range(m, content);
    if m.is_definition && start <= 5 {
        match first_code(lines(content), start, end) {
            Some(i) => i,
            None => start,
        }
    } else {
        start
    }
}

/// The line is blank.
pub open spec fn blank(line: Seq<char>) -> bool {
    trim(line).len() == 0
}

/// The lines from `start` to `n` with their numbers; of blank lines that follow each
/// other only the first is shown.
pub open spec fn numbered(l: Seq<Seq<char>>, start: int, n: int) -> Seq<char>
    decreases n - start + 1,
{
    if n < start {
        Seq::empty()
    } else {
        let r = numbered(l, start, n - 1);
        if blank(l[n - 1]) && n > start && blank(l[n - 2]) {
            r
        } else {
            r + "\n"@ + pad_left(dec(n as nat), 4) + " │ "@ + l[n - 1]
        }
    }
}

/// The source of a match, between fences.
pub open spec fn code_block(m: MatchView, content: Seq<char>, scope: Seq<char>) -> Seq<char> {
    let start = shown_start(m, content);
    let end = shown_range(m, content).1;
    "\n```"@ + shown(m.path, scope) + ":"@ + dec(start as nat) + "-"@ + dec(end as nat) + numbered(
        lines(content),
        start,
        end,
    ) + "\n```"@
}

/// The lines that are shown of a match, before imports are left out.
fn range_of(m: &Match, content: &str, total_lines: usize) -> (r: (usize, usize))
    requires
        total_lines == lines(content@).len(),
    ensures
        (r.0 as int, r.1 as int) == shown_range(m@, content@),
        1 <= r.0 <= u32::MAX,
        r.1 <= total_lines,
        r.1 <= u32::MAX,
{
    let total: usize = (total_lines as u64 % 0x1_0000_0000) as usize;
    if estimate_tokens(text_len(content) as u64) < EXPAND_FULL_FILE_THRESHOLD {
        (1, total)
    } else {
        let (s, e): (u32, u32) = match m.def_range {
            Some((s, e)) => (s, e),
            None => (
                if m.line > 10 {
                    m.line - 10
                } else {
                    0
                },
                if m.line <= u32::MAX - 10 {
                    m.line + 10
                } else {
                    u32::MAX
                },
            ),
        };
        (
            if s > 1 {
                s as usize
            } else {
                1
            },
            if (e as usize) < total {
                e as usize
            } else {
                total
            },
        )
    }
}

fn find_code(l: &[&[char]], start: usize, end: usize) -> (r: Option<usize>)
    requires
        1 <= start <= u32::MAX,
        end <= l@.len(),
        end <= u32::MAX,
    ensures
        r matches Some(i) ==> start <= i <= end && first_code(
            views(l@),
            start as int,
            end as int,
        ) == Some(i as int),
        r is None ==> first_code(views(l@), start as int, end as int) is None,
{
    let ghost v = views(l@);
    let mut i: u64 = start as u64;
    while i <= end as u64
        invariant
            1 <= start <= i,
            i <= start || i <= end + 1,
            end <= l@.len(),
            end <= u32::MAX,
            v == views(l@),
            first_code(v, start as int, end as int) == first_code(v, i as int, end as int),
        decreases end + 1 - i,
    {
        let k: usize = i as usize;
        assert(v[k - 1] == l@[k - 1]@);
        if code_line(l[k - 1]) {
            return Some(k);
        }
        i = i + 1;
    }
    None
}

fn push_numbered(out: &mut String, l: &[&[char]], start: usize, end: usize)
    requires
        1 <= start <= u32::MAX,
        end <= l@.len(),
        end <= u32::MAX,
    ensures
        final(out)@ == old(out)@ + numbered(views(l@), start as int, end as int),
{
    let ghost v = views(l@);
    let ghost head = out@;
    assert(head + numbered(v, start as int, start - 1) =~= head);
    if end < start {
        assert(head + numbered(v, start as int, end as int) =~= head);
        return ;
    }
    let mut i: u64 = start as u64;
    let mut prev_blank = false;
    while i <= end as u64
        invariant
            1 <= start <= i <= end + 1,
            end <= l@.len(),
            end <= u32::MAX,
            v == views(l@),
            prev_blank == (i > start && blank(v[i - 2])),
            out@ == head + numbered(v, start as int, i - 1),
        decreases end + 1 - i,
    {
        let k: usize = i as usize;
        assert(v[k - 1] == l@[k - 1]@);
        let ghost before = numbered(v, start as int, i - 1);
        let line = l[k - 1];
        let is_blank = trim_of(line).len() == 0;
        if !(is_blank && prev_blank) {
            let mut num = String::new();
            push_dec(&mut num, k);
            assert(num@ =~= dec(i as nat));
            let mut s = "\n".to_owned();
            push_aligned(&mut s, num.as_str(), 4);
            s.append(" │ ");
            push_chars(&mut s, line);
            out.append(s.as_str());
            assert(out@ =~= head + (before + "\n"@ + pad_left(dec(i as nat), 4) + " │ "@ + line@));
        }
        prev_blank = is_blank;
        i = i + 1;
    }
}

/// The source of a match, between fences.
pub fn expand_match(m: &Match, content: &str, scope: &str) -> (r: String)
    ensures
        r@ == code_block(m@, content@, scope@),
{
    let text = chars_of(content);
    let l = lines_of(text.as_slice());
    assert(views(l@).len() == l@.len());
    let (first, end): (usize, usize) = range_of(m, content, l.len());
    let start: usize = if m.is_definition && first <= 5 {
        match find_code(l.as_slice(), first, end) {
            Some(i) => i,
            None => first,
        }
    } else {
        first
    };
    let mut out = "\n```".to_owned();
    out.append(rel(m.path.as_str(), scope).as_str());
    out.append(":");
    push_dec(&mut out, start);
    out.append("-");
    push_dec(&mut out, end);
    push_numbered(&mut out, l.as_slice(), start, end);
    out.append("\n```");
    out
}

// ---------------------------------------------------------------------------
// Leaving lines out
// ---------------------------------------------------------------------------

/// The lines that are kept so far, and how many were left out since the last of
/// them.
pub struct FilterView {
    pub kept: Seq<Seq<char>>,
    pub skipped: nat,
}

/// More than three lines that were left out are marked.
pub open spec fn flushed(s: FilterView) -> FilterView {
    FilterView {
        kept: if s.skipped > 3 {
            s.kept.push("       ... ("@ + dec(s.skipped) + " lines omitted)"@)
        } else {
            s.kept
        },
        skipped: 0,
    }
}

/// Marks lines that were left out.
pub fn flush_gap_marker(kept: &mut Vec<String>, consecutive_skipped: &mut usize)
    ensures
        (FilterView {
            kept: strs(final(kept)@),
            skipped: *final(consecutive_skipped) as nat,
        }) == flushed(
            FilterView { kept: strs(old(kept)@), skipped: *old(consecutive_skipped) as nat },
        ),
{
    broadcast use lemma_strs_push;

    if *consecutive_skipped > 3 {
        let mut s = "       ... (".to_owned();
        push_dec(&mut s, *consecutive_skipped);
        s.append(" lines omitted)");
        kept.push(s);
    }
    *consecutive_skipped = 0;
}

/// The number of a line of a block, which stands before the bar.
pub open spec fn row_number(row: Seq<char>) -> Option<nat> {
    match char_at(row, '│') {
        Some(i) => parse_uint(trim(row.take(i)), u32::MAX as nat),
        None => None,
    }
}

/// The row is left out: it is no fence, and its line is one to skip.
pub open spec fn left_out(row: Seq<char>, skip: Seq<u32>) -> bool {
    &&& !"```"@.is_prefix_of(row)
    &&& row.len() > 0
    &&& row_number(row) is Some
    &&& skip.contains(row_number(row)->0 as u32)
}

/// What is kept of the first `n` rows.
pub open spec fn filtered(rows: Seq<Seq<char>>, skip: Seq<u32>, n: int) -> FilterView
    decreases n,
{
    if n <= 0 {
        FilterView { kept: Seq::empty(), skipped: 0 }
    } else {
        let s = filtered(rows, skip, n - 1);
        if left_out(rows[n - 1], skip) {
            FilterView { kept: s.kept, skipped: s.skipped + 1 }
        } else {
            let f = flushed(s);
            FilterView { kept: f.kept.push(rows[n - 1]), skipped: 0 }
        }
    }
}

/// The block without the lines to skip.
pub open spec fn without_lines(code: Seq<char>, skip: Seq<u32>) -> Seq<char> {
    let rows = split(code, '\n');
    join(filtered(rows, skip, rows.len() as int).kept, "\n"@)
}

fn is_left_out(row: &[char], skip: &Vec<u32>) -> (r: bool)
    ensures
        r == left_out(row@, skip@),
{
    if has_prefix(row, "```") || row.len() == 0 {
        return false;
    }
    let i: usize = match find_char(row, '│') {
        Some(i) => i,
        None => {
            return false;
        },
    };
    proof {
        lemma_char_at(row@, '│');
        assert(row@.subrange(0, i as int) =~= row@.take(i as int));
    }
    match parse_line(slice_subrange(row, 0, i)) {
        Some(n) => has_line(skip, n),
        None => false,
    }
}

/// Whether the line is one of the list.
pub fn has_line(v: &Vec<u32>, n: u32) -> (r: bool)
    ensures
        r == v@.contains(n),
{
    let mut i: usize = 0;
    while i < v.len()
        invariant
            i <= v@.len(),
            forall|j: int| 0 <= j < i ==> v@[j] != n,
        decreases v@.len() - i,
    {
        if v[i] == n {
            return true;
        }
        i = i + 1;
    }
    false
}

/// The block without the lines to skip.
pub fn filter_code_lines(code: &str, skip_lines: &Vec<u32>) -> (r: String)
    ensures
        r@ == without_lines(code@, skip_lines@),
{
    broadcast use lemma_strs_push;

    let s = chars_of(code);
    let rows = split_on(s.as_slice(), '\n');
    let ghost v = views(rows@);
    let mut kept: Vec<String> = Vec::new();
    let mut skipped: usize = 0;
    let mut i: usize = 0;
    assert(strs(kept@) =~= Seq::<Seq<char>>::empty());
    while i < rows.len()
        invariant
            i <= rows@.len(),
            v == views(rows@),
            skipped <= i,
            (FilterView { kept: strs(kept@), skipped: skipped as nat }) == filtered(
                v,
                skip_lines@,
                i as int,
            ),
        decreases rows@.len() - i,
    {
        let row = rows[i];
        assert(v[i as int] == row@);
        if is_left_out(row, skip_lines) {
            skipped = skipped + 1;
        } else {
            flush_gap_marker(&mut kept, &mut skipped);
            let ghost before = strs(kept@);
            kept.push(string_of(row));
            assert(strs(kept@) =~= before.push(row@));
        }
        i = i + 1;
    }
    join_strings(kept.as_slice(), "\n")
}

/// Every row that is not left out is kept, with the text that it has.
pub proof fn law_other_rows_kept(rows: Seq<Seq<char>>, skip: Seq<u32>, n: int, i: int)
    requires
        0 <= i < n <= rows.len(),
        !left_out(rows[i], skip),
    ensures
        filtered(rows, skip, n).kept.contains(rows[i]),
    decreases n,
{
    let s = filtered(rows, skip, n - 1);
    let t = filtered(rows, skip, n);
    if i < n - 1 {
        law_other_rows_kept(rows, skip, n - 1, i);
        let k = choose|k: int| 0 <= k < s.kept.len() && s.kept[k] == rows[i];
        assert(t.kept[k] == rows[i]);
    } else {
        assert(t.kept[t.kept.len() - 1] == rows[i]);
    }
}

/// Every line of the range is shown with its number, but for a blank line that follows
/// another.
pub proof fn law_source_shows_every_line(l: Seq<Seq<char>>, start: int, n: int, k: int)
    requires
        start <= k <= n,
        !(blank(l[k - 1]) && k > start && blank(l[k - 2])),
    ensures
        has(numbered(l, start, n), "\n"@ + pad_left(dec(k as nat), 4) + " │ "@ + l[k - 1]),
    decreases n - start + 1,
{
    let row = "\n"@ + pad_left(dec(k as nat), 4) + " │ "@ + l[k - 1];
    let own = "\n"@ + pad_left(dec(n as nat), 4) + " │ "@ + l[n - 1];
    let q = numbered(l, start, n - 1);
    crate::text::lemma_four_together(
        q,
        "\n"@,
        pad_left(dec(n as nat), 4),
        " │ "@,
        l[n - 1],
    );
    if k < n {
        law_source_shows_every_line(l, start, n - 1, k);
        crate::text::lemma_has_left(q, own, row);
    } else {
        crate::text::lemma_has_self(row);
        crate::text::lemma_has_right(q, row, row);
    }
}

/// The source of a definition is shown from its first line to its last, and that of a
/// usage with ten lines to either side, as far as the file goes; a small file is shown
/// whole.
pub proof fn law_shown_lines_cover_the_match(m: MatchView, content: Seq<char>, k: int)
    requires
        lines(content).len() < 0x1_0000_0000,
        1 <= k <= lines(content).len(),
    ensures
        ({
            let (a, b) = shown_range(m, content);
            let total = lines(content).len() as int;
            &&& 1 <= a
            &&& b <= total
            &&& m.def_range matches Some((s, e)) ==> (s <= k <= e ==> a <= k <= b)
            &&& m.def_range is None && m.line - 10 <= k <= m.line + 10 ==> a <= k <= b
            &&& tokens(byte_len(content)) < 800 ==> a <= k <= b
        }),
{
}

/// What is left out before a definition is blank or an import, and nothing behind it is
/// left out.
pub proof fn law_only_imports_are_left_out(l: Seq<Seq<char>>, i: int, end: int)
    requires
        1 <= i,
        end <= l.len(),
    ensures
        match first_code(l, i, end) {
            Some(k) => i <= k <= end && is_code(l[k - 1]) && forall|j: int|
                i <= j < k ==> !is_code(#[trigger] l[j - 1]),
            None => forall|j: int| i <= j <= end ==> !is_code(#[trigger] l[j - 1]),
        },
    decreases end - i + 1,
{
    if i <= end && !is_code(l[i - 1]) {
        law_only_imports_are_left_out(l, i + 1, end);
    }
}

/// The entry that stands for a line is the first whose lines hold it, and there is none
/// only where no entry does.
pub proof fn law_covering_entry_is_first(entries: Seq<Seq<char>>, line: u32, i: int)
    requires
        0 <= i <= entries.len(),
    ensures
        match covering(entries, line, i) {
            Some(k) => i <= k < entries.len() && covers(entries[k], line) && forall|j: int|
                i <= j < k ==> !covers(#[trigger] entries[j], line),
            None => forall|j: int| i <= j < entries.len() ==> !covers(#[trigger] entries[j], line),
        },
    decreases entries.len() - i,
{
    if i < entries.len() && !covers(entries[i], line) {
        law_covering_entry_is_first(entries, line, i + 1);
    }
}

proof fn lemma_context_row(entries: Seq<Seq<char>>, at: int, first: int, n: int, k: int)
    requires
        first <= k < n,
    ensures
        crate::text::has(
            context_rows(entries, at, first, n),
            (if k == at {
                "\n→ "@
            } else {
                "\n  "@
            }) + entries[k],
        ),
    decreases n - first,
{
    let q = context_rows(entries, at, first, n - 1);
    let mark = if n - 1 == at {
        "\n→ "@
    } else {
        "\n  "@
    };
    let piece = (if k == at {
        "\n→ "@
    } else {
        "\n  "@
    }) + entries[k];
    if k < n - 1 {
        lemma_context_row(entries, at, first, n - 1, k);
        crate::text::lemma_has_left(q, mark, piece);
        crate::text::lemma_has_left(q + mark, entries[n - 1], piece);
    } else {
        crate::text::lemma_two_together(q, mark, entries[n - 1]);
        crate::text::lemma_has_self(piece);
        crate::text::lemma_has_right(q, piece, piece);
    }
}

/// The outline around a match shows the first entry that covers its line, marked, and two
/// entries to either side of it.
pub proof fn law_context_shows_the_neighbours(outline: Seq<char>, line: u32, at: int, k: int)
    requires
        0 <= at < lines(outline).len(),
        covers(lines(outline)[at], line),
        forall|j: int| 0 <= j < at ==> !covers(#[trigger] lines(outline)[j], line),
        at - 2 <= k <= at + 2,
        0 <= k < lines(outline).len(),
    ensures
        outline_context(Some(outline), line) matches Some(t) && crate::text::has(
            t,
            (if k == at {
                "\n→ "@
            } else {
                "\n  "@
            }) + lines(outline)[k],
        ),
{
    let e = lines(outline);
    lemma_covering_at(e, line, 0, at);
    let first = if at > 2 {
        at - 2
    } else {
        0
    };
    let last = if at + 3 < e.len() {
        at + 3
    } else {
        e.len() as int
    };
    lemma_context_row(e, at, first, last, k);
}

proof fn lemma_covering_at(entries: Seq<Seq<char>>, line: u32, i: int, at: int)
    requires
        0 <= i <= at < entries.len(),
        covers(entries[at], line),
        forall|j: int| i <= j < at ==> !covers(#[trigger] entries[j], line),
    ensures
        covering(entries, line, i) == Some(at),
    decreases at - i,
{
    if i < at {
        assert(!covers(entries[i], line));
        lemma_covering_at(entries, line, i + 1, at);
    }
}

} // verus!
