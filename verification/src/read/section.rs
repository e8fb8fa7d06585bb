//! Parts of a file: by lines, by heading or by symbol.
use vstd::prelude::*;
use vstd::slice::slice_subrange;
use vstd::string::*;
use vstd::utf8::*;

use crate::lang::outline::{get_outline_entries, outline_of};
use crate::lang::{detect_file_type, file_type};
use crate::search::io::{byte_positions, decode, lemma_byte_positions, positions_of_byte};
use crate::sort::{lemma_sort_map, sort_by, stable_sort};
use crate::text::{
    ascii_lower, char_at, chars_of, dec, find_char, has_prefix, join, join_strings, lower_ascii,
    parse_u64, parse_uint, push_dec, same_chars, same_text, string_of, strip_end, strip_end_of,
    strip_start, strip_start_of, strs, trim, trim_end, trim_end_of, trim_of,
};
use crate::types::{entries_view, ints, EntryView, FileType, OutlineEntry};

use super::edit::{edit_distance, text_distance};

verus! {

// ---------------------------------------------------------------------------
// Lines
// ---------------------------------------------------------------------------

/// Where the lines of the bytes start.
pub open spec fn line_starts(buf: Seq<u8>) -> Seq<int> {
    seq![0int] + byte_positions(buf, 10).map_values(|p: int| p + 1)
}

/// Line `k`, counted from zero, without what ends it.
pub open spec fn line_bytes(buf: Seq<u8>, k: int) -> Seq<u8> {
    let s = line_starts(buf);
    buf.subrange(
        s[k],
        if k + 1 < s.len() {
            s[k + 1] - 1
        } else {
            buf.len() as int
        },
    )
}

/// The lines start in rising order, at the latest where the bytes end.
proof fn lemma_line_starts(buf: Seq<u8>)
    ensures
        line_starts(buf).len() == byte_positions(buf, 10).len() + 1,
        line_starts(buf).len() <= buf.len() + 1,
        forall|i: int| 0 <= i < line_starts(buf).len() ==> 0 <= #[trigger] line_starts(buf)[i] <= buf.len(),
        forall|i: int, j: int|
            0 <= i < j < line_starts(buf).len() ==> #[trigger] line_starts(buf)[i]
                < #[trigger] line_starts(buf)[j],
{
    lemma_byte_positions(buf, 10);
    let s = line_starts(buf);
    let p = byte_positions(buf, 10);
    assert forall|i: int| 0 <= i < s.len() implies 0 <= #[trigger] s[i] <= buf.len() by {
        if i > 0 {
            assert(s[i] == p[i - 1] + 1);
        }
    }
    assert forall|i: int, j: int| 0 <= i < j < s.len() implies #[trigger] s[i] < #[trigger] s[j] by {
        assert(s[j] == p[j - 1] + 1);
        if i > 0 {
            assert(s[i] == p[i - 1] + 1);
        }
    }
}

fn starts_of(buf: &[u8]) -> (r: Vec<usize>)
    ensures
        ints(r@) == line_starts(buf@),
        r@.len() > 0,
        forall|i: int| 0 <= i < r@.len() ==> #[trigger] r@[i] <= buf@.len(),
        forall|i: int, j: int| 0 <= i < j < r@.len() ==> #[trigger] r@[i] < #[trigger] r@[j],
{
    let p = positions_of_byte(10, buf);
    let size: usize = buf.len();
    let ghost all = line_starts(buf@);
    proof {
        lemma_line_starts(buf@);
        lemma_byte_positions(buf@, 10);
        assert(ints(p@).len() == p@.len());
    }
    let mut r: Vec<usize> = Vec::new();
    r.push(0);
    let mut i: usize = 0;
    while i < p.len()
        invariant
            i <= p@.len(),
            size == buf@.len(),
            all == line_starts(buf@),
            ints(p@) == byte_positions(buf@, 10),
            forall|k: int|
                0 <= k < byte_positions(buf@, 10).len() ==> 0 <= #[trigger] byte_positions(
                    buf@,
                    10,
                )[k] < buf@.len(),
            r@.len() == i + 1,
            forall|k: int| 0 <= k <= i ==> #[trigger] r@[k] == all[k],
        decreases p@.len() - i,
    {
        assert(ints(p@)[i as int] == p@[i as int]);
        assert(byte_positions(buf@, 10)[i as int] < buf@.len());
        r.push(p[i] + 1);
        i = i + 1;
    }
    assert(ints(r@) =~= all);
    assert forall|i: int| 0 <= i < r@.len() implies #[trigger] r@[i] <= buf@.len() by {
        assert(all[i] <= buf@.len());
    }
    assert forall|i: int, j: int| 0 <= i < j < r@.len() implies #[trigger] r@[i] < #[trigger] r@[j] by {
        assert(all[i] < all[j]);
    }
    r
}

/// The text of line `k` without white space at its end, where it is a text.
pub open spec fn line_text(buf: Seq<u8>, k: int) -> Option<Seq<char>> {
    if valid_utf8(line_bytes(buf, k)) {
        Some(trim_end(decode_utf8(line_bytes(buf, k))))
    } else {
        None
    }
}

fn text_of_line(buf: &[u8], starts: &Vec<usize>, k: usize) -> (r: Option<String>)
    requires
        ints(starts@) == line_starts(buf@),
        k < starts@.len(),
        forall|i: int| 0 <= i < starts@.len() ==> #[trigger] starts@[i] <= buf@.len(),
        forall|i: int, j: int|
            0 <= i < j < starts@.len() ==> #[trigger] starts@[i] < #[trigger] starts@[j],
    ensures
        crate::text::opt_text(r) == line_text(buf@, k as int),
{
    let n: usize = starts.len();
    let a: usize = starts[k];
    assert(ints(starts@)[k as int] == a);
    let b: usize = if k + 1 < n {
        assert(ints(starts@)[k + 1] == starts@[k + 1]);
        assert(starts@[k as int] < starts@[k + 1]);
        starts[k + 1] - 1
    } else {
        buf.len()
    };
    match decode(slice_subrange(buf, a, b)) {
        Some(s) => {
            let c = chars_of(s);
            Some(string_of(trim_end_of(c.as_slice())))
        },
        None => None,
    }
}

// ---------------------------------------------------------------------------
// Headings
// ---------------------------------------------------------------------------

/// How many times the character stands at the start.
pub open spec fn leading(s: Seq<char>, c: char) -> nat
    decreases s.len(),
{
    if s.len() > 0 && s[0] == c {
        1 + leading(s.drop_first(), c)
    } else {
        0
    }
}

fn count_leading(s: &[char], c: char) -> (r: usize)
    ensures
        r == leading(s@, c),
{
    let mut i: usize = 0;
    assert(s@.skip(0) =~= s@);
    while i < s.len() && s[i] == c
        invariant
            i <= s@.len(),
            leading(s@, c) == i + leading(s@.skip(i as int), c),
        decreases s@.len() - i,
    {
        assert(s@.skip(i as int).drop_first() =~= s@.skip(i + 1));
        assert(s@.skip(i as int)[0] == s@[i as int]);
        i = i + 1;
    }
    proof {
        if i < s@.len() {
            assert(s@.skip(i as int)[0] == s@[i as int]);
        }
    }
    i
}

/// The line opens or closes a block of code.
pub open spec fn is_fence(t: Seq<char>) -> bool {
    "```"@.is_prefix_of(t)
}

/// The line is the heading: the same, or with an anchor, an attribute or closing
/// signs behind it.
pub open spec fn is_heading(t: Seq<char>, heading: Seq<char>) -> bool {
    ||| t == heading
    ||| heading.is_prefix_of(t) && (t.len() == heading.len() || t[heading.len() as int] == ' '
        || t[heading.len() as int] == '\t' || t[heading.len() as int] == '{' || t[heading.len() as int]
        == '#')
}

/// The first line from `k` on that is the heading; `code` tells whether line `k`
/// stands in a block of code.
pub open spec fn heading_line(buf: Seq<u8>, heading: Seq<char>, k: int, code: bool) -> Option<int>
    decreases line_starts(buf).len() - k,
{
    if k < 0 || k >= line_starts(buf).len() {
        None
    } else {
        match line_text(buf, k) {
            None => heading_line(buf, heading, k + 1, code),
            Some(t) => if is_fence(t) {
                heading_line(buf, heading, k + 1, !code)
            } else if !code && is_heading(t, heading) {
                Some(k)
            } else {
                heading_line(buf, heading, k + 1, code)
            },
        }
    }
}

/// The first line from `k` on that is a heading of the level or a higher one.
pub open spec fn next_heading(buf: Seq<u8>, level: nat, k: int, code: bool) -> Option<int>
    decreases line_starts(buf).len() - k,
{
    if k < 0 || k >= line_starts(buf).len() {
        None
    } else {
        match line_text(buf, k) {
            None => next_heading(buf, level, k + 1, code),
            Some(t) => if is_fence(t) {
                next_heading(buf, level, k + 1, !code)
            } else if !code && 0 < leading(t, '#') <= level {
                Some(k)
            } else {
                next_heading(buf, level, k + 1, code)
            },
        }
    }
}

/// The number of lines: an end of line that ends the bytes starts none.
pub open spec fn total_lines(buf: Seq<u8>) -> nat {
    if buf.len() > 0 && buf.last() == 10 {
        (line_starts(buf).len() - 1) as nat
    } else {
        line_starts(buf).len()
    }
}

/// The lines of the section under the heading, counted from one: up to the next
/// heading of the same level or a higher one.
pub open spec fn heading_section(buf: Seq<u8>, heading: Seq<char>) -> Option<(nat, nat)> {
    let h = trim_end(heading);
    let level = leading(h, '#');
    if level == 0 {
        None
    } else {
        match heading_line(buf, h, 0, false) {
            None => None,
            Some(s) => Some(
                (
                    (s + 1) as nat,
                    match next_heading(buf, level, s + 1, false) {
                        Some(e) => e as nat,
                        None => total_lines(buf),
                    },
                ),
            ),
        }
    }
}

fn heading_matches(t: &[char], h: &[char]) -> (r: bool)
    ensures
        r == is_heading(t@, h@),
{
    if same_chars(t, h) {
        return true;
    }
    let n: usize = h.len();
    if t.len() <= n {
        proof {
            if h@.is_prefix_of(t@) {
                assert(h@ =~= t@.subrange(0, h@.len() as int));
                assert(t@ =~= h@);
            }
        }
        return false;
    }
    let head = slice_subrange(t, 0, n);
    let c: char = t[n];
    same_chars(head, h) && (c == ' ' || c == '\t' || c == '{' || c == '#')
}

fn find_heading(buf: &[u8], starts: &Vec<usize>, h: &[char]) -> (r: Option<usize>)
    requires
        ints(starts@) == line_starts(buf@),
        forall|i: int| 0 <= i < starts@.len() ==> #[trigger] starts@[i] <= buf@.len(),
        forall|i: int, j: int|
            0 <= i < j < starts@.len() ==> #[trigger] starts@[i] < #[trigger] starts@[j],
    ensures
        r matches Some(k) ==> k < starts@.len() && heading_line(buf@, h@, 0, false) == Some(k as int),
        r is None ==> heading_line(buf@, h@, 0, false) is None,
{
    let mut k: usize = 0;
    let mut code = false;
    assert(ints(starts@).len() == starts@.len());
    while k < starts.len()
        invariant
            k <= starts@.len(),
            ints(starts@) == line_starts(buf@),
            ints(starts@).len() == starts@.len(),
            forall|i: int| 0 <= i < starts@.len() ==> #[trigger] starts@[i] <= buf@.len(),
            forall|i: int, j: int|
                0 <= i < j < starts@.len() ==> #[trigger] starts@[i] < #[trigger] starts@[j],
            heading_line(buf@, h@, 0, false) == heading_line(buf@, h@, k as int, code),
        decreases starts@.len() - k,
    {
        if let Some(s) = text_of_line(buf, starts, k) {
            let t = chars_of(s.as_str());
            if has_prefix(t.as_slice(), "```") {
                code = !code;
            } else if !code && heading_matches(t.as_slice(), h) {
                return Some(k);
            }
        }
        k = k + 1;
    }
    None
}

fn find_next_heading(buf: &[u8], starts: &Vec<usize>, level: usize, from: usize) -> (r: Option<usize>)
    requires
        ints(starts@) == line_starts(buf@),
        from <= starts@.len(),
        forall|i: int| 0 <= i < starts@.len() ==> #[trigger] starts@[i] <= buf@.len(),
        forall|i: int, j: int|
            0 <= i < j < starts@.len() ==> #[trigger] starts@[i] < #[trigger] starts@[j],
    ensures
        r matches Some(k) ==> next_heading(buf@, level as nat, from as int, false) == Some(k as int),
        r is None ==> next_heading(buf@, level as nat, from as int, false) is None,
{
    let mut k: usize = from;
    let mut code = false;
    assert(ints(starts@).len() == starts@.len());
    while k < starts.len()
        invariant
            k <= starts@.len(),
            ints(starts@) == line_starts(buf@),
            ints(starts@).len() == starts@.len(),
            forall|i: int| 0 <= i < starts@.len() ==> #[trigger] starts@[i] <= buf@.len(),
            forall|i: int, j: int|
                0 <= i < j < starts@.len() ==> #[trigger] starts@[i] < #[trigger] starts@[j],
            next_heading(buf@, level as nat, from as int, false) == next_heading(
                buf@,
                level as nat,
                k as int,
                code,
            ),
        decreases starts@.len() - k,
    {
        if let Some(s) = text_of_line(buf, starts, k) {
            let t = chars_of(s.as_str());
            if has_prefix(t.as_slice(), "```") {
                code = !code;
            } else if !code {
                let l: usize = count_leading(t.as_slice(), '#');
                if 0 < l && l <= level {
                    return Some(k);
                }
            }
        }
        k = k + 1;
    }
    None
}

/// The lines of the section under the heading, counted from one.
pub fn resolve_heading(buf: &[u8], heading: &str) -> (r: Option<(usize, usize)>)
    ensures
        match r {
            Some((a, b)) => heading_section(buf@, heading@) == Some((a as nat, b as nat)),
            None => heading_section(buf@, heading@) is None,
        },
{
    let all = chars_of(heading);
    let h = trim_end_of(all.as_slice());
    let level: usize = count_leading(h, '#');
    if level == 0 {
        return None;
    }
    let starts = starts_of(buf);
    let n: usize = starts.len();
    assert(ints(starts@).len() == starts@.len());
    let s: usize = match find_heading(buf, &starts, h) {
        Some(k) => k,
        None => {
            return None;
        },
    };
    let end: usize = match find_next_heading(buf, &starts, level, s + 1) {
        Some(e) => e,
        None => if buf.len() > 0 && buf[buf.len() - 1] == 10 {
            n - 1
        } else {
            n
        },
    };
    Some((s + 1, end))
}

// ---------------------------------------------------------------------------
// Suggestions
// ---------------------------------------------------------------------------

/// What stands before the first occurrence of the character.
pub open spec fn until(s: Seq<char>, c: char) -> Seq<char> {
    match char_at(s, c) {
        Some(i) => s.take(i),
        None => s,
    }
}

/// The words of a heading without its signs, anchors and attributes.
pub open spec fn heading_words(t: Seq<char>) -> Seq<char> {
    trim(strip_end(until(trim(strip_start(t, '#')), '{'), '#'))
}

/// A heading, and how far it is from what is looked for.
pub struct Scored {
    pub distance: usize,
    pub heading: String,
}

/// The headings among the first `n` lines, each with its distance, and whether the
/// next line stands in a block of code.
pub open spec fn scored_headings(buf: Seq<u8>, wanted: Seq<char>, n: int) -> (
    Seq<(nat, Seq<char>)>,
    bool,
)
    decreases n,
{
    if n <= 0 {
        (Seq::empty(), false)
    } else {
        let (r, code) = scored_headings(buf, wanted, n - 1);
        match line_text(buf, n - 1) {
            None => (r, code),
            Some(t) => if is_fence(t) {
                (r, !code)
            } else if code || leading(t, '#') == 0 || trim(strip_start(t, '#')).len() == 0 {
                (r, code)
            } else {
                (
                    r.push(
                        (
                            text_distance(ascii_lower(wanted), ascii_lower(heading_words(t))),
                            t,
                        ),
                    ),
                    code,
                )
            },
        }
    }
}

/// Closer headings come first.
pub open spec fn closer() -> spec_fn((nat, Seq<char>), (nat, Seq<char>)) -> bool {
    |a: (nat, Seq<char>), b: (nat, Seq<char>)| a.0 <= b.0
}

/// The headings that are closest to what is looked for, at most `top`.
pub open spec fn closest_headings(buf: Seq<u8>, query: Seq<char>, top: nat) -> Seq<Seq<char>> {
    let wanted = trim(strip_start(trim_end(query), '#'));
    if wanted.len() == 0 {
        Seq::empty()
    } else {
        let all = stable_sort(
            scored_headings(buf, wanted, line_starts(buf).len() as int).0,
            closer(),
        );
        let best = if all.len() > top {
            all.take(top as int)
        } else {
            all
        };
        best.map_values(|s: (nat, Seq<char>)| s.1)
    }
}

/// What the headings of a list say.
pub open spec fn scores_view(v: Seq<Scored>) -> Seq<(nat, Seq<char>)> {
    v.map_values(|s: Scored| (s.distance as nat, s.heading@))
}

spec fn closer_le() -> spec_fn(Scored, Scored) -> bool {
    |a: Scored, b: Scored| a.distance <= b.distance
}

fn closer_of(a: &Scored, b: &Scored) -> (r: bool)
    ensures
        r == closer_le()(*a, *b),
{
    a.distance <= b.distance
}

fn words_of_heading(t: &[char]) -> (r: String)
    ensures
        r@ == heading_words(t@),
{
    let h = trim_of(strip_start_of(t, '#'));
    let head = match find_char(h, '{') {
        Some(i) => {
            proof {
                crate::text::lemma_char_at(h@, '{');
                assert(h@.subrange(0, i as int) =~= h@.take(i as int));
            }
            slice_subrange(h, 0, i)
        },
        None => h,
    };
    string_of(trim_of(strip_end_of(head, '#')))
}

fn score_headings(buf: &[u8], wanted: &str) -> (r: Vec<Scored>)
    ensures
        scores_view(r@) == scored_headings(buf@, wanted@, line_starts(buf@).len() as int).0,
{
    let starts = starts_of(buf);
    let low = lower_ascii(wanted);
    let mut r: Vec<Scored> = Vec::new();
    let mut code = false;
    let mut k: usize = 0;
    assert(ints(starts@).len() == starts@.len());
    assert(scores_view(r@) =~= Seq::<(nat, Seq<char>)>::empty());
    while k < starts.len()
        invariant
            k <= starts@.len(),
            ints(starts@) == line_starts(buf@),
            ints(starts@).len() == starts@.len(),
            low@ == ascii_lower(wanted@),
            forall|i: int| 0 <= i < starts@.len() ==> #[trigger] starts@[i] <= buf@.len(),
            forall|i: int, j: int|
                0 <= i < j < starts@.len() ==> #[trigger] starts@[i] < #[trigger] starts@[j],
            (scores_view(r@), code) == scored_headings(buf@, wanted@, k as int),
        decreases starts@.len() - k,
    {
        if let Some(s) = text_of_line(buf, &starts, k) {
            let t = chars_of(s.as_str());
            let t = t.as_slice();
            if has_prefix(t, "```") {
                code = !code;
            } else if !code && count_leading(t, '#') > 0 && trim_of(strip_start_of(t, '#')).len()
                > 0 {
                let words = words_of_heading(t);
                let d: usize = edit_distance(low.as_str(), lower_ascii(words.as_str()).as_str());
                let ghost before = r@;
                let ghost sv = s@;
                r.push(Scored { distance: d, heading: s });
                assert(scores_view(r@) =~= scores_view(before).push((d as nat, sv)));
            }
        }
        k = k + 1;
    }
    r
}

/// The headings that are closest to what is looked for, at most `top_n`.
pub fn suggest_headings(buf: &[u8], query: &str, top_n: usize) -> (r: Vec<String>)
    ensures
        strs(r@) == closest_headings(buf@, query@, top_n as nat),
{
    let mut out: Vec<String> = Vec::new();
    let q = chars_of(query);
    let wanted = trim_of(strip_start_of(trim_end_of(q.as_slice()), '#'));
    if wanted.len() == 0 {
        assert(strs(out@) =~= Seq::<Seq<char>>::empty());
        return out;
    }
    let mut v = score_headings(buf, string_of(wanted).as_str());
    let ghost before = v@;
    proof {
        lemma_sort_map(
            before,
            |s: Scored| (s.distance as nat, s.heading@),
            closer_le(),
            closer(),
        );
    }
    sort_by(&mut v, closer_of, Ghost(closer_le()));
    let ghost all = scores_view(v@);
    assert(all.len() == v@.len());
    let ghost best = if all.len() > top_n {
        all.take(top_n as int)
    } else {
        all
    };
    let mut i: usize = 0;
    while i < v.len() && i < top_n
        invariant
            i <= v@.len(),
            i <= top_n,
            all == scores_view(v@),
            all.len() == v@.len(),
            out@.len() == i,
            forall|k: int| 0 <= k < i ==> (#[trigger] out@[k])@ == all[k].1,
        decreases v@.len() - i,
    {
        assert(all[i as int] == (v@[i as int].distance as nat, v@[i as int].heading@));
        out.push(v[i].heading.clone());
        i = i + 1;
    }
    assert(strs(out@) =~= best.map_values(|s: (nat, Seq<char>)| s.1));
    out
}

// ---------------------------------------------------------------------------
// Ranges and symbols
// ---------------------------------------------------------------------------

/// The lines that a text such as `45-89` stands for, counted from one.
pub open spec fn range_of(s: Seq<char>) -> Option<(nat, nat)> {
    match char_at(s, '-') {
        Some(i) => match (
            parse_uint(trim(s.take(i)), usize::MAX as nat),
            parse_uint(trim(s.skip(i + 1)), usize::MAX as nat),
        ) {
            (Some(a), Some(b)) => if a == 0 || b < a {
                None
            } else {
                Some((a, b))
            },
            _ => None,
        },
        None => None,
    }
}

/// The lines that a text such as `45-89` stands for, counted from one.
pub fn parse_range(s: &str) -> (r: Option<(usize, usize)>)
    ensures
        match r {
            Some((a, b)) => range_of(s@) == Some((a as nat, b as nat)),
            None => range_of(s@) is None,
        },
{
    let c = chars_of(s);
    let n: usize = c.len();
    let i: usize = match find_char(c.as_slice(), '-') {
        Some(i) => i,
        None => {
            return None;
        },
    };
    proof {
        crate::text::lemma_char_at(c@, '-');
        assert(c@.subrange(0, i as int) =~= c@.take(i as int));
        assert(c@.subrange(i + 1, n as int) =~= c@.skip(i + 1));
    }
    let a: u64 = match parse_u64(trim_of(slice_subrange(c.as_slice(), 0, i)), usize::MAX as u64) {
        Some(a) => a,
        None => {
            return None;
        },
    };
    let b: u64 = match parse_u64(trim_of(slice_subrange(c.as_slice(), i + 1, n)), usize::MAX as u64) {
        Some(b) => b,
        None => {
            return None;
        },
    };
    if a == 0 || b < a {
        None
    } else {
        Some((a as usize, b as usize))
    }
}

/// The lines of the first entry from `i` on that has the name, at any depth.
pub open spec fn named_lines(entries: Seq<EntryView>, name: Seq<char>, i: int) -> Option<(u32, u32)>
    decreases entries, entries.len() - i,
{
    if i < 0 || i >= entries.len() {
        None
    } else {
        let e = entries[i];
        if e.name == name {
            Some((e.start_line, e.end_line))
        } else {
            match named_lines(e.children, name, 0) {
                Some(r) => Some(r),
                None => named_lines(entries, name, i + 1),
            }
        }
    }
}

/// The lines of the first entry that has the name, at any depth.
pub fn find_symbol_in_entries(entries: &[OutlineEntry], symbol: &str) -> (r: Option<(usize, usize)>)
    ensures
        match r {
            Some((a, b)) => named_lines(entries_view(entries@), symbol@, 0) == Some(
                (a as u32, b as u32),
            ) && a <= u32::MAX && b <= u32::MAX,
            None => named_lines(entries_view(entries@), symbol@, 0) is None,
        },
    decreases entries_view(entries@),
{
    let ghost es = entries_view(entries@);
    let mut i: usize = 0;
    while i < entries.len()
        invariant
            i <= entries@.len(),
            es == entries_view(entries@),
            named_lines(es, symbol@, 0) == named_lines(es, symbol@, i as int),
        decreases entries@.len() - i,
    {
        let e = &entries[i];
        proof {
            crate::types::lemma_children(*e);
            assert(es[i as int] == e@);
        }
        if same_text(e.name.as_str(), symbol) {
            return Some((e.start_line as usize, e.end_line as usize));
        }
        assert(decreases_to!(es => es[i as int].children));
        if let Some(r) = find_symbol_in_entries(e.children.as_slice(), symbol) {
            return Some(r);
        }
        i = i + 1;
    }
    None
}

/// The lines of the symbol, where the bytes are code that defines it.
pub open spec fn symbol_section(buf: Seq<u8>, path: Seq<char>, symbol: Seq<char>) -> Option<(u32, u32)> {
    match file_type(path) {
        FileType::Code(lang) => if valid_utf8(buf) {
            named_lines(outline_of(decode_utf8(buf), lang), symbol, 0)
        } else {
            None
        },
        _ => None,
    }
}

/// The lines of the symbol, where the bytes are code that defines it.
pub fn resolve_symbol(buf: &[u8], path: &str, symbol: &str) -> (r: Option<(usize, usize)>)
    ensures
        match r {
            Some((a, b)) => symbol_section(buf@, path@, symbol@) == Some((a as u32, b as u32)) && a
                <= u32::MAX && b <= u32::MAX,
            None => symbol_section(buf@, path@, symbol@) is None,
        },
{
    let content = match decode(buf) {
        Some(c) => c,
        None => {
            return None;
        },
    };
    match detect_file_type(path) {
        FileType::Code(lang) => {
            let entries = get_outline_entries(content, lang);
            find_symbol_in_entries(entries.as_slice(), symbol)
        },
        _ => None,
    }
}

// ---------------------------------------------------------------------------
// Sections
// ---------------------------------------------------------------------------

/// Why there is no such section.
#[derive(Debug)]
pub enum SectionError {
    /// There is no such heading; these are the closest.
    HeadingNotFound(Vec<String>),
    /// The text is no range, no heading and no symbol of the file.
    NotASection,
    /// The range lies behind the last line of the file, which has so many.
    OutOfBounds(usize),
}

/// Why there is no such section.
pub enum SectionErrorView {
    HeadingNotFound(Seq<Seq<char>>),
    NotASection,
    OutOfBounds(nat),
}

impl View for SectionError {
    type V = SectionErrorView;

    open spec fn view(&self) -> SectionErrorView {
        match self {
            SectionError::HeadingNotFound(v) => SectionErrorView::HeadingNotFound(strs(v@)),
            SectionError::NotASection => SectionErrorView::NotASection,
            SectionError::OutOfBounds(n) => SectionErrorView::OutOfBounds(*n as nat),
        }
    }
}

/// What is said where there is no such section.
pub open spec fn section_reason(e: SectionErrorView) -> Seq<char> {
    match e {
        SectionErrorView::HeadingNotFound(v) => if v.len() == 0 {
            "heading not found in file"@
        } else {
            "heading not found in file. Closest matches:\n  "@ + join(v, "\n  "@)
        },
        SectionErrorView::NotASection =>
            "not a valid line range (e.g. \"45-89\"), heading (e.g. \"## Foo\"), or symbol name in this file"@,
        SectionErrorView::OutOfBounds(n) => "range out of bounds (file has "@ + dec(n) + " lines)"@,
    }
}

/// What is said where there is no such section.
pub fn section_error_reason(e: &SectionError) -> (r: String)
    ensures
        r@ == section_reason(e@),
{
    match e {
        SectionError::HeadingNotFound(v) => {
            assert(strs(v@).len() == v@.len());
            if v.len() == 0 {
                "heading not found in file".to_owned()
            } else {
                let mut s = "heading not found in file. Closest matches:\n  ".to_owned();
                s.append(join_strings(v.as_slice(), "\n  ").as_str());
                s
            }
        },
        SectionError::NotASection =>
            "not a valid line range (e.g. \"45-89\"), heading (e.g. \"## Foo\"), or symbol name in this file".to_owned(),
        SectionError::OutOfBounds(n) => {
            let mut s = "range out of bounds (file has ".to_owned();
            push_dec(&mut s, *n);
            s.append(" lines)");
            s
        },
    }
}

/// How many headings are suggested.
pub const SUGGESTED_HEADINGS: usize = 5;

/// The lines that the text asks for: a heading, a range or a symbol.
pub open spec fn section_lines(buf: Seq<u8>, path: Seq<char>, range: Seq<char>) -> Result<
    (nat, nat),
    SectionErrorView,
> {
    if range.len() > 0 && range[0] == '#' {
        match heading_section(buf, range) {
            Some(r) => Ok(r),
            None => Err(
                SectionErrorView::HeadingNotFound(
                    closest_headings(buf, range, SUGGESTED_HEADINGS as nat),
                ),
            ),
        }
    } else {
        match range_of(range) {
            Some(r) => Ok(r),
            None => match symbol_section(buf, path, range) {
                Some((a, b)) => Ok((a as nat, b as nat)),
                None => Err(SectionErrorView::NotASection),
            },
        }
    }
}

/// A part of a file.
#[derive(Debug)]
pub struct Section {
    /// The number of its first line.
    pub first_line: usize,
    pub line_count: usize,
    pub start_byte: usize,
    pub end_byte: usize,
}

/// A part of a file.
pub struct SectionView {
    pub first_line: nat,
    pub line_count: nat,
    pub start_byte: int,
    pub end_byte: int,
}

impl View for Section {
    type V = SectionView;

    open spec fn view(&self) -> SectionView {
        SectionView {
            first_line: self.first_line as nat,
            line_count: self.line_count as nat,
            start_byte: self.start_byte as int,
            end_byte: self.end_byte as int,
        }
    }
}

/// The bytes of the lines from `start` to `end`, as far as there are such.
pub open spec fn bytes_of_lines(buf: Seq<u8>, start: nat, end: nat) -> Result<
    SectionView,
    SectionErrorView,
> {
    let starts = line_starts(buf);
    let total = starts.len();
    let before: nat = if start > 0 {
        (start - 1) as nat
    } else {
        0
    };
    let s = if before < total {
        before
    } else {
        total
    };
    let e = if end < total {
        end
    } else {
        total
    };
    if s >= e {
        Err(SectionErrorView::OutOfBounds(total))
    } else {
        Ok(
            SectionView {
                first_line: start,
                line_count: (e - s) as nat,
                start_byte: starts[s as int],
                end_byte: if e < total {
                    starts[e as int]
                } else {
                    buf.len() as int
                },
            },
        )
    }
}

/// The part of the file that the text asks for.
pub open spec fn section_of(buf: Seq<u8>, path: Seq<char>, range: Seq<char>) -> Result<
    SectionView,
    SectionErrorView,
> {
    match section_lines(buf, path, range) {
        Ok((a, b)) => bytes_of_lines(buf, a, b),
        Err(e) => Err(e),
    }
}

/// What a result says.
pub open spec fn section_view(r: Result<Section, SectionError>) -> Result<SectionView, SectionErrorView> {
    match r {
        Ok(s) => Ok(s@),
        Err(e) => Err(e@),
    }
}

fn lines_asked(buf: &[u8], path: &str, range: &str) -> (r: Result<(usize, usize), SectionError>)
    ensures
        match r {
            Ok((a, b)) => section_lines(buf@, path@, range@) == Ok::<(nat, nat), SectionErrorView>(
                (a as nat, b as nat),
            ),
            Err(e) => section_lines(buf@, path@, range@) == Err::<(nat, nat), SectionErrorView>(e@),
        },
{
    let c = chars_of(range);
    if c.len() > 0 && c[0] == '#' {
        match resolve_heading(buf, range) {
            Some(r) => Ok(r),
            None => Err(
                SectionError::HeadingNotFound(suggest_headings(buf, range, SUGGESTED_HEADINGS)),
            ),
        }
    } else {
        match parse_range(range) {
            Some(r) => Ok(r),
            None => match resolve_symbol(buf, path, range) {
                Some(r) => Ok(r),
                None => Err(SectionError::NotASection),
            },
        }
    }
}

/// The part of the file that the text asks for.
pub fn read_section(buf: &[u8], path: &str, range: &str) -> (r: Result<Section, SectionError>)
    ensures
        section_view(r) == section_of(buf@, path@, range@),
        r matches Ok(s) ==> s.start_byte <= s.end_byte <= buf@.len(),
{
    let (start, end): (usize, usize) = match lines_asked(buf, path, range) {
        Ok(r) => r,
        Err(e) => {
            return Err(e);
        },
    };
    let starts = starts_of(buf);
    let ghost st = line_starts(buf@);
    assert(ints(starts@).len() == starts@.len());
    let total: usize = starts.len();
    let before: usize = if start > 0 {
        start - 1
    } else {
        0
    };
    let s: usize = if before < total {
        before
    } else {
        total
    };
    let e: usize = if end < total {
        end
    } else {
        total
    };
    if s >= e {
        return Err(SectionError::OutOfBounds(total));
    }
    assert(st[s as int] == starts@[s as int]);
    let end_byte: usize = if e < total {
        assert(st[e as int] == starts@[e as int]);
        assert(starts@[s as int] < starts@[e as int]);
        starts[e]
    } else {
        buf.len()
    };
    Ok(Section { first_line: start, line_count: e - s, start_byte: starts[s], end_byte })
}

/// A section that a range asks for holds the lines of the range, as many as there are
/// up to the end of the file.
pub proof fn law_range_section(buf: Seq<u8>, path: Seq<char>, range: Seq<char>, a: nat, b: nat)
    requires
        range_of(range) == Some((a, b)),
        range[0] != '#',
        a <= line_starts(buf).len(),
    ensures
        section_of(buf, path, range) matches Ok(s) && s.first_line == a && s.start_byte
            == line_starts(buf)[a - 1] && s.line_count == (if b < line_starts(buf).len() {
            b
        } else {
            line_starts(buf).len()
        }) - a + 1,
{
}

/// A section under a heading starts with the heading.
pub proof fn law_section_starts_with_heading(buf: Seq<u8>, heading: Seq<char>)
    requires
        heading_section(buf, heading) is Some,
    ensures
        ({
            let (a, b) = heading_section(buf, heading)->0;
            &&& 1 <= a <= line_starts(buf).len()
            &&& line_text(buf, a - 1) matches Some(t) && is_heading(t, trim_end(heading))
            &&& a <= b
        }),
{
    let h = trim_end(heading);
    let s = heading_line(buf, h, 0, false)->0;
    lemma_heading_line(buf, h, 0, false);
    lemma_line_starts(buf);
    lemma_next_heading(buf, leading(h, '#'), s + 1, false);
    if next_heading(buf, leading(h, '#'), s + 1, false) is None && buf.len() > 0 && buf.last() == 10 {
        lemma_last_line_empty(buf);
        if s == line_starts(buf).len() - 1 {
            let t = line_text(buf, s)->0;
            assert(line_bytes(buf, s) =~= Seq::<u8>::empty());
            lemma_empty_text();
            assert(t.len() == 0);
            assert(h.len() > 0);
            if h.is_prefix_of(t) {
                assert(h =~= t.subrange(0, h.len() as int));
            }
        }
    }
}

proof fn lemma_empty_text()
    ensures
        trim_end(decode_utf8(Seq::<u8>::empty())).len() == 0,
{
    assert(decode_utf8(Seq::<u8>::empty()).len() == 0) by {
        encode_utf8_decode_utf8(Seq::<char>::empty());
        assert(encode_utf8(Seq::<char>::empty()) =~= Seq::<u8>::empty());
    }
}

proof fn lemma_heading_line(buf: Seq<u8>, h: Seq<char>, k: int, code: bool)
    requires
        0 <= k,
    ensures
        heading_line(buf, h, k, code) matches Some(s) ==> k <= s < line_starts(buf).len() && (
        line_text(buf, s) matches Some(t) && is_heading(t, h)),
    decreases line_starts(buf).len() - k,
{
    if k < line_starts(buf).len() {
        lemma_heading_line(buf, h, k + 1, code);
        lemma_heading_line(buf, h, k + 1, !code);
    }
}

proof fn lemma_next_heading(buf: Seq<u8>, level: nat, k: int, code: bool)
    requires
        0 <= k,
    ensures
        next_heading(buf, level, k, code) matches Some(s) ==> k <= s < line_starts(buf).len(),
    decreases line_starts(buf).len() - k,
{
    if k < line_starts(buf).len() {
        lemma_next_heading(buf, level, k + 1, code);
        lemma_next_heading(buf, level, k + 1, !code);
    }
}

proof fn lemma_last_line_empty(buf: Seq<u8>)
    requires
        buf.len() > 0,
        buf.last() == 10,
    ensures
        line_starts(buf).last() == buf.len(),
        line_starts(buf).len() > 1,
{
    let p = byte_positions(buf, 10);
    assert(p.last() == buf.len() - 1);
    assert(line_starts(buf).last() == p.last() + 1);
}

/// How many of the lines from `a` to before `b` open or close a block of code.
pub open spec fn fences(buf: Seq<u8>, a: int, b: int) -> nat
    decreases b - a,
{
    if a >= b {
        0
    } else {
        fences(buf, a + 1, b) + (if line_text(buf, a) matches Some(t) && "```"@.is_prefix_of(t) {
            1nat
        } else {
            0nat
        })
    }
}

/// Line `k` stands outside of any block of code, where line `a` does if `code` is false,
/// and is no fence itself.
pub open spec fn is_prose(buf: Seq<u8>, a: int, code: bool, k: int) -> bool {
    &&& line_text(buf, k) is Some
    &&& !"```"@.is_prefix_of(line_text(buf, k)->0)
    &&& code == (fences(buf, a, k) % 2 == 1)
}

proof fn lemma_prose_step(buf: Seq<u8>, a: int, code: bool, k: int)
    requires
        a < k,
    ensures
        is_prose(buf, a, code, k) <==> is_prose(
            buf,
            a + 1,
            if line_text(buf, a) matches Some(t) && is_fence(t) {
                !code
            } else {
                code
            },
            k,
        ),
{
    let f = fences(buf, a + 1, k);
    assert(fences(buf, a, k) == f + (if line_text(buf, a) matches Some(t) && "```"@.is_prefix_of(t) {
        1nat
    } else {
        0nat
    }));
    assert((f + 1) % 2 == 1 <==> f % 2 == 0);
    assert((f + 1) % 2 == 0 <==> f % 2 == 1);
}

/// The heading that is found is the first line outside of any block of code that is the
/// heading; where none is found there is none.
pub proof fn law_first_heading_is_found(buf: Seq<u8>, heading: Seq<char>, a: int, code: bool)
    requires
        0 <= a <= line_starts(buf).len(),
    ensures
        match heading_line(buf, heading, a, code) {
            Some(s) => {
                &&& a <= s < line_starts(buf).len()
                &&& is_prose(buf, a, code, s)
                &&& is_heading(line_text(buf, s)->0, heading)
                &&& forall|k: int|
                    a <= k < s && #[trigger] is_prose(buf, a, code, k) ==> !is_heading(
                        line_text(buf, k)->0,
                        heading,
                    )
            },
            None => forall|k: int|
                a <= k < line_starts(buf).len() && #[trigger] is_prose(buf, a, code, k)
                    ==> !is_heading(line_text(buf, k)->0, heading),
        },
    decreases line_starts(buf).len() - a,
{
    if a < line_starts(buf).len() {
        let flips = line_text(buf, a) matches Some(t) && is_fence(t);
        let inside = if flips {
            !code
        } else {
            code
        };
        law_first_heading_is_found(buf, heading, a + 1, inside);
        assert(fences(buf, a, a) == 0);
        assert forall|k: int| a < k implies is_prose(buf, a, code, k) == #[trigger] is_prose(
            buf,
            a + 1,
            inside,
            k,
        ) by {
            lemma_prose_step(buf, a, code, k);
        }
        assert forall|k: int| a < k implies #[trigger] is_prose(buf, a, code, k) == is_prose(
            buf,
            a + 1,
            inside,
            k,
        ) by {
            lemma_prose_step(buf, a, code, k);
        }
    }
}

/// A section ends at the first line outside of any block of code that is a heading of
/// the level or a higher one; where there is none it goes on to the end.
pub proof fn law_section_ends_at_next_heading(buf: Seq<u8>, level: nat, a: int, code: bool)
    requires
        0 <= a <= line_starts(buf).len(),
    ensures
        match next_heading(buf, level, a, code) {
            Some(s) => {
                &&& a <= s < line_starts(buf).len()
                &&& is_prose(buf, a, code, s)
                &&& 0 < leading(line_text(buf, s)->0, '#') <= level
                &&& forall|k: int|
                    a <= k < s && #[trigger] is_prose(buf, a, code, k) ==> !(0 < leading(
                        line_text(buf, k)->0,
                        '#',
                    ) <= level)
            },
            None => forall|k: int|
                a <= k < line_starts(buf).len() && #[trigger] is_prose(buf, a, code, k) ==> !(0
                    < leading(line_text(buf, k)->0, '#') <= level),
        },
    decreases line_starts(buf).len() - a,
{
    if a < line_starts(buf).len() {
        let flips = line_text(buf, a) matches Some(t) && is_fence(t);
        let inside = if flips {
            !code
        } else {
            code
        };
        law_section_ends_at_next_heading(buf, level, a + 1, inside);
        assert(fences(buf, a, a) == 0);
        assert forall|k: int| a < k implies is_prose(buf, a, code, k) == #[trigger] is_prose(
            buf,
            a + 1,
            inside,
            k,
        ) by {
            lemma_prose_step(buf, a, code, k);
        }
        assert forall|k: int| a < k implies #[trigger] is_prose(buf, a, code, k) == is_prose(
            buf,
            a + 1,
            inside,
            k,
        ) by {
            lemma_prose_step(buf, a, code, k);
        }
    }
}

/// The signs at the start of a heading are all counted, and the next character is none.
pub proof fn law_leading_counts_all(s: Seq<char>, c: char)
    ensures
        leading(s, c) <= s.len(),
        forall|i: int| 0 <= i < leading(s, c) ==> s[i] == c,
        leading(s, c) < s.len() ==> s[leading(s, c) as int] != c,
    decreases s.len(),
{
    if s.len() > 0 && s[0] == c {
        let t = s.drop_first();
        law_leading_counts_all(t, c);
        assert forall|i: int| 0 <= i < leading(s, c) implies s[i] == c by {
            if i > 0 {
                assert(t[i - 1] == s[i]);
            }
        }
        if leading(s, c) < s.len() {
            assert(t[leading(t, c) as int] == s[leading(s, c) as int]);
        }
    }
}

/// The lines of a file are what stands between its ends of lines: no line holds one,
/// and each but the last is followed by one.
pub proof fn law_lines_stand_between_feeds(buf: Seq<u8>, k: int)
    requires
        0 <= k < line_starts(buf).len(),
    ensures
        !line_bytes(buf, k).contains(10),
        line_starts(buf)[0] == 0,
        k + 1 < line_starts(buf).len() ==> buf.subrange(line_starts(buf)[k], line_starts(buf)[k + 1])
            == line_bytes(buf, k).push(10),
        k + 1 == line_starts(buf).len() ==> buf.skip(line_starts(buf)[k]) == line_bytes(buf, k),
{
    let s = line_starts(buf);
    let p = byte_positions(buf, 10);
    lemma_line_starts(buf);
    lemma_byte_positions(buf, 10);
    lemma_positions_all(buf, 10);
    let end = if k + 1 < s.len() {
        s[k + 1] - 1
    } else {
        buf.len() as int
    };
    if k + 1 < s.len() {
        assert(s[k + 1] == p[k] + 1);
        assert(s[k] <= end);
    }
    let l = line_bytes(buf, k);
    if l.contains(10) {
        let i = choose|i: int| 0 <= i < l.len() && l[i] == 10;
        let at = s[k] + i;
        assert(buf[at] == 10);
        assert(p.contains(at));
        let a = choose|a: int| 0 <= a < p.len() && p[a] == at;
        assert(s[a + 1] == at + 1);
        if a + 1 <= k {
            if a + 1 < k {
                assert(s[a + 1] < s[k]);
            }
        } else if k + 1 < s.len() && a > k {
            assert(p[k] < p[a]);
        } else if a == k && k + 1 < s.len() {
            assert(p[k] == end);
        }
        assert(false);
    }
    if k + 1 < s.len() {
        assert(buf[p[k]] == 10);
        assert(buf.subrange(s[k], s[k + 1]) =~= l.push(10));
    } else {
        assert(buf.skip(s[k]) =~= l);
    }
}

proof fn lemma_positions_all(s: Seq<u8>, b: u8)
    ensures
        forall|i: int|
            0 <= i < s.len() && s[i] == b ==> #[trigger] byte_positions(s, b).contains(i),
    decreases s.len(),
{
    if s.len() > 0 {
        let t = s.drop_last();
        lemma_positions_all(t, b);
        let q = byte_positions(t, b);
        let r = byte_positions(s, b);
        assert forall|i: int| 0 <= i < s.len() && s[i] == b implies #[trigger] r.contains(i) by {
            if i < t.len() {
                assert(t[i] == b);
                assert(q.contains(i));
                let a = choose|a: int| 0 <= a < q.len() && q[a] == i;
                assert(r[a] == i);
            } else {
                assert(r[q.len() as int] == i);
            }
        }
    }
}

/// A section starts at the start of a line and ends at the end of one, and holds every
/// line of the range.
pub proof fn law_section_holds_its_lines(buf: Seq<u8>, start: nat, end: nat)
    requires
        1 <= start <= end,
    ensures
        match bytes_of_lines(buf, start, end) {
            Ok(s) => {
                &&& start <= line_starts(buf).len()
                &&& s.first_line == start
                &&& s.start_byte == line_starts(buf)[start - 1]
                &&& end < line_starts(buf).len() ==> s.end_byte == line_starts(buf)[end as int]
                    && s.line_count == end - start + 1
                &&& end >= line_starts(buf).len() ==> s.end_byte == buf.len() && s.line_count
                    == line_starts(buf).len() - start + 1
            },
            Err(e) => start > line_starts(buf).len() && e == SectionErrorView::OutOfBounds(
                line_starts(buf).len(),
            ),
        },
{
}

/// A range of lines that is written out is read back.
pub proof fn law_written_range_is_read(a: nat, b: nat)
    requires
        1 <= a <= b <= usize::MAX,
    ensures
        range_of(crate::text::dec(a) + "-"@ + crate::text::dec(b)) == Some((a, b)),
{
    reveal_strlit("-");
    let x = crate::text::dec(a);
    let y = crate::text::dec(b);
    let s = x + "-"@ + y;
    crate::text::lemma_dec_value(a);
    crate::text::lemma_dec_value(b);
    crate::text::law_decimal_round_trip(a, usize::MAX as nat);
    crate::text::law_decimal_round_trip(b, usize::MAX as nat);
    crate::text::lemma_char_at(s, '-');
    assert(s[x.len() as int] == '-');
    assert forall|i: int| 0 <= i < x.len() implies s[i] != '-' by {
        assert(crate::text::is_digit(x[i]));
    }
    assert(s.contains('-'));
    assert(char_at(s, '-') == Some(x.len() as int));
    assert(s.take(x.len() as int) =~= x);
    assert(s.skip(x.len() as int + 1) =~= y);
    lemma_trim_digits(x);
    lemma_trim_digits(y);
}

proof fn lemma_trim_digits(s: Seq<char>)
    requires
        crate::text::all_digits(s),
    ensures
        trim(s) == s,
{
    if s.len() > 0 {
        assert(crate::text::is_digit(s[0]));
        assert(crate::text::is_digit(s[s.len() - 1]));
    }
}

/// The symbol that is asked for is found wherever it stands in the outline: at the top,
/// or inside of an entry. The first of that name is taken.
pub proof fn law_named_symbol_is_found(entries: Seq<EntryView>, name: Seq<char>, i: int, k: int)
    requires
        0 <= i <= k < entries.len(),
    ensures
        entries[k].name == name || named_lines(entries[k].children, name, 0) is Some
            ==> named_lines(entries, name, i) is Some,
        entries[i].name == name ==> named_lines(entries, name, i) == Some(
            (entries[i].start_line, entries[i].end_line),
        ),
        entries[i].name != name && named_lines(entries[i].children, name, 0) is Some ==> named_lines(
            entries,
            name,
            i,
        ) == named_lines(entries[i].children, name, 0),
    decreases k - i,
{
    if i < k {
        law_named_symbol_is_found(entries, name, i + 1, k);
    }
}

proof fn lemma_fences_last(buf: Seq<u8>, a: int, b: int)
    requires
        a < b,
    ensures
        fences(buf, a, b) == fences(buf, a, b - 1) + (if line_text(buf, b - 1) matches Some(t)
            && "```"@.is_prefix_of(t) {
            1nat
        } else {
            0nat
        }),
    decreases b - a,
{
    if a < b - 1 {
        lemma_fences_last(buf, a + 1, b);
    } else {
        assert(fences(buf, b, b) == 0);
        assert(fences(buf, a, a) == 0);
    }
}

/// Every heading outside of a block of code is weighed by its distance to what is looked
/// for.
pub proof fn law_every_heading_is_weighed(buf: Seq<u8>, wanted: Seq<char>, n: int, k: int)
    requires
        0 <= k < n,
        is_prose(buf, 0, false, k),
        leading(line_text(buf, k)->0, '#') > 0,
        trim(strip_start(line_text(buf, k)->0, '#')).len() > 0,
    ensures
        scored_headings(buf, wanted, n).0.contains(
            (
                text_distance(
                    ascii_lower(wanted),
                    ascii_lower(heading_words(line_text(buf, k)->0)),
                ),
                line_text(buf, k)->0,
            ),
        ),
    decreases n,
{
    let t = line_text(buf, k)->0;
    let x = (text_distance(ascii_lower(wanted), ascii_lower(heading_words(t))), t);
    let q = scored_headings(buf, wanted, n - 1).0;
    let r = scored_headings(buf, wanted, n).0;
    if k < n - 1 {
        law_every_heading_is_weighed(buf, wanted, n - 1, k);
        let j = choose|j: int| 0 <= j < q.len() && q[j] == x;
        assert(r[j] == x);
    } else {
        lemma_code_is_parity(buf, wanted, k);
        assert(r[q.len() as int] == x);
    }
}

proof fn lemma_code_is_parity(buf: Seq<u8>, wanted: Seq<char>, n: int)
    requires
        0 <= n,
    ensures
        scored_headings(buf, wanted, n).1 == (fences(buf, 0, n) % 2 == 1),
    decreases n,
{
    if n > 0 {
        lemma_code_is_parity(buf, wanted, n - 1);
        lemma_fences_last(buf, 0, n);
    }
}

/// A heading that is not suggested is no closer than any that is, and fewer are
/// suggested than asked for only where there are no more.
pub proof fn law_closest_headings_are_suggested(
    buf: Seq<u8>,
    query: Seq<char>,
    top: nat,
    x: (nat, Seq<char>),
    i: int,
)
    requires
        ({
            let wanted = trim(strip_start(trim_end(query), '#'));
            &&& wanted.len() > 0
            &&& scored_headings(buf, wanted, line_starts(buf).len() as int).0.contains(x)
        }),
        !closest_headings(buf, query, top).contains(x.1),
        0 <= i < closest_headings(buf, query, top).len(),
    ensures
        closest_headings(buf, query, top).len() == top,
        ({
            let wanted = trim(strip_start(trim_end(query), '#'));
            exists|y: (nat, Seq<char>)|
                #[trigger] scored_headings(buf, wanted, line_starts(buf).len() as int).0.contains(y)
                    && y.1 == closest_headings(buf, query, top)[i] && y.0 <= x.0
        }),
{
    let wanted = trim(strip_start(trim_end(query), '#'));
    let s = scored_headings(buf, wanted, line_starts(buf).len() as int).0;
    let all = stable_sort(s, closer());
    crate::sort::law_sort_keeps_members(s, closer(), x);
    let k = choose|k: int| 0 <= k < all.len() && all[k] == x;
    let r = closest_headings(buf, query, top);
    if all.len() <= top {
        assert(r[k] == x.1);
    } else {
        if k < top {
            assert(r[k] == x.1);
        }
        let y = all[i];
        assert(r[i] == y.1);
        assert(all.contains(y));
        crate::sort::law_sort_keeps_members(s, closer(), y);
        crate::sort::law_sort_orders(s, closer());
        assert(closer()(all[i], all[k]));
    }
}

} // verus!
