//! The lines that use a symbol.
use vstd::prelude::*;
use vstd::utf8::*;

use crate::text::{has, join, strs};
use crate::types::{found_view, lemma_found_push, Match, MatchView};

use super::io::{escaped, escaped_all, word_pattern, words_pattern, MAX_SEARCH_SIZE};
use super::symbol::{
    buckets_view, dispatch_usage, empty_buckets, find_usage, has_whole_word, no_matches, usage_buckets,
    usage_match, FactsView, FileFacts,
};

verus! {

/// The lines of the bytes that the pattern matches, with their numbers.
pub uninterp spec fn matching_lines(pattern: Seq<char>, bytes: Seq<u8>) -> Option<Seq<(u64, Seq<char>)>>;

/// What lines with their numbers say.
pub open spec fn lines_view(v: Seq<(u64, String)>) -> Seq<(u64, Seq<char>)> {
    v.map_values(|l: (u64, String)| (l.0, l.1@))
}

/// `grep_searcher::Searcher::search_slice`, with the matcher that
/// `grep_regex::RegexMatcher::new` makes of the pattern and the sink
/// `grep_searcher::sinks::UTF8`: the lines that match, up to the first that is no text.
/// There are none where the pattern is not valid.
#[verifier::external_body]
fn search_lines(pattern: &str, bytes: &[u8]) -> (r: Option<Vec<(u64, String)>>)
    ensures
        r is Some <==> matching_lines(pattern@, bytes@) is Some,
        r matches Some(v) ==> Some(lines_view(v@)) == matching_lines(pattern@, bytes@),
{
    let matcher = grep_regex::RegexMatcher::new(pattern).ok()?;
    let mut lines = Vec::new();
    let sink = grep_searcher::sinks::UTF8(|number, line| {
        lines.push((number, line.to_string()));
        Ok(true)
    });
    let _ = grep_searcher::Searcher::new().search_slice(&matcher, bytes, sink);
    Some(lines)
}

/// The number of a line as it is shown: in thirty-two bits.
pub open spec fn shown_number(n: u64) -> u32 {
    (n % 0x1_0000_0000) as u32
}

/// The usages in the first `n` lines that were found.
pub open spec fn usages_of(
    f: FactsView,
    query: Seq<char>,
    lines: Seq<(u64, Seq<char>)>,
    n: int,
) -> Seq<MatchView>
    decreases n,
{
    if n <= 0 {
        Seq::empty()
    } else {
        usages_of(f, query, lines, n - 1).push(
            usage_match(f, shown_number(lines[n - 1].0), lines[n - 1].1, has(lines[n - 1].1, query)),
        )
    }
}

/// The usages in the lines that were found.
pub fn usages_in_lines(f: &FileFacts, query: &str, lines: &Vec<(u64, String)>) -> (r: Vec<Match>)
    ensures
        found_view(r@) == usages_of(f@, query@, lines_view(lines@), lines@.len() as int),
{
    broadcast use lemma_found_push;

    let ghost l = lines_view(lines@);
    let mut r: Vec<Match> = Vec::new();
    let mut i: usize = 0;
    assert(found_view(r@) =~= Seq::<MatchView>::empty());
    while i < lines.len()
        invariant
            i <= lines@.len(),
            l == lines_view(lines@),
            found_view(r@) == usages_of(f@, query@, l, i as int),
        decreases lines@.len() - i,
    {
        assert(l[i as int] == (lines@[i as int].0, lines@[i as int].1@));
        let number: u32 = (lines[i].0 % 0x1_0000_0000) as u32;
        r.push(find_usage(f, query, number, lines[i].1.as_str()));
        i = i + 1;
    }
    r
}

/// The lines of a file that the pattern matches, as places of the query.
pub open spec fn file_lines_found(
    f: FactsView,
    pattern: Seq<char>,
    query: Seq<char>,
    size: u64,
    bytes: Seq<u8>,
) -> Option<Seq<MatchView>> {
    if size > MAX_SEARCH_SIZE {
        Some(Seq::empty())
    } else {
        match matching_lines(pattern, bytes) {
            Some(l) => Some(usages_of(f, query, l, l.len() as int)),
            None => None,
        }
    }
}

/// The lines of a file that the pattern matches, unless it is too large. Nothing where
/// the pattern is not valid.
pub fn find_lines(f: &FileFacts, pattern: &str, query: &str, size: u64, bytes: &[u8]) -> (r: Option<
    Vec<Match>,
>)
    ensures
        match r {
            Some(v) => file_lines_found(f@, pattern@, query@, size, bytes@) == Some(found_view(v@)),
            None => file_lines_found(f@, pattern@, query@, size, bytes@) is None,
        },
{
    if size > MAX_SEARCH_SIZE {
        let none: Vec<Match> = Vec::new();
        assert(found_view(none@) =~= Seq::<MatchView>::empty());
        return Some(none);
    }
    match search_lines(pattern, bytes) {
        Some(lines) => {
            assert(lines_view(lines@).len() == lines@.len());
            Some(usages_in_lines(f, query, &lines))
        },
        None => None,
    }
}

/// The usages of the symbol in a file.
pub open spec fn file_usages(f: FactsView, query: Seq<char>, size: u64, bytes: Seq<u8>) -> Option<
    Seq<MatchView>,
> {
    file_lines_found(f, "\\b"@ + escaped(query) + "\\b"@, query, size, bytes)
}

/// The usages of the symbol in a file, unless it is too large: the lines that have it
/// as a word. Nothing where there can be no pattern for the symbol.
pub fn find_usages(f: &FileFacts, query: &str, size: u64, bytes: &[u8]) -> (r: Option<Vec<Match>>)
    ensures
        match r {
            Some(v) => file_usages(f@, query@, size, bytes@) == Some(found_view(v@)),
            None => file_usages(f@, query@, size, bytes@) is None,
        },
{
    let pattern = word_pattern(query);
    find_lines(f, pattern.as_str(), query, size, bytes)
}

/// The usages of each of the symbols in the first `n` lines that were found.
pub open spec fn batch_usages_of(
    f: FactsView,
    queries: Seq<Seq<char>>,
    lines: Seq<(u64, Seq<char>)>,
    n: int,
) -> Seq<Seq<MatchView>>
    decreases n,
{
    if n <= 0 {
        no_matches(queries.len())
    } else {
        usage_buckets(
            batch_usages_of(f, queries, lines, n - 1),
            f,
            queries,
            shown_number(lines[n - 1].0),
            lines[n - 1].1,
        )
    }
}

/// The usages of each of the symbols in the lines that were found.
pub fn batch_usages_in_lines(f: &FileFacts, queries: &[String], lines: &Vec<(u64, String)>) -> (r: Vec<
    Vec<Match>,
>)
    ensures
        buckets_view(r@) == batch_usages_of(
            f@,
            strs(queries@),
            lines_view(lines@),
            lines@.len() as int,
        ),
{
    let ghost l = lines_view(lines@);
    let ghost q = strs(queries@);
    assert(q.len() == queries@.len());
    let mut r = empty_buckets(queries.len());
    let mut i: usize = 0;
    while i < lines.len()
        invariant
            i <= lines@.len(),
            l == lines_view(lines@),
            q == strs(queries@),
            r@.len() == queries@.len(),
            buckets_view(r@) == batch_usages_of(f@, q, l, i as int),
        decreases lines@.len() - i,
    {
        assert(l[i as int] == (lines@[i as int].0, lines@[i as int].1@));
        let number: u32 = (lines[i].0 % 0x1_0000_0000) as u32;
        dispatch_usage(&mut r, f, queries, number, lines[i].1.as_str());
        assert(buckets_view(r@).len() == r@.len());
        i = i + 1;
    }
    r
}

/// The usages of each of the symbols in a file.
pub open spec fn file_batch_usages(
    f: FactsView,
    queries: Seq<Seq<char>>,
    size: u64,
    bytes: Seq<u8>,
) -> Option<Seq<Seq<MatchView>>> {
    if size > MAX_SEARCH_SIZE {
        Some(no_matches(queries.len()))
    } else {
        match matching_lines(
            "\\b(?:"@ + join(escaped_all(queries), "|"@) + ")\\b"@,
            bytes,
        ) {
            Some(l) => Some(batch_usages_of(f, queries, l, l.len() as int)),
            None => None,
        }
    }
}

/// The usages of each of the symbols in a file, unless it is too large. Nothing where
/// there can be no pattern for the symbols.
pub fn find_usages_batch(f: &FileFacts, queries: &[String], size: u64, bytes: &[u8]) -> (r: Option<
    Vec<Vec<Match>>,
>)
    ensures
        match r {
            Some(v) => file_batch_usages(f@, strs(queries@), size, bytes@) == Some(buckets_view(v@)),
            None => file_batch_usages(f@, strs(queries@), size, bytes@) is None,
        },
{
    if size > MAX_SEARCH_SIZE {
        assert(strs(queries@).len() == queries@.len());
        return Some(empty_buckets(queries.len()));
    }
    let pattern = words_pattern(queries);
    match search_lines(pattern.as_str(), bytes) {
        Some(lines) => {
            assert(lines_view(lines@).len() == lines@.len());
            Some(batch_usages_in_lines(f, queries, &lines))
        },
        None => None,
    }
}

/// What is found in a file for one symbol among several stands on lines that have the
/// symbol as a whole word.
pub proof fn law_batch_usages_are_words(
    f: FactsView,
    queries: Seq<Seq<char>>,
    lines: Seq<(u64, Seq<char>)>,
    n: int,
    q: int,
    k: int,
)
    requires
        0 <= n <= lines.len(),
        0 <= q < queries.len(),
        0 <= k < batch_usages_of(f, queries, lines, n)[q].len(),
    ensures
        exists|i: int|
            0 <= i < n && has_whole_word(
                encode_utf8((#[trigger] lines[i]).1),
                encode_utf8(queries[q]),
            ) && batch_usages_of(f, queries, lines, n)[q][k] == usage_match(
                f,
                shown_number(lines[i].0),
                lines[i].1,
                true,
            ),
    decreases n,
{
    lemma_bucket_count(f, queries, lines, n);
    if n > 0 {
        lemma_bucket_count(f, queries, lines, n - 1);
        let before = batch_usages_of(f, queries, lines, n - 1);
        if k < before[q].len() {
            law_batch_usages_are_words(f, queries, lines, n - 1, q, k);
            let i = choose|i: int|
                0 <= i < n - 1 && has_whole_word(
                    encode_utf8((#[trigger] lines[i]).1),
                    encode_utf8(queries[q]),
                ) && before[q][k] == usage_match(f, shown_number(lines[i].0), lines[i].1, true);
            assert(batch_usages_of(f, queries, lines, n)[q][k] == before[q][k]);
            assert(lines[i] == lines[i]);
        } else {
            assert(lines[n - 1] == lines[n - 1]);
        }
    }
}

proof fn lemma_bucket_count(
    f: FactsView,
    queries: Seq<Seq<char>>,
    lines: Seq<(u64, Seq<char>)>,
    n: int,
)
    ensures
        batch_usages_of(f, queries, lines, n).len() == queries.len(),
    decreases n,
{
    if n > 0 {
        lemma_bucket_count(f, queries, lines, n - 1);
    }
}

/// Each line that was found gives one usage, in order: on its line, with its text, and
/// exact where the line has the symbol itself.
pub proof fn law_every_line_is_a_usage(
    f: FactsView,
    query: Seq<char>,
    lines: Seq<(u64, Seq<char>)>,
    n: int,
)
    requires
        0 <= n <= lines.len(),
    ensures
        usages_of(f, query, lines, n).len() == n,
        forall|i: int|
            #![trigger usages_of(f, query, lines, n)[i]]
            0 <= i < n ==> {
                let m = usages_of(f, query, lines, n)[i];
                &&& m.path == f.path
                &&& lines[i].0 <= u32::MAX ==> m.line == lines[i].0
                &&& m.text == crate::text::trim_end(lines[i].1)
                &&& m.exact == has(lines[i].1, query)
                &&& !m.is_definition
            },
    decreases n,
{
    if n > 0 {
        law_every_line_is_a_usage(f, query, lines, n - 1);
        let q = usages_of(f, query, lines, n - 1);
        let r = usages_of(f, query, lines, n);
        assert forall|i: int| 0 <= i < n implies {
            let m = #[trigger] r[i];
            &&& m.path == f.path
            &&& lines[i].0 <= u32::MAX ==> m.line == lines[i].0
            &&& m.text == crate::text::trim_end(lines[i].1)
            &&& m.exact == has(lines[i].1, query)
            &&& !m.is_definition
        } by {
            if i < n - 1 {
                assert(r[i] == q[i]);
            }
        }
    }
}

/// Of several symbols that are looked for together, each gets every line that has it
/// as a whole word.
pub proof fn law_batch_usages_are_complete(
    f: FactsView,
    queries: Seq<Seq<char>>,
    lines: Seq<(u64, Seq<char>)>,
    n: int,
    q: int,
    i: int,
)
    requires
        0 <= i < n <= lines.len(),
        0 <= q < queries.len(),
        lines[i].0 <= u32::MAX,
        has_whole_word(encode_utf8(lines[i].1), encode_utf8(queries[q])),
    ensures
        batch_usages_of(f, queries, lines, n).len() == queries.len(),
        exists|k: int|
            0 <= k < batch_usages_of(f, queries, lines, n)[q].len() && (#[trigger] batch_usages_of(
                f,
                queries,
                lines,
                n,
            )[q][k]).line == lines[i].0 && batch_usages_of(f, queries, lines, n)[q][k].path == f.path
                && batch_usages_of(f, queries, lines, n)[q][k].text == crate::text::trim_end(
                lines[i].1,
            ),
    decreases n,
{
    lemma_bucket_count(f, queries, lines, n);
    lemma_bucket_count(f, queries, lines, n - 1);
    let before = batch_usages_of(f, queries, lines, n - 1);
    let after = batch_usages_of(f, queries, lines, n);
    if i < n - 1 {
        law_batch_usages_are_complete(f, queries, lines, n - 1, q, i);
        let k = choose|k: int|
            0 <= k < before[q].len() && (#[trigger] before[q][k]).line == lines[i].0
                && before[q][k].path == f.path && before[q][k].text == crate::text::trim_end(
                lines[i].1,
            );
        assert(after[q][k] == before[q][k]);
    } else {
        assert(after[q][before[q].len() as int].line == lines[i].0);
    }
}

} // verus!
