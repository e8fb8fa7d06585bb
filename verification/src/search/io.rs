//! What to look at: which directories and files, and which bytes are worth a
//! closer look.
use vstd::prelude::*;
use vstd::slice::slice_subrange;
use vstd::string::*;
use vstd::utf8::*;

use crate::paths::{file_name, file_name_of, name_extension};
use crate::types::ints;
use crate::text::{
    ascii_lower, chars_of, has_suffix, last_char_at, lower_ascii, rfind_char, same_text, string_of, strs,
};

verus! {

/// The directory holds build artifacts, dependencies or the insides of a tool.
pub open spec fn is_skipped(name: Seq<char>) -> bool {
    ||| name == ".git"@
    ||| name == "node_modules"@
    ||| name == "target"@
    ||| name == "dist"@
    ||| name == "build"@
    ||| name == "__pycache__"@
    ||| name == ".pycache"@
    ||| name == "vendor"@
    ||| name == ".next"@
    ||| name == ".nuxt"@
    ||| name == "coverage"@
    ||| name == ".cache"@
    ||| name == ".tox"@
    ||| name == ".venv"@
    ||| name == ".eggs"@
    ||| name == ".mypy_cache"@
    ||| name == ".ruff_cache"@
    ||| name == ".pytest_cache"@
    ||| name == ".turbo"@
    ||| name == ".parcel-cache"@
    ||| name == ".svelte-kit"@
    ||| name == "out"@
    ||| name == ".output"@
    ||| name == ".vercel"@
    ||| name == ".netlify"@
    ||| name == ".gradle"@
    ||| name == ".idea"@
    ||| name == ".scala-build"@
    ||| name == ".bloop"@
    ||| name == ".metals"@
}

/// Whether the directory is always skipped.
pub fn is_skipped_dir(name: &str) -> (r: bool)
    ensures
        r == is_skipped(name@),
{
    same_text(name, ".git") || same_text(name, "node_modules") || same_text(name, "target") || same_text(name, "dist") || same_text(name, "build") || same_text(name, "__pycache__") || same_text(name, ".pycache") || same_text(name, "vendor") || same_text(name, ".next") || same_text(name, ".nuxt") || same_text(name, "coverage") || same_text(name, ".cache") || same_text(name, ".tox") || same_text(name, ".venv") || same_text(name, ".eggs") || same_text(name, ".mypy_cache") || same_text(name, ".ruff_cache") || same_text(name, ".pytest_cache") || same_text(name, ".turbo") || same_text(name, ".parcel-cache") || same_text(name, ".svelte-kit") || same_text(name, "out") || same_text(name, ".output") || same_text(name, ".vercel") || same_text(name, ".netlify") || same_text(name, ".gradle") || same_text(name, ".idea") || same_text(name, ".scala-build") || same_text(name, ".bloop") || same_text(name, ".metals")
}

/// The size above which a file is not searched.
pub const MAX_SEARCH_SIZE: u64 = 500_000;

/// The size from which on a file may be minified.
pub const MINIFIED_CHECK_THRESHOLD: u64 = 100_000;

/// The size below which a file is read rather than mapped.
pub const MMAP_THRESHOLD: u64 = 16_384;

/// The name is that of minified code: before the extension it ends in `.min` or
/// `-min`.
pub open spec fn minified_name(name: Seq<char>) -> bool {
    match last_char_at(name, '.') {
        None => false,
        Some(i) => {
            let stem = name.take(i);
            let inner = match file_name(stem) {
                Some(n) => name_extension(n),
                None => None,
            };
            ||| inner is Some && ascii_lower(inner->0) == "min"@
            ||| "-min"@.is_suffix_of(ascii_lower(stem))
        },
    }
}

/// The path is that of minified code by its name.
pub open spec fn minified_path(path: Seq<char>) -> bool {
    match file_name(path) {
        Some(n) => minified_name(n),
        None => false,
    }
}

/// Whether the path is that of minified code by its name.
pub fn is_minified_filename(path: &str) -> (r: bool)
    ensures
        r == minified_path(path@),
{
    let name = match file_name_of(path) {
        Some(n) => n,
        None => {
            return false;
        },
    };
    let s = chars_of(name.as_str());
    match rfind_char(s.as_slice(), '.') {
        None => false,
        Some(i) => {
            assert(s@.subrange(0, i as int) =~= s@.take(i as int));
            let stem = string_of(slice_subrange(s.as_slice(), 0, i));
            let dot_min = match crate::paths::extension_of(stem.as_str()) {
                Some(e) => {
                    let low = lower_ascii(e.as_str());
                    same_text(low.as_str(), "min")
                },
                None => false,
            };
            let low = lower_ascii(stem.as_str());
            let l = chars_of(low.as_str());
            dot_min || has_suffix(l.as_slice(), "-min")
        },
    }
}

// ---------------------------------------------------------------------------
// Bytes
// ---------------------------------------------------------------------------

/// The positions at which the byte stands.
pub open spec fn byte_positions(s: Seq<u8>, b: u8) -> Seq<int>
    decreases s.len(),
{
    if s.len() == 0 {
        Seq::empty()
    } else if s.last() == b {
        byte_positions(s.drop_last(), b).push(s.len() - 1)
    } else {
        byte_positions(s.drop_last(), b)
    }
}

/// `memchr::memchr_iter`: the positions at which the byte stands, in rising order.
#[verifier::external_body]
pub(crate) fn positions_of_byte(b: u8, bytes: &[u8]) -> (r: Vec<usize>)
    ensures
        ints(r@) == byte_positions(bytes@, b),
{
    memchr::memchr_iter(b, bytes).collect()
}

/// How often the byte occurs.
pub open spec fn byte_count_of(s: Seq<u8>, b: u8) -> nat {
    byte_positions(s, b).len()
}

/// How often the byte occurs.
pub fn count_byte(b: u8, bytes: &[u8]) -> (r: usize)
    ensures
        r == byte_count_of(bytes@, b),
{
    let p = positions_of_byte(b, bytes);
    assert(ints(p@).len() == p@.len());
    p.len()
}

/// The positions of a byte rise and lie in the bytes; the byte stands there and
/// nowhere else.
pub proof fn lemma_byte_positions(s: Seq<u8>, b: u8)
    ensures
        forall|i: int|
            0 <= i < byte_positions(s, b).len() ==> 0 <= #[trigger] byte_positions(s, b)[i] < s.len()
                && s[byte_positions(s, b)[i]] == b,
        forall|i: int, j: int|
            0 <= i < j < byte_positions(s, b).len() ==> #[trigger] byte_positions(s, b)[i]
                < #[trigger] byte_positions(s, b)[j],
        byte_positions(s, b).len() <= s.len(),
    decreases s.len(),
{
    if s.len() > 0 {
        let t = s.drop_last();
        lemma_byte_positions(t, b);
        let r = byte_positions(t, b);
        let p = byte_positions(s, b);
        assert forall|i: int| 0 <= i < p.len() implies 0 <= #[trigger] p[i] < s.len() && s[p[i]] == b by {
            if i < r.len() {
                assert(p[i] == r[i]);
                assert(t[r[i]] == b);
            }
        }
        assert forall|i: int, j: int| 0 <= i < j < p.len() implies #[trigger] p[i] < #[trigger] p[j] by {
            assert(p[i] == r[i]);
            if j < r.len() {
                assert(p[j] == r[j]);
            }
        }
    }
}

/// The pattern stands at position `i`.
pub open spec fn bytes_at(s: Seq<u8>, p: Seq<u8>, i: int) -> bool {
    0 <= i && i + p.len() <= s.len() && s.subrange(i, i + p.len()) == p
}

/// The pattern stands somewhere.
pub open spec fn bytes_have(s: Seq<u8>, p: Seq<u8>) -> bool {
    exists|i: int| bytes_at(s, p, i)
}

/// `memchr::memmem::find`: the first position where the needle stands.
#[verifier::external_body]
pub(crate) fn find_bytes(haystack: &[u8], needle: &[u8]) -> (r: Option<usize>)
    ensures
        r matches Some(i) ==> bytes_at(haystack@, needle@, i as int) && (forall|j: int|
            0 <= j < i ==> !bytes_at(haystack@, needle@, j)),
        r is None ==> !bytes_have(haystack@, needle@),
{
    memchr::memmem::find(haystack, needle)
}

/// `aho_corasick::AhoCorasick::is_match`: whether one of the patterns stands
/// somewhere in the bytes. There is no answer where the patterns are too many.
#[verifier::external_body]
fn any_pattern(patterns: &[String], bytes: &[u8]) -> (r: Option<bool>)
    ensures
        r matches Some(b) ==> b == exists|k: int|
            0 <= k < patterns@.len() && bytes_have(
                bytes@,
                encode_utf8((#[trigger] patterns@[k])@),
            ),
{
    aho_corasick::AhoCorasick::new(patterns).ok().map(|ac| ac.is_match(bytes))
}

/// The patterns that a scan of the bytes meets, in the order in which it meets
/// them, without overlaps.
pub uninterp spec fn scan_hits(patterns: Seq<Seq<char>>, bytes: Seq<u8>) -> Seq<nat>;

/// The automaton for the patterns can be built.
pub uninterp spec fn scan_possible(patterns: Seq<Seq<char>>) -> bool;

/// `aho_corasick::AhoCorasick::find_iter`: the patterns that a scan meets. Each is
/// the position of a pattern that stands in the bytes, and there is one if any does.
#[verifier::external_body]
fn scan(patterns: &[String], bytes: &[u8]) -> (r: Option<Vec<usize>>)
    ensures
        r is Some <==> scan_possible(strs(patterns@)),
        r matches Some(v) ==> v@.map_values(|i: usize| i as nat) == scan_hits(
            strs(patterns@),
            bytes@,
        ),
        r matches Some(v) ==> forall|i: int|
            0 <= i < v@.len() ==> #[trigger] v@[i] < patterns@.len() && bytes_have(
                bytes@,
                encode_utf8(patterns@[v@[i] as int]@),
            ),
        r matches Some(v) ==> (v@.len() > 0 <==> exists|k: int|
            0 <= k < patterns@.len() && bytes_have(bytes@, encode_utf8((#[trigger] patterns@[k])@))),
{
    let ac = aho_corasick::AhoCorasick::new(patterns).ok()?;
    Some(ac.find_iter(bytes).map(|m| m.pattern().as_usize()).collect())
}

/// Which of the patterns a scan meets.
pub open spec fn scan_mask(patterns: Seq<Seq<char>>, bytes: Seq<u8>) -> Seq<bool> {
    Seq::new(patterns.len(), |i: int| scan_hits(patterns, bytes).contains(i as nat))
}

/// Which of the patterns a scan of the bytes meets: only some that stand in the bytes,
/// and at least one if any does.
pub fn hit_mask(patterns: &[String], bytes: &[u8]) -> (r: Option<Vec<bool>>)
    ensures
        r is Some <==> scan_possible(strs(patterns@)),
        r matches Some(v) ==> v@ == scan_mask(strs(patterns@), bytes@),
        r matches Some(v) ==> forall|i: int|
            0 <= i < v@.len() && #[trigger] v@[i] ==> bytes_have(bytes@, encode_utf8(patterns@[i]@)),
        r matches Some(v) ==> (v@.contains(true) <==> mentions_any(strs(patterns@), bytes@)),
{
    let hits = match scan(patterns, bytes) {
        Some(h) => h,
        None => {
            return None;
        },
    };
    let n: usize = patterns.len();
    let ghost all = scan_hits(strs(patterns@), bytes@);
    let mut r: Vec<bool> = Vec::new();
    let mut i: usize = 0;
    while i < n
        invariant
            i <= n,
            n == patterns@.len(),
            hits@.map_values(|i: usize| i as nat) == all,
            r@.len() == i,
            forall|j: int| 0 <= j < i ==> #[trigger] r@[j] == all.contains(j as nat),
        decreases n - i,
    {
        let mut met = false;
        let mut k: usize = 0;
        while k < hits.len()
            invariant
                k <= hits@.len(),
                hits@.map_values(|i: usize| i as nat) == all,
                met == exists|j: int| 0 <= j < k && #[trigger] all[j] == i as nat,
            decreases hits@.len() - k,
        {
            assert(all[k as int] == hits@[k as int] as nat);
            if hits[k] == i {
                met = true;
            }
            k = k + 1;
        }
        assert(met == all.contains(i as nat)) by {
            if all.contains(i as nat) {
                let j = choose|j: int| 0 <= j < all.len() && all[j] == i as nat;
                assert(all[j] == i as nat);
            }
        }
        r.push(met);
        i = i + 1;
    }
    assert(r@ =~= scan_mask(strs(patterns@), bytes@));
    proof {
        let t = strs(patterns@);
        assert forall|i: int| 0 <= i < r@.len() && #[trigger] r@[i] implies bytes_have(
            bytes@,
            encode_utf8(patterns@[i]@),
        ) by {
            let j = choose|j: int| 0 <= j < all.len() && all[j] == i as nat;
            assert(all[j] == hits@[j] as nat);
            assert(hits@[j] == i);
        }
        if r@.contains(true) {
            let i = choose|i: int| 0 <= i < r@.len() && r@[i] == true;
            assert(r@[i]);
            assert(t[i] == patterns@[i]@);
        }
        if mentions_any(t, bytes@) {
            let k = choose|k: int|
                0 <= k < t.len() && bytes_have(bytes@, encode_utf8(#[trigger] t[k]));
            assert(t[k] == patterns@[k]@);
            assert(all[0] == hits@[0] as nat);
            let i = hits@[0] as int;
            assert(r@[i] == all.contains(i as nat));
            assert(r@[i] == true);
        }
    }
    Some(r)
}

/// `std::str::from_utf8`: the text that the bytes encode, where they encode one.
#[verifier::external_body]
pub(crate) fn decode(bytes: &[u8]) -> (r: Option<&str>)
    ensures
        r is Some <==> valid_utf8(bytes@),
        r matches Some(s) ==> s@ == decode_utf8(bytes@),
{
    std::str::from_utf8(bytes).ok()
}

/// The content is minified by the look of it: fewer than four lines end in the
/// first two thousand and forty-eight bytes.
pub open spec fn minified_content(b: Seq<u8>) -> bool {
    byte_count_of(
        if b.len() > 2048 {
            b.take(2048)
        } else {
            b
        },
        10,
    ) < 4
}

/// Whether the content is minified by the look of it.
pub fn looks_minified(bytes: &[u8]) -> (r: bool)
    ensures
        r == minified_content(bytes@),
{
    if bytes.len() > 2048 {
        let sample = slice_subrange(bytes, 0, 2048);
        assert(sample@ =~= bytes@.take(2048));
        count_byte(10, sample) < 4
    } else {
        count_byte(10, bytes) < 4
    }
}

/// One of the targets stands in the bytes.
pub open spec fn mentions_any(targets: Seq<Seq<char>>, bytes: Seq<u8>) -> bool {
    exists|k: int| 0 <= k < targets.len() && bytes_have(bytes, encode_utf8(#[trigger] targets[k]))
}

/// Whether one of the targets stands in the bytes. Three or more are looked for at
/// once.
pub fn any_target(targets: &[String], bytes: &[u8]) -> (r: bool)
    ensures
        r == mentions_any(strs(targets@), bytes@),
{
    let ghost t = strs(targets@);
    if targets.len() >= 3 {
        if let Some(b) = any_pattern(targets, bytes) {
            proof {
                if b {
                    let k = choose|k: int|
                        0 <= k < targets@.len() && bytes_have(
                            bytes@,
                            encode_utf8((#[trigger] targets@[k])@),
                        );
                    assert(t[k] == targets@[k]@);
                }
                if mentions_any(t, bytes@) {
                    let k = choose|k: int|
                        0 <= k < t.len() && bytes_have(bytes@, encode_utf8(#[trigger] t[k]));
                    assert(targets@[k]@ == t[k]);
                }
            }
            return b;
        }
    }
    let mut k: usize = 0;
    while k < targets.len()
        invariant
            k <= targets@.len(),
            t == strs(targets@),
            forall|j: int|
                0 <= j < k ==> !bytes_have(bytes@, encode_utf8(#[trigger] t[j])),
        decreases targets@.len() - k,
    {
        assert(t[k as int] == targets@[k as int]@);
        if let Some(i) = find_bytes(bytes, targets[k].as_str().as_bytes()) {
            assert(bytes_at(bytes@, encode_utf8(t[k as int]), i as int));
            return true;
        }
        k = k + 1;
    }
    false
}

/// A file of that path and size is searched: it is not too large, and not minified
/// by its name.
pub open spec fn is_candidate(path: Seq<char>, size: u64) -> bool {
    size <= MAX_SEARCH_SIZE && !minified_path(path)
}

/// Whether a file of that path and size is searched.
pub fn candidate_file(path: &str, size: u64) -> (r: bool)
    ensures
        r == is_candidate(path@, size),
{
    size <= MAX_SEARCH_SIZE && !is_minified_filename(path)
}

/// The text of a file that is searched for the targets: it mentions one of them,
/// does not look minified and is a text.
pub open spec fn searched_text(targets: Seq<Seq<char>>, size: u64, bytes: Seq<u8>) -> Option<Seq<char>> {
    if mentions_any(targets, bytes) && !(size >= MINIFIED_CHECK_THRESHOLD && minified_content(
        bytes,
    )) && valid_utf8(bytes) {
        Some(decode_utf8(bytes))
    } else {
        None
    }
}

/// The text of a file that is searched for the targets.
pub fn text_to_search<'a>(targets: &[String], size: u64, bytes: &'a [u8]) -> (r: Option<&'a str>)
    ensures
        r matches Some(s) ==> searched_text(strs(targets@), size, bytes@) == Some(s@),
        r is None ==> searched_text(strs(targets@), size, bytes@) is None,
{
    if !any_target(targets, bytes) {
        return None;
    }
    if size >= MINIFIED_CHECK_THRESHOLD && looks_minified(bytes) {
        return None;
    }
    decode(bytes)
}

// ---------------------------------------------------------------------------
// Patterns
// ---------------------------------------------------------------------------

/// The query is a pattern between slashes.
pub open spec fn is_pattern(q: Seq<char>) -> bool {
    q.len() > 0 && q[0] == '/' && q.last() == '/' && crate::text::byte_len(q) > 2
}

/// The pattern of a query, and whether it is one between slashes.
pub open spec fn pattern_of(q: Seq<char>) -> (Seq<char>, bool) {
    if is_pattern(q) {
        (q.subrange(1, q.len() - 1), true)
    } else {
        (q, false)
    }
}

/// The pattern of a query, and whether it is one between slashes.
pub fn parse_pattern(query: &str) -> (r: (String, bool))
    ensures
        (r.0@, r.1) == pattern_of(query@),
{
    let s = chars_of(query);
    let n: usize = s.len();
    if n > 0 && s[0] == '/' && s[n - 1] == '/' && crate::text::text_len(query) > 2 {
        proof {
            if n < 2 {
                assert(query@.drop_last() =~= Seq::<char>::empty());
                assert(crate::text::byte_len(query@.drop_last()) == 0);
                assert(crate::text::byte_len(query@) == crate::text::width(query@.last()));
            }
        }
        (string_of(slice_subrange(s.as_slice(), 1, n - 1)), true)
    } else {
        (query.to_owned(), false)
    }
}

/// The character has a meaning in a regular expression.
pub open spec fn is_meta(c: char) -> bool {
    c == '\\' || c == '.' || c == '+' || c == '*' || c == '?' || c == '(' || c == ')' || c == '|' || c == '[' || c == ']' || c == '{' || c == '}' || c == '^' || c == '$' || c == '#' || c == '&' || c == '-' || c == '~'
}

/// The text with a backslash before each character that has a meaning.
pub open spec fn escaped(s: Seq<char>) -> Seq<char>
    decreases s.len(),
{
    if s.len() == 0 {
        s
    } else if is_meta(s.last()) {
        escaped(s.drop_last()).push('\\').push(s.last())
    } else {
        escaped(s.drop_last()).push(s.last())
    }
}

/// `regex_syntax::escape`: the text as a pattern that stands for itself.
#[verifier::external_body]
pub(crate) fn escape(s: &str) -> (r: String)
    ensures
        r@ == escaped(s@),
{
    regex_syntax::escape(s)
}

/// The pattern for a word.
pub fn word_pattern(query: &str) -> (r: String)
    ensures
        r@ == "\\b"@ + escaped(query@) + "\\b"@,
{
    let mut r = "\\b".to_owned();
    r.append(escape(query).as_str());
    r.append("\\b");
    r
}

/// The patterns for each of the words.
pub open spec fn escaped_all(q: Seq<Seq<char>>) -> Seq<Seq<char>> {
    q.map_values(|s: Seq<char>| escaped(s))
}

/// The pattern for any of the words.
pub fn words_pattern(queries: &[String]) -> (r: String)
    ensures
        r@ == "\\b(?:"@ + crate::text::join(escaped_all(strs(queries@)), "|"@) + ")\\b"@,
{
    let ghost all = escaped_all(strs(queries@));
    let mut parts: Vec<String> = Vec::new();
    let mut i: usize = 0;
    while i < queries.len()
        invariant
            i <= queries@.len(),
            all == escaped_all(strs(queries@)),
            parts@.len() == i,
            forall|j: int| 0 <= j < i ==> (#[trigger] parts@[j])@ == all[j],
        decreases queries@.len() - i,
    {
        assert(strs(queries@)[i as int] == queries@[i as int]@);
        parts.push(escape(queries[i].as_str()));
        i = i + 1;
    }
    assert(strs(parts@) =~= all);
    let mut r = "\\b(?:".to_owned();
    r.append(crate::text::join_strings(parts.as_slice(), "|").as_str());
    r.append(")\\b");
    r
}

/// The number of lines of a file of that size, at forty bytes a line and at least
/// one. It is kept in thirty-two bits.
pub fn estimate_lines(size: u64) -> (r: u32)
    ensures
        r == (if size / 40 == 0 {
            1
        } else {
            (size / 40) % 0x1_0000_0000
        }),
{
    let n: u64 = size / 40;
    if n == 0 {
        1
    } else {
        (n % 0x1_0000_0000) as u32
    }
}

/// Every place of a byte is listed.
pub proof fn law_every_byte_is_listed(s: Seq<u8>, b: u8, i: int)
    requires
        0 <= i < s.len(),
    ensures
        byte_positions(s, b).contains(i) <==> s[i] == b,
        byte_count_of(s, b) == s.filter(|x: u8| x == b).len(),
    decreases s.len(),
{
    lemma_byte_count(s, b);
    lemma_byte_positions(s, b);
    let p = byte_positions(s, b);
    if p.contains(i) {
        let k = choose|k: int| 0 <= k < p.len() && p[k] == i;
        assert(s[p[k]] == b);
    }
    if s[i] == b {
        let t = s.drop_last();
        let q = byte_positions(t, b);
        if i < s.len() - 1 {
            law_every_byte_is_listed(t, b, i);
            let k = choose|k: int| 0 <= k < q.len() && q[k] == i;
            assert(p[k] == i);
        } else {
            assert(p[q.len() as int] == i);
        }
    }
}

proof fn lemma_byte_count(s: Seq<u8>, b: u8)
    ensures
        byte_positions(s, b).len() == s.filter(|x: u8| x == b).len(),
    decreases s.len(),
{
    reveal(Seq::filter);
    if s.len() > 0 {
        lemma_byte_count(s.drop_last(), b);
    }
}

/// Content is minified exactly where fewer than four line feeds stand in its first two
/// thousand and forty-eight bytes.
pub proof fn law_minified_has_few_lines(b: Seq<u8>)
    ensures
        b.len() > 2048 ==> (minified_content(b) <==> b.take(2048).filter(|x: u8| x == 10).len() < 4),
        b.len() <= 2048 ==> (minified_content(b) <==> b.filter(|x: u8| x == 10).len() < 4),
{
    lemma_byte_count(b, 10);
    lemma_byte_count(b.take(2048), 10);
}

/// A file is searched up to half a million bytes, unless its name tells that it is
/// minified, and its text wherever it mentions a target: below a hundred thousand bytes
/// however few lines it has.
pub proof fn law_plain_files_are_searched(
    path: Seq<char>,
    targets: Seq<Seq<char>>,
    size: u64,
    bytes: Seq<u8>,
    k: int,
)
    requires
        size <= 500_000,
        !minified_path(path),
        0 <= k < targets.len(),
        bytes_have(bytes, encode_utf8(targets[k])),
        valid_utf8(bytes),
        size < 100_000 || bytes.take(2048).filter(|x: u8| x == 10).len() >= 4,
        size >= 100_000 ==> bytes.len() > 2048,
    ensures
        is_candidate(path, size),
        searched_text(targets, size, bytes) == Some(decode_utf8(bytes)),
{
    law_minified_has_few_lines(bytes);
    assert(mentions_any(targets, bytes));
}

/// What stands between slashes is the pattern.
pub proof fn law_slashes_are_taken_off(p: Seq<char>)
    requires
        p.len() > 0,
    ensures
        pattern_of(seq!['/'] + p + seq!['/']) == (p, true),
{
    let q = seq!['/'] + p + seq!['/'];
    crate::text::lemma_byte_len_ge(q);
    assert(q.subrange(1, q.len() - 1) =~= p);
}

/// A query that does not stand between slashes is taken as it is.
pub proof fn law_other_queries_are_kept(q: Seq<char>)
    requires
        q.len() == 0 || q[0] != '/' || q.last() != '/',
    ensures
        pattern_of(q) == (q, false),
{
}

proof fn lemma_own_name(n: Seq<char>)
    requires
        crate::paths::entry_name(n),
        n != ".."@,
    ensures
        file_name(n) == Some(n),
{
    reveal_strlit("/");
    let c = seq![n];
    assert(n != "/"@) by {
        if n == "/"@ {
            assert(n[0] == '/');
        }
    }
    crate::paths::law_path_is_read_back(c);
    assert(crate::paths::path_text(c) == n);
}

proof fn lemma_last_dot(a: Seq<char>, e: Seq<char>)
    requires
        !e.contains('.'),
    ensures
        last_char_at(a.push('.') + e, '.') == Some(a.len() as int),
{
    let s = a.push('.') + e;
    crate::text::lemma_last_char_at(s, '.');
    assert(s[a.len() as int] == '.');
    match last_char_at(s, '.') {
        Some(i) => {
            if i > a.len() {
                assert(e[i - a.len() - 1] == '.');
            }
        },
        None => {
            assert(s.contains(s[a.len() as int]));
        },
    }
}

/// A name that ends in `.min` or `-min` before its extension is that of minified code.
pub proof fn law_min_before_the_extension(a: Seq<char>, e: Seq<char>)
    requires
        a.len() > 0,
        !a.contains('/'),
        !e.contains('.'),
    ensures
        minified_name(a + seq!['.', 'm', 'i', 'n', '.'] + e),
        minified_name(a + seq!['-', 'm', 'i', 'n', '.'] + e),
{
    reveal_strlit("min");
    reveal_strlit("-min");
    reveal_strlit(".");
    reveal_strlit("..");
    let x = a + seq!['.', 'm', 'i', 'n'];
    let y = a + seq!['-', 'm', 'i', 'n'];
    let m = seq!['m', 'i', 'n'];
    lemma_last_dot(x, e);
    lemma_last_dot(y, e);
    let n = a + seq!['.', 'm', 'i', 'n', '.'] + e;
    let o = a + seq!['-', 'm', 'i', 'n', '.'] + e;
    assert(n =~= x.push('.') + e);
    assert(o =~= y.push('.') + e);
    assert(n.take(x.len() as int) =~= x);
    assert(o.take(y.len() as int) =~= y);
    assert(x =~= a.push('.') + m);
    lemma_last_dot(a, m);
    assert(!x.contains('/')) by {
        if x.contains('/') {
            let k = choose|k: int| 0 <= k < x.len() && x[k] == '/';
            if k < a.len() {
                assert(a[k] == '/');
            }
        }
    }
    assert(x[x.len() - 1] == 'n');
    lemma_own_name(x);
    let k = a.len() as int;
    assert(x.skip(k + 1) =~= m);
    assert(ascii_lower(m) =~= "min"@);
    let l = ascii_lower(y);
    assert(l.len() == y.len());
    assert(l[k] == '-' && l[k + 1] == 'm' && l[k + 2] == 'i' && l[k + 3] == 'n');
    assert("-min"@ =~= l.subrange(l.len() - 4, l.len() as int));
}

} // verus!
