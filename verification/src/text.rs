//! Text as a sequence of characters: trimming, splitting, searching, decimal
//! numbers and ordering, each with its mathematical meaning.
use vstd::prelude::*;
use vstd::slice::slice_subrange;
use vstd::string::*;
use vstd::utf8::*;

verus! {

/// `String::push` appends one character to the end of the text.
pub assume_specification[ String::push ](s: &mut String, c: char)
    ensures
        final(s)@ == old(s)@.push(c),
;

// ---------------------------------------------------------------------------
// Character classes
// ---------------------------------------------------------------------------

/// The characters with the Unicode property `White_Space`.
pub open spec fn is_space(c: char) -> bool {
    let n = c as u32;
    ||| 0x09 <= n <= 0x0d
    ||| n == 0x20
    ||| n == 0x85
    ||| n == 0xa0
    ||| n == 0x1680
    ||| 0x2000 <= n <= 0x200a
    ||| n == 0x2028
    ||| n == 0x2029
    ||| n == 0x202f
    ||| n == 0x205f
    ||| n == 0x3000
}

pub fn space_char(c: char) -> (r: bool)
    ensures
        r == is_space(c),
{
    let n: u32 = c as u32;
    (0x09 <= n && n <= 0x0d) || n == 0x20 || n == 0x85 || n == 0xa0 || n == 0x1680 || (0x2000 <= n
        && n <= 0x200a) || n == 0x2028 || n == 0x2029 || n == 0x202f || n == 0x205f || n == 0x3000
}

pub open spec fn is_digit(c: char) -> bool {
    '0' <= c <= '9'
}

pub open spec fn is_lower(c: char) -> bool {
    'a' <= c <= 'z'
}

pub open spec fn is_upper(c: char) -> bool {
    'A' <= c <= 'Z'
}

pub open spec fn is_alnum(c: char) -> bool {
    is_lower(c) || is_upper(c) || is_digit(c)
}

pub fn digit_char(c: char) -> (r: bool)
    ensures
        r == is_digit(c),
{
    '0' <= c && c <= '9'
}

pub fn lower_char(c: char) -> (r: bool)
    ensures
        r == is_lower(c),
{
    'a' <= c && c <= 'z'
}

pub fn upper_char(c: char) -> (r: bool)
    ensures
        r == is_upper(c),
{
    'A' <= c && c <= 'Z'
}

pub fn alnum_char(c: char) -> (r: bool)
    ensures
        r == is_alnum(c),
{
    lower_char(c) || upper_char(c) || digit_char(c)
}

/// The character with an ASCII capital replaced by its small letter.
pub open spec fn lower(c: char) -> char {
    if is_upper(c) {
        (c as u32 + 32) as char
    } else {
        c
    }
}

/// The text with its ASCII capitals replaced by small letters.
pub open spec fn ascii_lower(s: Seq<char>) -> Seq<char> {
    s.map_values(|c: char| lower(c))
}

// ---------------------------------------------------------------------------
// Conversions
// ---------------------------------------------------------------------------

pub fn chars_of(s: &str) -> (r: Vec<char>)
    ensures
        r@ == s@,
{
    let mut r: Vec<char> = Vec::new();
    for c in it: s.chars()
        invariant
            r@.len() == it.index(),
            forall|i: int| 0 <= i < r@.len() ==> r@[i] == it.seq()[i],
    {
        r.push(c);
    }
    r
}

pub fn string_of(s: &[char]) -> (r: String)
    ensures
        r@ == s@,
{
    let mut r = String::new();
    let mut i: usize = 0;
    while i < s.len()
        invariant
            i <= s@.len(),
            r@ == s@.take(i as int),
        decreases s@.len() - i,
    {
        r.push(s[i]);
        i = i + 1;
        assert(s@.take(i as int) =~= s@.take(i - 1).push(s@[i - 1]));
    }
    assert(s@.take(s@.len() as int) =~= s@);
    r
}

pub fn same_text(a: &str, b: &str) -> (r: bool)
    ensures
        r == (a@ == b@),
{
    let x = a.as_bytes();
    let y = b.as_bytes();
    proof {
        encode_utf8_decode_utf8(a@);
        encode_utf8_decode_utf8(b@);
    }
    if x.len() != y.len() {
        return false;
    }
    let mut i: usize = 0;
    while i < x.len()
        invariant
            i <= x@.len(),
            x@.len() == y@.len(),
            x@ == encode_utf8(a@),
            y@ == encode_utf8(b@),
            forall|j: int| 0 <= j < i ==> x@[j] == y@[j],
        decreases x@.len() - i,
    {
        if x[i] != y[i] {
            return false;
        }
        i = i + 1;
    }
    assert(x@ =~= y@);
    true
}

pub fn same_chars(a: &[char], b: &[char]) -> (r: bool)
    ensures
        r == (a@ == b@),
{
    if a.len() != b.len() {
        return false;
    }
    let mut i: usize = 0;
    while i < a.len()
        invariant
            i <= a@.len(),
            a@.len() == b@.len(),
            forall|j: int| 0 <= j < i ==> a@[j] == b@[j],
        decreases a@.len() - i,
    {
        if a[i] != b[i] {
            return false;
        }
        i = i + 1;
    }
    assert(a@ =~= b@);
    true
}

/// Whether the characters are those of the text `p`.
pub fn is_text(s: &[char], p: &str) -> (r: bool)
    ensures
        r == (s@ == p@),
{
    let q = chars_of(p);
    same_chars(s, q.as_slice())
}

/// The text that is given, where one is.
pub open spec fn opt_str(o: Option<&str>) -> Option<Seq<char>> {
    match o {
        Some(s) => Some(s@),
        None => None,
    }
}

/// The optional texts as sequences of characters.
pub open spec fn opt_text(o: Option<String>) -> Option<Seq<char>> {
    match o {
        Some(s) => Some(s@),
        None => None,
    }
}

/// Whether two optional texts hold the same.
pub fn same_opt(a: &Option<String>, b: &Option<String>) -> (r: bool)
    ensures
        r == (opt_text(*a) == opt_text(*b)),
{
    match (a, b) {
        (Some(x), Some(y)) => same_text(x.as_str(), y.as_str()),
        (None, None) => true,
        _ => false,
    }
}

/// A copy of an optional text.
pub fn clone_opt(a: &Option<String>) -> (r: Option<String>)
    ensures
        r == *a,
{
    match a {
        Some(s) => Some(s.clone()),
        None => None,
    }
}

/// What the texts of a list hold.
pub open spec fn strs(v: Seq<String>) -> Seq<Seq<char>> {
    v.map_values(|s: String| s@)
}

/// What the slices of a list hold.
pub open spec fn views(v: Seq<&[char]>) -> Seq<Seq<char>> {
    v.map_values(|s: &[char]| s@)
}

pub broadcast proof fn lemma_strs_push(v: Seq<String>, s: String)
    ensures
        #[trigger] strs(v.push(s)) == strs(v).push(s@),
{
    assert(strs(v.push(s)) =~= strs(v).push(s@));
}

pub broadcast proof fn lemma_views_push(v: Seq<&[char]>, s: &[char])
    ensures
        #[trigger] views(v.push(s)) == views(v).push(s@),
{
    assert(views(v.push(s)) =~= views(v).push(s@));
}

/// Whether `name` is one of the texts.
pub fn has_string(v: &[String], name: &str) -> (r: bool)
    ensures
        r == strs(v@).contains(name@),
{
    let mut i: usize = 0;
    while i < v.len()
        invariant
            i <= v@.len(),
            forall|j: int| 0 <= j < i ==> strs(v@)[j] != name@,
        decreases v@.len() - i,
    {
        if same_text(v[i].as_str(), name) {
            assert(strs(v@)[i as int] == name@);
            return true;
        }
        i = i + 1;
    }
    false
}

// ---------------------------------------------------------------------------
// Trimming
// ---------------------------------------------------------------------------

/// The text without its leading white space.
pub open spec fn trim_start(s: Seq<char>) -> Seq<char>
    decreases s.len(),
{
    if s.len() > 0 && is_space(s[0]) {
        trim_start(s.drop_first())
    } else {
        s
    }
}

/// The text without its trailing white space.
pub open spec fn trim_end(s: Seq<char>) -> Seq<char>
    decreases s.len(),
{
    if s.len() > 0 && is_space(s.last()) {
        trim_end(s.drop_last())
    } else {
        s
    }
}

/// The text without the white space around it.
pub open spec fn trim(s: Seq<char>) -> Seq<char> {
    trim_end(trim_start(s))
}

pub fn trim_start_of(s: &[char]) -> (r: &[char])
    ensures
        r@ == trim_start(s@),
{
    let mut i: usize = 0;
    assert(s@.subrange(0, s@.len() as int) =~= s@);
    while i < s.len() && space_char(s[i])
        invariant
            i <= s@.len(),
            trim_start(s@) == trim_start(s@.subrange(i as int, s@.len() as int)),
        decreases s@.len() - i,
    {
        assert(s@.subrange(i as int, s@.len() as int).drop_first() =~= s@.subrange(
            i + 1,
            s@.len() as int,
        ));
        i = i + 1;
    }
    slice_subrange(s, i, s.len())
}

pub fn trim_end_of(s: &[char]) -> (r: &[char])
    ensures
        r@ == trim_end(s@),
{
    let mut n: usize = s.len();
    assert(s@.subrange(0, n as int) =~= s@);
    while n > 0 && space_char(s[n - 1])
        invariant
            n <= s@.len(),
            trim_end(s@) == trim_end(s@.subrange(0, n as int)),
        decreases n,
    {
        assert(s@.subrange(0, n as int).drop_last() =~= s@.subrange(0, n - 1));
        n = n - 1;
    }
    slice_subrange(s, 0, n)
}

pub fn trim_of(s: &[char]) -> (r: &[char])
    ensures
        r@ == trim(s@),
{
    trim_end_of(trim_start_of(s))
}

/// The text without the characters `c` at its start.
pub open spec fn strip_start(s: Seq<char>, c: char) -> Seq<char>
    decreases s.len(),
{
    if s.len() > 0 && s[0] == c {
        strip_start(s.drop_first(), c)
    } else {
        s
    }
}

/// The text without the characters `c` at its end.
pub open spec fn strip_end(s: Seq<char>, c: char) -> Seq<char>
    decreases s.len(),
{
    if s.len() > 0 && s.last() == c {
        strip_end(s.drop_last(), c)
    } else {
        s
    }
}

pub fn strip_start_of(s: &[char], c: char) -> (r: &[char])
    ensures
        r@ == strip_start(s@, c),
{
    let mut i: usize = 0;
    assert(s@.subrange(0, s@.len() as int) =~= s@);
    while i < s.len() && s[i] == c
        invariant
            i <= s@.len(),
            strip_start(s@, c) == strip_start(s@.subrange(i as int, s@.len() as int), c),
        decreases s@.len() - i,
    {
        assert(s@.subrange(i as int, s@.len() as int).drop_first() =~= s@.subrange(
            i + 1,
            s@.len() as int,
        ));
        i = i + 1;
    }
    slice_subrange(s, i, s.len())
}

pub fn strip_end_of(s: &[char], c: char) -> (r: &[char])
    ensures
        r@ == strip_end(s@, c),
{
    let mut n: usize = s.len();
    assert(s@.subrange(0, n as int) =~= s@);
    while n > 0 && s[n - 1] == c
        invariant
            n <= s@.len(),
            strip_end(s@, c) == strip_end(s@.subrange(0, n as int), c),
        decreases n,
    {
        assert(s@.subrange(0, n as int).drop_last() =~= s@.subrange(0, n - 1));
        n = n - 1;
    }
    slice_subrange(s, 0, n)
}

// ---------------------------------------------------------------------------
// Searching
// ---------------------------------------------------------------------------

/// The text `p` stands at position `i` of `s`.
pub open spec fn occurs_at(s: Seq<char>, p: Seq<char>, i: int) -> bool {
    0 <= i && i + p.len() <= s.len() && s.subrange(i, i + p.len()) == p
}

/// The first position at or after `i` where `p` stands in `s`.
pub open spec fn find_from(s: Seq<char>, p: Seq<char>, i: int) -> Option<int>
    decreases s.len() + 1 - i,
{
    if i < 0 || i + p.len() > s.len() {
        None
    } else if occurs_at(s, p, i) {
        Some(i)
    } else {
        find_from(s, p, i + 1)
    }
}

/// The first position where `p` stands in `s`.
pub open spec fn find(s: Seq<char>, p: Seq<char>) -> Option<int> {
    find_from(s, p, 0)
}

/// The last position at or before `i` where `p` stands in `s`.
pub open spec fn rfind_from(s: Seq<char>, p: Seq<char>, i: int) -> Option<int>
    decreases i + 1,
{
    if i < 0 {
        None
    } else if occurs_at(s, p, i) {
        Some(i)
    } else {
        rfind_from(s, p, i - 1)
    }
}

/// The last position where `p` stands in `s`.
pub open spec fn rfind(s: Seq<char>, p: Seq<char>) -> Option<int> {
    rfind_from(s, p, s.len() - p.len())
}

/// The text `p` stands somewhere in `s`.
pub open spec fn has(s: Seq<char>, p: Seq<char>) -> bool {
    exists|i: int| occurs_at(s, p, i)
}

/// What `find_from` finds is the first occurrence, and it finds every one.
pub proof fn lemma_find_from(s: Seq<char>, p: Seq<char>, i: int)
    requires
        0 <= i,
    ensures
        find_from(s, p, i) matches Some(k) ==> i <= k && occurs_at(s, p, k) && (forall|j: int|
            i <= j < k ==> !occurs_at(s, p, j)),
        find_from(s, p, i) is None ==> (forall|j: int| i <= j ==> !occurs_at(s, p, j)),
    decreases s.len() + 1 - i,
{
    if i + p.len() <= s.len() && !occurs_at(s, p, i) {
        lemma_find_from(s, p, i + 1);
    }
}

pub proof fn lemma_has_find(s: Seq<char>, p: Seq<char>)
    ensures
        has(s, p) == (find(s, p) is Some),
{
    lemma_find_from(s, p, 0);
}

/// Whether `p` stands at position `i` of `s`.
pub fn at_text(s: &[char], p: &[char], i: usize) -> (r: bool)
    ensures
        r == occurs_at(s@, p@, i as int),
{
    let n: usize = s.len();
    if i > n || p.len() > n - i {
        return false;
    }
    let mut k: usize = 0;
    while k < p.len()
        invariant
            k <= p@.len(),
            n == s@.len(),
            i + p@.len() <= s@.len(),
            forall|j: int| 0 <= j < k ==> s@[i + j] == p@[j],
        decreases p@.len() - k,
    {
        if s[i + k] != p[k] {
            assert(s@.subrange(i as int, i + p@.len())[k as int] != p@[k as int]);
            return false;
        }
        k = k + 1;
    }
    assert(s@.subrange(i as int, i + p@.len()) =~= p@);
    true
}

pub fn find_chars(s: &[char], p: &[char], from: usize) -> (r: Option<usize>)
    ensures
        r matches Some(i) ==> find_from(s@, p@, from as int) == Some(i as int),
        r is None ==> find_from(s@, p@, from as int) is None,
{
    if from > s.len() || p.len() > s.len() - from {
        return None;
    }
    let last: usize = s.len() - p.len();
    let mut i: usize = from;
    while i <= last
        invariant
            from <= i <= last + 1,
            last + p@.len() == s@.len(),
            last < usize::MAX || i <= last,
            find_from(s@, p@, from as int) == find_from(s@, p@, i as int),
        decreases last + 1 - i,
    {
        if at_text(s, p, i) {
            return Some(i);
        }
        if i == last {
            assert(find_from(s@, p@, i + 1) is None);
            return None;
        }
        i = i + 1;
    }
    None
}

pub fn find_text(s: &[char], p: &str) -> (r: Option<usize>)
    ensures
        r matches Some(i) ==> find(s@, p@) == Some(i as int),
        r is None ==> find(s@, p@) is None,
{
    let q = chars_of(p);
    find_chars(s, q.as_slice(), 0)
}

pub fn rfind_text(s: &[char], p: &str) -> (r: Option<usize>)
    ensures
        r matches Some(i) ==> rfind(s@, p@) == Some(i as int),
        r is None ==> rfind(s@, p@) is None,
{
    let q = chars_of(p);
    if q.len() > s.len() {
        return None;
    }
    let mut i: usize = s.len() - q.len();
    loop
        invariant
            i + q@.len() <= s@.len(),
            q@ == p@,
            rfind(s@, p@) == rfind_from(s@, p@, i as int),
        decreases i,
    {
        if at_text(s, q.as_slice(), i) {
            return Some(i);
        }
        if i == 0 {
            assert(rfind_from(s@, p@, -1) is None);
            return None;
        }
        i = i - 1;
    }
}

pub fn has_text(s: &[char], p: &str) -> (r: bool)
    ensures
        r == has(s@, p@),
{
    proof {
        lemma_has_find(s@, p@);
    }
    find_text(s, p).is_some()
}

pub fn has_char(s: &[char], c: char) -> (r: bool)
    ensures
        r == s@.contains(c),
{
    let mut i: usize = 0;
    while i < s.len()
        invariant
            i <= s@.len(),
            forall|j: int| 0 <= j < i ==> s@[j] != c,
        decreases s@.len() - i,
    {
        if s[i] == c {
            return true;
        }
        i = i + 1;
    }
    false
}

/// The first position of the character `c` in `s`.
pub open spec fn char_at(s: Seq<char>, c: char) -> Option<int>
    decreases s.len(),
{
    if s.len() == 0 {
        None
    } else if s[0] == c {
        Some(0int)
    } else {
        match char_at(s.drop_first(), c) {
            Some(i) => Some(i + 1),
            None => None,
        }
    }
}

pub proof fn lemma_char_at(s: Seq<char>, c: char)
    ensures
        char_at(s, c) matches Some(i) ==> 0 <= i < s.len() && s[i] == c && (forall|j: int|
            0 <= j < i ==> s[j] != c),
        char_at(s, c) is None ==> !s.contains(c),
    decreases s.len(),
{
    if s.len() > 0 && s[0] != c {
        lemma_char_at(s.drop_first(), c);
        assert forall|j: int| 0 < j < s.len() implies s[j] == s.drop_first()[j - 1] by {}
        if char_at(s.drop_first(), c) is None && s.contains(c) {
            let j = choose|j: int| 0 <= j < s.len() && s[j] == c;
            assert(s.drop_first()[j - 1] == c);
        }
    }
}

pub fn find_char(s: &[char], c: char) -> (r: Option<usize>)
    ensures
        r matches Some(i) ==> char_at(s@, c) == Some(i as int),
        r is None ==> char_at(s@, c) is None,
{
    proof {
        lemma_char_at(s@, c);
    }
    let mut i: usize = 0;
    while i < s.len()
        invariant
            i <= s@.len(),
            forall|j: int| 0 <= j < i ==> s@[j] != c,
            char_at(s@, c) matches Some(i) ==> 0 <= i < s@.len() && s@[i] == c && (forall|j: int|
                0 <= j < i ==> s@[j] != c),
            char_at(s@, c) is None ==> !s@.contains(c),
        decreases s@.len() - i,
    {
        if s[i] == c {
            assert(s@.contains(c));
            return Some(i);
        }
        i = i + 1;
    }
    None
}

/// The last position of the character `c` in `s`.
pub open spec fn last_char_at(s: Seq<char>, c: char) -> Option<int>
    decreases s.len(),
{
    if s.len() == 0 {
        None
    } else if s.last() == c {
        Some(s.len() - 1)
    } else {
        last_char_at(s.drop_last(), c)
    }
}

/// The last place of a character: it stands there, and nowhere behind it.
pub proof fn lemma_last_char_at(s: Seq<char>, c: char)
    ensures
        last_char_at(s, c) matches Some(i) ==> 0 <= i < s.len() && s[i] == c && (forall|j: int|
            i < j < s.len() ==> s[j] != c),
        last_char_at(s, c) is None ==> !s.contains(c),
    decreases s.len(),
{
    if s.len() > 0 && s.last() != c {
        let t = s.drop_last();
        lemma_last_char_at(t, c);
        assert forall|j: int| 0 <= j < s.len() - 1 implies s[j] == t[j] by {}
        if last_char_at(t, c) is None && s.contains(c) {
            let j = choose|j: int| 0 <= j < s.len() && s[j] == c;
            assert(t[j] == c);
        }
    }
}

pub fn rfind_char(s: &[char], c: char) -> (r: Option<usize>)
    ensures
        r matches Some(i) ==> last_char_at(s@, c) == Some(i as int) && i < s@.len(),
        r is None ==> last_char_at(s@, c) is None,
{
    let mut n: usize = s.len();
    assert(s@.subrange(0, n as int) =~= s@);
    while n > 0
        invariant
            n <= s@.len(),
            last_char_at(s@, c) == last_char_at(s@.subrange(0, n as int), c),
        decreases n,
    {
        if s[n - 1] == c {
            return Some(n - 1);
        }
        assert(s@.subrange(0, n as int).drop_last() =~= s@.subrange(0, n - 1));
        n = n - 1;
    }
    None
}

pub fn has_prefix(s: &[char], p: &str) -> (r: bool)
    ensures
        r == p@.is_prefix_of(s@),
{
    let q = chars_of(p);
    let r = at_text(s, q.as_slice(), 0);
    assert(occurs_at(s@, p@, 0) == p@.is_prefix_of(s@));
    r
}

pub fn has_suffix(s: &[char], p: &str) -> (r: bool)
    ensures
        r == p@.is_suffix_of(s@),
{
    let q = chars_of(p);
    if q.len() > s.len() {
        return false;
    }
    let r = at_text(s, q.as_slice(), s.len() - q.len());
    assert(occurs_at(s@, p@, s@.len() - p@.len()) == p@.is_suffix_of(s@));
    r
}

/// What follows the prefix `p`, where `s` has it.
pub open spec fn after_prefix(s: Seq<char>, p: Seq<char>) -> Option<Seq<char>> {
    if p.is_prefix_of(s) {
        Some(s.subrange(p.len() as int, s.len() as int))
    } else {
        None
    }
}

pub fn after<'a>(s: &'a [char], p: &str) -> (r: Option<&'a [char]>)
    ensures
        r matches Some(t) ==> after_prefix(s@, p@) == Some(t@),
        r is None ==> after_prefix(s@, p@) is None,
{
    let q = chars_of(p);
    let r = at_text(s, q.as_slice(), 0);
    assert(occurs_at(s@, p@, 0) == p@.is_prefix_of(s@));
    if r {
        Some(slice_subrange(s, q.len(), s.len()))
    } else {
        None
    }
}

// ---------------------------------------------------------------------------
// Splitting and joining
// ---------------------------------------------------------------------------

/// The pieces of the text between the characters `c`.
pub open spec fn split(s: Seq<char>, c: char) -> Seq<Seq<char>>
    decreases s.len(),
{
    match char_at(s, c) {
        None => seq![s],
        Some(i) => if 0 <= i < s.len() {
            seq![s.take(i)] + split(s.skip(i + 1), c)
        } else {
            seq![s]
        },
    }
}

/// The line without the carriage return that ends it.
pub open spec fn chop_return(s: Seq<char>) -> Seq<char> {
    if s.len() > 0 && s.last() == '\r' {
        s.drop_last()
    } else {
        s
    }
}

/// The lines of the text: each ends in a line feed, which may follow a carriage
/// return; the last one may end with the text.
pub open spec fn lines(s: Seq<char>) -> Seq<Seq<char>>
    decreases s.len(),
{
    if s.len() == 0 {
        Seq::empty()
    } else {
        match char_at(s, '\n') {
            None => seq![s],
            Some(i) => if 0 <= i < s.len() {
                seq![chop_return(s.take(i))] + lines(s.skip(i + 1))
            } else {
                seq![s]
            },
        }
    }
}

/// The end of the word that starts at `i`.
pub open spec fn word_end(s: Seq<char>, i: int) -> int
    decreases s.len() - i,
{
    if 0 <= i < s.len() && !is_space(s[i]) {
        word_end(s, i + 1)
    } else {
        i
    }
}

/// The words of the text from position `i` on.
pub open spec fn words_from(s: Seq<char>, i: int) -> Seq<Seq<char>>
    decreases s.len() - i,
{
    if i < 0 || i >= s.len() {
        Seq::empty()
    } else if is_space(s[i]) {
        words_from(s, i + 1)
    } else {
        let j = word_end(s, i);
        if i < j <= s.len() {
            seq![s.subrange(i, j)] + words_from(s, j)
        } else {
            Seq::empty()
        }
    }
}

/// The words of the text: what stands between white space.
pub open spec fn words(s: Seq<char>) -> Seq<Seq<char>> {
    words_from(s, 0)
}

/// The texts with `sep` between them.
pub open spec fn join(parts: Seq<Seq<char>>, sep: Seq<char>) -> Seq<char>
    decreases parts.len(),
{
    if parts.len() == 0 {
        Seq::empty()
    } else if parts.len() == 1 {
        parts[0]
    } else {
        join(parts.drop_last(), sep) + sep + parts.last()
    }
}

/// The first place of a character is where it stands with none before it.
pub proof fn lemma_char_at_is(s: Seq<char>, c: char, i: int)
    requires
        0 <= i < s.len(),
        s[i] == c,
        forall|j: int| 0 <= j < i ==> s[j] != c,
    ensures
        char_at(s, c) == Some(i),
{
    lemma_char_at(s, c);
}

pub fn split_on(s: &[char], c: char) -> (r: Vec<&[char]>)
    ensures
        views(r@) == split(s@, c),
{
    broadcast use lemma_views_push;

    let n: usize = s.len();
    let mut r: Vec<&[char]> = Vec::new();
    let mut start: usize = 0;
    let mut i: usize = 0;
    assert(s@.subrange(0, n as int) =~= s@);
    assert(views(r@) + split(s@, c) =~= split(s@, c));
    while i < n
        invariant
            start <= i <= n,
            n == s@.len(),
            forall|j: int| start <= j < i ==> s@[j] != c,
            views(r@) + split(s@.subrange(start as int, n as int), c) == split(s@, c),
        decreases n - i,
    {
        if s[i] == c {
            let piece = slice_subrange(s, start, i);
            proof {
                let rest = s@.subrange(start as int, n as int);
                lemma_char_at_is(rest, c, i - start);
                assert(rest.take(i - start) =~= piece@);
                assert(rest.skip(i - start + 1) =~= s@.subrange(i + 1, n as int));
                assert(views(r@) + (seq![piece@] + split(s@.subrange(i + 1, n as int), c))
                    =~= views(r@).push(piece@) + split(s@.subrange(i + 1, n as int), c));
            }
            r.push(piece);
            start = i + 1;
        }
        i = i + 1;
    }
    let piece = slice_subrange(s, start, n);
    proof {
        lemma_char_at(piece@, c);
        assert(split(piece@, c) =~= seq![piece@]);
        assert(views(r@) + seq![piece@] =~= views(r@).push(piece@));
    }
    r.push(piece);
    r
}

pub fn lines_of(s: &[char]) -> (r: Vec<&[char]>)
    ensures
        views(r@) == lines(s@),
{
    broadcast use lemma_views_push;

    let n: usize = s.len();
    let mut r: Vec<&[char]> = Vec::new();
    let mut start: usize = 0;
    let mut i: usize = 0;
    assert(s@.subrange(0, n as int) =~= s@);
    assert(views(r@) + lines(s@) =~= lines(s@));
    while i < n
        invariant
            start <= i <= n,
            n == s@.len(),
            forall|j: int| start <= j < i ==> s@[j] != '\n',
            views(r@) + lines(s@.subrange(start as int, n as int)) == lines(s@),
        decreases n - i,
    {
        if s[i] == '\n' {
            let mut stop: usize = i;
            if i > start && s[i - 1] == '\r' {
                stop = i - 1;
            }
            let piece = slice_subrange(s, start, stop);
            proof {
                let rest = s@.subrange(start as int, n as int);
                lemma_char_at_is(rest, '\n', i - start);
                assert(chop_return(rest.take(i - start)) =~= piece@);
                assert(rest.skip(i - start + 1) =~= s@.subrange(i + 1, n as int));
                assert(views(r@) + (seq![piece@] + lines(s@.subrange(i + 1, n as int))) =~= views(
                    r@,
                ).push(piece@) + lines(s@.subrange(i + 1, n as int)));
            }
            r.push(piece);
            start = i + 1;
        }
        i = i + 1;
    }
    if start < n {
        let piece = slice_subrange(s, start, n);
        proof {
            lemma_char_at(piece@, '\n');
            assert(lines(piece@) =~= seq![piece@]);
            assert(views(r@) + seq![piece@] =~= views(r@).push(piece@));
        }
        r.push(piece);
    } else {
        assert(lines(s@.subrange(start as int, n as int)) =~= Seq::<Seq<char>>::empty());
        assert(views(r@) + Seq::<Seq<char>>::empty() =~= views(r@));
    }
    r
}

/// A word ends before the first white space.
pub proof fn lemma_word_end(s: Seq<char>, i: int, j: int)
    requires
        0 <= i <= j <= s.len(),
        forall|k: int| i <= k < j ==> !is_space(s[k]),
        j == s.len() || is_space(s[j]),
    ensures
        word_end(s, i) == j,
    decreases j - i,
{
    if i < j {
        lemma_word_end(s, i + 1, j);
    }
}

pub fn words_of(s: &[char]) -> (r: Vec<&[char]>)
    ensures
        views(r@) == words(s@),
{
    broadcast use lemma_views_push;

    let n: usize = s.len();
    let mut r: Vec<&[char]> = Vec::new();
    let mut i: usize = 0;
    assert(views(r@) + words(s@) =~= words(s@));
    while i < n
        invariant
            i <= n,
            n == s@.len(),
            views(r@) + words_from(s@, i as int) == words(s@),
        decreases n - i,
    {
        if space_char(s[i]) {
            i = i + 1;
        } else {
            let mut j: usize = i + 1;
            while j < n && !space_char(s[j])
                invariant
                    i < j <= n,
                    n == s@.len(),
                    forall|k: int| i <= k < j ==> !is_space(s@[k]),
                decreases n - j,
            {
                j = j + 1;
            }
            let piece = slice_subrange(s, i, j);
            proof {
                lemma_word_end(s@, i as int, j as int);
                assert(views(r@) + (seq![piece@] + words_from(s@, j as int)) =~= views(r@).push(
                    piece@,
                ) + words_from(s@, j as int));
            }
            r.push(piece);
            i = j;
        }
    }
    assert(views(r@) + Seq::<Seq<char>>::empty() =~= views(r@));
    r
}

/// Two adjoining texts.
pub fn push_chars(out: &mut String, s: &[char])
    ensures
        final(out)@ == old(out)@ + s@,
{
    let t = string_of(s);
    out.append(t.as_str());
}

pub fn join_strings(parts: &[String], sep: &str) -> (r: String)
    ensures
        r@ == join(strs(parts@), sep@),
{
    let mut r = String::new();
    let mut i: usize = 0;
    while i < parts.len()
        invariant
            i <= parts@.len(),
            r@ == join(strs(parts@).take(i as int), sep@),
        decreases parts@.len() - i,
    {
        if i > 0 {
            r.append(sep);
        }
        r.append(parts[i].as_str());
        proof {
            let t = strs(parts@).take(i + 1);
            assert(t.drop_last() =~= strs(parts@).take(i as int));
            assert(t.last() == parts@[i as int]@);
            if i == 0 {
                assert(r@ =~= t[0]);
            }
        }
        i = i + 1;
    }
    assert(strs(parts@).take(parts@.len() as int) =~= strs(parts@));
    r
}

pub fn join_slices(parts: &[&[char]], sep: &str) -> (r: String)
    ensures
        r@ == join(views(parts@), sep@),
{
    let mut r = String::new();
    let mut i: usize = 0;
    while i < parts.len()
        invariant
            i <= parts@.len(),
            r@ == join(views(parts@).take(i as int), sep@),
        decreases parts@.len() - i,
    {
        if i > 0 {
            r.append(sep);
        }
        push_chars(&mut r, parts[i]);
        proof {
            let t = views(parts@).take(i + 1);
            assert(t.drop_last() =~= views(parts@).take(i as int));
            assert(t.last() == parts@[i as int]@);
            if i == 0 {
                assert(r@ =~= t[0]);
            }
        }
        i = i + 1;
    }
    assert(views(parts@).take(parts@.len() as int) =~= views(parts@));
    r
}

/// The text with its ASCII capitals replaced by small letters.
pub fn lower_ascii(s: &str) -> (r: String)
    ensures
        r@ == ascii_lower(s@),
{
    let mut r = String::new();
    for c in it: s.chars()
        invariant
            r@.len() == it.index(),
            it.seq() == s@,
            forall|i: int| 0 <= i < r@.len() ==> r@[i] == lower(it.seq()[i]),
    {
        if upper_char(c) {
            r.push((c as u8 + 32) as char);
        } else {
            r.push(c);
        }
    }
    assert(r@ =~= ascii_lower(s@));
    r
}

// ---------------------------------------------------------------------------
// Decimal numbers
// ---------------------------------------------------------------------------

/// The character of a decimal digit.
pub open spec fn digit(d: nat) -> char {
    (48 + d) as char
}

/// The decimal notation of a number.
pub open spec fn dec(n: nat) -> Seq<char>
    decreases n,
{
    if n < 10 {
        seq![digit(n)]
    } else {
        dec(n / 10).push(digit(n % 10))
    }
}

/// The number that the digits denote.
pub open spec fn digits_value(s: Seq<char>) -> nat
    decreases s.len(),
{
    if s.len() == 0 {
        0
    } else {
        digits_value(s.drop_last()) * 10 + (s.last() as nat - 48) as nat
    }
}

/// The text has digits only.
pub open spec fn all_digits(s: Seq<char>) -> bool {
    forall|i: int| 0 <= i < s.len() ==> is_digit(#[trigger] s[i])
}

/// The number that the text denotes: digits, which may follow a plus sign, of a
/// value of at most `max`.
pub open spec fn parse_uint(s: Seq<char>, max: nat) -> Option<nat> {
    let d = if s.len() > 0 && s[0] == '+' {
        s.drop_first()
    } else {
        s
    };
    if d.len() > 0 && all_digits(d) && digits_value(d) <= max {
        Some(digits_value(d))
    } else {
        None
    }
}

/// The decimal notation has digits only, at least one, and denotes the number.
pub proof fn lemma_dec_value(n: nat)
    ensures
        dec(n).len() > 0,
        all_digits(dec(n)),
        digits_value(dec(n)) == n,
    decreases n,
{
    if n < 10 {
        assert(dec(n).drop_last() =~= Seq::empty());
        assert(digits_value(dec(n).drop_last()) == 0);
    } else {
        lemma_dec_value(n / 10);
        assert(dec(n).drop_last() =~= dec(n / 10));
        assert forall|i: int| 0 <= i < dec(n).len() implies is_digit(#[trigger] dec(n)[i]) by {
            if i < dec(n / 10).len() {
                assert(dec(n)[i] == dec(n / 10)[i]);
            }
        }
    }
}

/// Reading back the decimal notation of a number gives the number.
pub proof fn law_decimal_round_trip(n: nat, max: nat)
    requires
        n <= max,
    ensures
        parse_uint(dec(n), max) == Some(n),
{
    lemma_dec_value(n);
    assert(is_digit(dec(n)[0]));
}

proof fn lemma_digits_prefix(s: Seq<char>, i: int)
    requires
        0 <= i <= s.len(),
    ensures
        digits_value(s.take(i)) <= digits_value(s),
    decreases s.len() - i,
{
    if i == s.len() {
        assert(s.take(i) =~= s);
    } else {
        lemma_digits_prefix(s, i + 1);
        assert(s.take(i + 1).drop_last() =~= s.take(i));
    }
}

pub fn decimal(n: u128) -> (r: String)
    ensures
        r@ == dec(n as nat),
    decreases n,
{
    let d: u8 = (n % 10) as u8;
    let mut r = if n < 10 {
        String::new()
    } else {
        decimal(n / 10)
    };
    r.push((48u8 + d) as char);
    assert(r@ =~= dec(n as nat));
    r
}

/// Appends the decimal notation of a number.
pub fn push_dec(out: &mut String, n: usize)
    ensures
        final(out)@ == old(out)@ + dec(n as nat),
{
    let t = decimal(n as u128);
    out.append(t.as_str());
}

pub fn parse_u64(s: &[char], max: u64) -> (r: Option<u64>)
    ensures
        r matches Some(n) ==> parse_uint(s@, max as nat) == Some(n as nat),
        r is None ==> parse_uint(s@, max as nat) is None,
{
    let n: usize = s.len();
    let mut i: usize = 0;
    if n > 0 && s[0] == '+' {
        i = 1;
    }
    let start: usize = i;
    let ghost d = s@.subrange(start as int, n as int);
    assert(d =~= if s@.len() > 0 && s@[0] == '+' {
        s@.drop_first()
    } else {
        s@
    });
    if i == n {
        return None;
    }
    let mut acc: u64 = 0;
    while i < n
        invariant
            start <= i <= n,
            n == s@.len(),
            d == s@.subrange(start as int, n as int),
            parse_uint(s@, max as nat) == (if d.len() > 0 && all_digits(d) && digits_value(d)
                <= max {
                Some(digits_value(d))
            } else {
                None::<nat>
            }),
            forall|j: int| 0 <= j < i - start ==> is_digit(#[trigger] d[j]),
            acc == digits_value(d.take(i - start)),
            acc <= max,
        decreases n - i,
    {
        if !digit_char(s[i]) {
            assert(!is_digit(d[i - start]));
            return None;
        }
        let v: u64 = (s[i] as u32 - 48) as u64;
        proof {
            let t = d.take(i - start + 1);
            assert(t.drop_last() =~= d.take(i - start));
            assert(t.last() == s@[i as int]);
            lemma_digits_prefix(d, i - start + 1);
        }
        if acc > (u64::MAX - v) / 10 || acc * 10 + v > max {
            return None;
        }
        acc = acc * 10 + v;
        i = i + 1;
    }
    assert(d.take(d.len() as int) =~= d);
    Some(acc)
}

// ---------------------------------------------------------------------------
// Padding and order
// ---------------------------------------------------------------------------

/// A run of `n` times the character `c`.
pub open spec fn run(c: char, n: nat) -> Seq<char> {
    Seq::new(n, |i: int| c)
}

/// The text followed by spaces up to the width `n`.
pub open spec fn pad_right(s: Seq<char>, n: nat) -> Seq<char> {
    if s.len() < n {
        s + run(' ', (n - s.len()) as nat)
    } else {
        s
    }
}

/// The text after spaces up to the width `n`.
pub open spec fn pad_left(s: Seq<char>, n: nat) -> Seq<char> {
    if s.len() < n {
        run(' ', (n - s.len()) as nat) + s
    } else {
        s
    }
}

pub fn push_run(out: &mut String, c: char, n: usize)
    ensures
        final(out)@ == old(out)@ + run(c, n as nat),
{
    let mut i: usize = 0;
    assert(out@ + run(c, 0) =~= out@);
    while i < n
        invariant
            i <= n,
            out@ == old(out)@ + run(c, i as nat),
        decreases n - i,
    {
        out.push(c);
        i = i + 1;
        assert(old(out)@ + run(c, i as nat) =~= (old(out)@ + run(c, (i - 1) as nat)).push(c));
    }
}

pub fn push_padded(out: &mut String, s: &str, n: usize)
    ensures
        final(out)@ == old(out)@ + pad_right(s@, n as nat),
{
    let k: usize = chars_of(s).len();
    out.append(s);
    if k < n {
        push_run(out, ' ', n - k);
        assert(old(out)@ + s@ + run(' ', (n - k) as nat) =~= old(out)@ + (s@ + run(
            ' ',
            (n - k) as nat,
        )));
    }
}

pub fn push_aligned(out: &mut String, s: &str, n: usize)
    ensures
        final(out)@ == old(out)@ + pad_left(s@, n as nat),
{
    let k: usize = chars_of(s).len();
    if k < n {
        push_run(out, ' ', n - k);
        assert(old(out)@ + run(' ', (n - k) as nat) + s@ =~= old(out)@ + (run(' ', (n - k) as nat)
            + s@));
    }
    out.append(s);
}

/// The order of texts by their first differing character. It is also the order
/// of their UTF-8 encodings by bytes.
pub open spec fn text_le(a: Seq<char>, b: Seq<char>) -> bool
    decreases a.len(),
{
    if a.len() == 0 {
        true
    } else if b.len() == 0 {
        false
    } else if a[0] != b[0] {
        a[0] < b[0]
    } else {
        text_le(a.drop_first(), b.drop_first())
    }
}

/// Texts are ordered totally: two that stand in order both ways are the same.
pub proof fn lemma_text_order(a: Seq<char>, b: Seq<char>)
    ensures
        text_le(a, b) || text_le(b, a),
        text_le(a, b) && text_le(b, a) ==> a == b,
        text_le(a, a),
    decreases a.len(),
{
    if a.len() > 0 {
        lemma_text_order(a.drop_first(), if b.len() > 0 {
            b.drop_first()
        } else {
            b
        });
        if b.len() > 0 && a[0] == b[0] && a.drop_first() == b.drop_first() {
            assert(a =~= seq![a[0]] + a.drop_first());
            assert(b =~= seq![b[0]] + b.drop_first());
        }
    } else if b.len() == 0 {
        assert(a =~= b);
    }
}

/// The order of texts is transitive.
pub proof fn lemma_text_trans(a: Seq<char>, b: Seq<char>, c: Seq<char>)
    requires
        text_le(a, b),
        text_le(b, c),
    ensures
        text_le(a, c),
    decreases a.len(),
{
    if a.len() > 0 && a[0] == b[0] && b[0] == c[0] {
        lemma_text_trans(a.drop_first(), b.drop_first(), c.drop_first());
    }
}

pub fn text_ordered(a: &str, b: &str) -> (r: bool)
    ensures
        r == text_le(a@, b@),
{
    let x = chars_of(a);
    let y = chars_of(b);
    let mut i: usize = 0;
    assert(x@.skip(0) =~= x@);
    assert(y@.skip(0) =~= y@);
    while i < x.len() && i < y.len() && x[i] == y[i]
        invariant
            i <= x@.len(),
            i <= y@.len(),
            text_le(x@, y@) == text_le(x@.skip(i as int), y@.skip(i as int)),
        decreases x@.len() - i,
    {
        assert(x@.skip(i as int).drop_first() =~= x@.skip(i + 1));
        assert(y@.skip(i as int).drop_first() =~= y@.skip(i + 1));
        i = i + 1;
    }
    if i >= x.len() {
        true
    } else if i >= y.len() {
        false
    } else {
        x[i] < y[i]
    }
}

// ---------------------------------------------------------------------------
// Byte offsets
// ---------------------------------------------------------------------------

/// The number of bytes that the character takes in UTF-8.
pub open spec fn width(c: char) -> nat {
    let n = c as u32;
    if n < 0x80 {
        1
    } else if n < 0x800 {
        2
    } else if n < 0x10000 {
        3
    } else {
        4
    }
}

/// The number of bytes that the text takes in UTF-8.
pub open spec fn byte_len(s: Seq<char>) -> nat
    decreases s.len(),
{
    if s.len() == 0 {
        0
    } else {
        byte_len(s.drop_last()) + width(s.last())
    }
}

/// The position of the character that starts `b` bytes into the text; the end of
/// the text counts as one.
pub open spec fn char_pos(s: Seq<char>, b: int) -> Option<int> {
    char_pos_from(s, b, 0)
}

/// As `char_pos`, searching from position `i` on.
pub open spec fn char_pos_from(s: Seq<char>, b: int, i: int) -> Option<int>
    decreases s.len() + 1 - i,
{
    if i < 0 || i > s.len() {
        None
    } else if byte_len(s.take(i)) == b {
        Some(i)
    } else {
        char_pos_from(s, b, i + 1)
    }
}

/// The text between two byte offsets, empty unless both are the starts of
/// characters in order.
pub open spec fn byte_slice(s: Seq<char>, a: int, b: int) -> Seq<char> {
    match (char_pos(s, a), char_pos(s, b)) {
        (Some(p), Some(q)) => if p <= q {
            s.subrange(p, q)
        } else {
            Seq::empty()
        },
        _ => Seq::empty(),
    }
}

/// The longest prefix of whole characters that takes at most `max` bytes.
pub open spec fn truncated(s: Seq<char>, max: int) -> Seq<char>
    decreases s.len(),
{
    if byte_len(s) <= max || s.len() == 0 {
        s
    } else {
        truncated(s.drop_last(), max)
    }
}

pub fn char_width(c: char) -> (r: usize)
    ensures
        r == width(c),
        1 <= r <= 4,
{
    let n: u32 = c as u32;
    if n < 0x80 {
        1
    } else if n < 0x800 {
        2
    } else if n < 0x10000 {
        3
    } else {
        4
    }
}

/// What is known of the bytes of a text bounds the bytes of each prefix.
pub proof fn lemma_byte_len_take(s: Seq<char>, i: int)
    requires
        0 <= i <= s.len(),
    ensures
        byte_len(s.take(i)) <= byte_len(s),
        i <= byte_len(s.take(i)),
    decreases s.len() - i, i,
{
    if i < s.len() {
        lemma_byte_len_take(s, i + 1);
        assert(s.take(i + 1).drop_last() =~= s.take(i));
    } else {
        assert(s.take(i) =~= s);
    }
    lemma_byte_len_ge(s.take(i));
}

/// A text has no more characters than bytes.
pub proof fn lemma_byte_len_ge(s: Seq<char>)
    ensures
        s.len() <= byte_len(s),
    decreases s.len(),
{
    if s.len() > 0 {
        lemma_byte_len_ge(s.drop_last());
    }
}

/// The number of bytes of the text, or the largest number there is.
pub fn byte_count(s: &[char]) -> (r: usize)
    ensures
        r == (if byte_len(s@) <= usize::MAX {
            byte_len(s@)
        } else {
            usize::MAX as nat
        }),
{
    let mut r: usize = 0;
    let mut i: usize = 0;
    while i < s.len()
        invariant
            i <= s@.len(),
            r == byte_len(s@.take(i as int)),
        decreases s@.len() - i,
    {
        let w: usize = char_width(s[i]);
        proof {
            lemma_byte_len_take(s@, i + 1);
            assert(s@.take(i + 1).drop_last() =~= s@.take(i as int));
        }
        if w > usize::MAX - r {
            return usize::MAX;
        }
        r = r + w;
        i = i + 1;
    }
    assert(s@.take(s@.len() as int) =~= s@);
    r
}

/// Whether the text takes more bytes than that.
pub fn takes_more(s: &[char], max: usize) -> (r: bool)
    ensures
        r == (byte_len(s@) > max),
{
    let mut n: usize = 0;
    let mut i: usize = 0;
    while i < s.len()
        invariant
            i <= s@.len(),
            n == byte_len(s@.take(i as int)),
            n <= max,
        decreases s@.len() - i,
    {
        let w: usize = char_width(s[i]);
        proof {
            lemma_byte_len_take(s@, i + 1);
            assert(s@.take(i + 1).drop_last() =~= s@.take(i as int));
        }
        if w > max - n {
            return true;
        }
        n = n + w;
        i = i + 1;
    }
    assert(s@.take(s@.len() as int) =~= s@);
    false
}

proof fn lemma_char_pos_none(s: Seq<char>, b: int, i: int)
    requires
        0 <= i <= s.len(),
        byte_len(s.take(i)) > b,
    ensures
        char_pos_from(s, b, i) is None,
    decreases s.len() - i,
{
    if i < s.len() {
        assert(s.take(i + 1).drop_last() =~= s.take(i));
        lemma_char_pos_none(s, b, i + 1);
    } else {
        assert(char_pos_from(s, b, i + 1) is None);
    }
}

pub fn find_byte(s: &[char], b: usize) -> (r: Option<usize>)
    ensures
        r matches Some(i) ==> char_pos(s@, b as int) == Some(i as int) && i <= s@.len(),
        r is None ==> char_pos(s@, b as int) is None,
{
    let n: usize = s.len();
    let mut i: usize = 0;
    let mut left: usize = b;
    loop
        invariant
            i <= n,
            n == s@.len(),
            left + byte_len(s@.take(i as int)) == b,
            char_pos(s@, b as int) == char_pos_from(s@, b as int, i as int),
        decreases n - i,
    {
        if left == 0 {
            return Some(i);
        }
        if i == n {
            assert(char_pos_from(s@, b as int, i + 1) is None);
            return None;
        }
        let w: usize = char_width(s[i]);
        assert(s@.take(i + 1).drop_last() =~= s@.take(i as int));
        if w > left {
            proof {
                lemma_char_pos_none(s@, b as int, i + 1);
            }
            return None;
        }
        left = left - w;
        i = i + 1;
    }
}

pub fn bytes_between(s: &[char], a: usize, b: usize) -> (r: &[char])
    ensures
        r@ == byte_slice(s@, a as int, b as int),
{
    match (find_byte(s, a), find_byte(s, b)) {
        (Some(p), Some(q)) => if p <= q {
            slice_subrange(s, p, q)
        } else {
            slice_subrange(s, 0, 0)
        },
        _ => slice_subrange(s, 0, 0),
    }
}

/// A prefix of at most `max` bytes is what truncation leaves once the next
/// character would not fit.
proof fn lemma_truncated(s: Seq<char>, max: int, i: int)
    requires
        0 <= i <= s.len(),
        byte_len(s.take(i)) <= max,
        i == s.len() || byte_len(s.take(i + 1)) > max,
    ensures
        truncated(s, max) == s.take(i),
    decreases s.len() - i,
{
    if i == s.len() {
        assert(s.take(i) =~= s);
    } else {
        lemma_byte_len_take(s, i + 1);
        let t = s.drop_last();
        assert(t.take(i) =~= s.take(i));
        if i < t.len() {
            assert(t.take(i + 1) =~= s.take(i + 1));
        }
        lemma_truncated(t, max, i);
    }
}

/// The longest prefix of whole characters that takes at most `max` bytes.
pub fn truncate_chars(s: &[char], max: usize) -> (r: &[char])
    ensures
        r@ == truncated(s@, max as int),
{
    let n: usize = s.len();
    let mut i: usize = 0;
    let mut left: usize = max;
    loop
        invariant
            i <= n,
            n == s@.len(),
            left + byte_len(s@.take(i as int)) == max,
        decreases n - i,
    {
        if i == n {
            proof {
                lemma_truncated(s@, max as int, i as int);
            }
            return slice_subrange(s, 0, n);
        }
        let w: usize = char_width(s[i]);
        assert(s@.take(i + 1).drop_last() =~= s@.take(i as int));
        if w > left {
            proof {
                lemma_truncated(s@, max as int, i as int);
                assert(s@.take(i as int) =~= s@.subrange(0, i as int));
            }
            return slice_subrange(s, 0, i);
        }
        left = left - w;
        i = i + 1;
    }
}

proof fn lemma_byte_len_first(s: Seq<char>)
    requires
        s.len() > 0,
    ensures
        byte_len(s) == width(s[0]) + byte_len(s.drop_first()),
    decreases s.len(),
{
    if s.len() == 1 {
        assert(s.drop_last() =~= Seq::empty());
        assert(s.drop_first() =~= Seq::empty());
    } else {
        lemma_byte_len_first(s.drop_last());
        assert(s.drop_last().drop_first() =~= s.drop_first().drop_last());
    }
}

/// The number of bytes of a text is the length of its encoding.
pub proof fn lemma_byte_len_encoded(s: Seq<char>)
    ensures
        byte_len(s) == encode_utf8(s).len(),
    decreases s.len(),
{
    if s.len() > 0 {
        lemma_byte_len_first(s);
        lemma_byte_len_encoded(s.drop_first());
        char_is_scalar(s[0]);
    }
}

/// The number of bytes of a text.
pub fn text_len(s: &str) -> (r: usize)
    ensures
        r == byte_len(s@),
{
    proof {
        lemma_byte_len_encoded(s@);
    }
    s.as_bytes().len()
}

// ---------------------------------------------------------------------------
// Case and numbers with a sign
// ---------------------------------------------------------------------------

/// The lower case of a text.
pub uninterp spec fn lowercased(s: Seq<char>) -> Seq<char>;

/// `str::to_lowercase`: the lower case of the text by the Unicode tables.
#[verifier::external_body]
pub(crate) fn lowercase(s: &str) -> (r: String)
    ensures
        r@ == lowercased(s@),
{
    s.to_lowercase()
}

/// The number that the text denotes: digits after an optional sign, in the range
/// of 64 bits.
pub open spec fn parse_int(s: Seq<char>) -> Option<int> {
    if s.len() > 0 && s[0] == '-' {
        let d = s.drop_first();
        if d.len() > 0 && all_digits(d) && digits_value(d) <= 0x8000_0000_0000_0000 {
            Some(-(digits_value(d) as int))
        } else {
            None
        }
    } else {
        match parse_uint(s, 0x7fff_ffff_ffff_ffff) {
            Some(n) => Some(n as int),
            None => None,
        }
    }
}

pub fn parse_i64(s: &[char]) -> (r: Option<i64>)
    ensures
        r matches Some(n) ==> parse_int(s@) == Some(n as int),
        r is None ==> parse_int(s@) is None,
{
    let n: usize = s.len();
    if n > 0 && s[0] == '-' {
        let d = slice_subrange(s, 1, n);
        assert(d@ =~= s@.drop_first());
        if d.len() > 0 && d[0] == '+' {
            assert(!is_digit(d@[0]));
            return None;
        }
        match parse_u64(d, 0x8000_0000_0000_0000) {
            Some(v) => if v == 0x8000_0000_0000_0000 {
                Some(i64::MIN)
            } else {
                Some(-(v as i64))
            },
            None => None,
        }
    } else {
        match parse_u64(s, 0x7fff_ffff_ffff_ffff) {
            Some(v) => Some(v as i64),
            None => None,
        }
    }
}

/// The character is a letter or a number.
pub uninterp spec fn letter_or_number(c: char) -> bool;

/// `char::is_alphanumeric`: whether the character is a letter or a number. Of the
/// first hundred and twenty-eight characters these are the digits and the letters
/// from a to z in either case.
#[verifier::external_body]
pub(crate) fn is_alphanumeric(c: char) -> (r: bool)
    ensures
        r == letter_or_number(c),
        c <= '\u{7f}' ==> r == is_alnum(c),
{
    c.is_alphanumeric()
}

/// The number that a setting gives, or the usual one where it gives none.
pub open spec fn setting(given: Option<Seq<char>>, max: nat, usual: nat) -> nat {
    match given {
        Some(s) => match parse_uint(s, max) {
            Some(n) => n,
            None => usual,
        },
        None => usual,
    }
}

/// The number that a setting gives, or the usual one where it gives none.
pub fn setting_of(given: Option<&str>, max: u64, usual: u64) -> (r: u64)
    ensures
        r == setting(opt_str(given), max as nat, usual as nat),
{
    match given {
        Some(s) => {
            let c = chars_of(s);
            match parse_u64(c.as_slice(), max) {
                Some(n) => n,
                None => usual,
            }
        },
        None => usual,
    }
}

proof fn lemma_char_at_none(s: Seq<char>, c: char)
    requires
        !s.contains(c),
    ensures
        char_at(s, c) is None,
{
    lemma_char_at(s, c);
}

proof fn lemma_split_last(s: Seq<char>, c: char, t: Seq<char>)
    requires
        !t.contains(c),
    ensures
        split(s.push(c) + t, c) == split(s, c).push(t),
    decreases s.len(),
{
    let all = s.push(c) + t;
    lemma_char_at(s, c);
    match char_at(s, c) {
        None => {
            assert(all[s.len() as int] == c);
            assert forall|j: int| 0 <= j < s.len() implies all[j] != c by {
                assert(s.contains(s[j]));
            }
            lemma_char_at_is(all, c, s.len() as int);
            assert(all.take(s.len() as int) =~= s);
            assert(all.skip(s.len() as int + 1) =~= t);
            lemma_char_at_none(t, c);
            assert(split(t, c) =~= seq![t]);
            assert(split(all, c) =~= seq![s].push(t));
        },
        Some(i) => {
            assert(all[i] == c);
            assert forall|j: int| 0 <= j < i implies all[j] != c by {
                assert(all[j] == s[j]);
            }
            lemma_char_at_is(all, c, i);
            let r = s.skip(i + 1);
            assert(all.take(i) =~= s.take(i));
            assert(all.skip(i + 1) =~= r.push(c) + t);
            lemma_split_last(r, c, t);
            assert(split(all, c) =~= split(s, c).push(t));
        },
    }
}

/// Splitting undoes joining: the parts come back, each whole and in its place, where
/// none of them holds the character between them.
pub proof fn law_split_undoes_join(parts: Seq<Seq<char>>, c: char)
    requires
        parts.len() > 0,
        forall|i: int| 0 <= i < parts.len() ==> !(#[trigger] parts[i]).contains(c),
    ensures
        split(join(parts, seq![c]), c) == parts,
    decreases parts.len(),
{
    if parts.len() == 1 {
        lemma_char_at_none(parts[0], c);
        assert(split(parts[0], c) =~= parts);
    } else {
        let t = parts.drop_last();
        assert forall|i: int| 0 <= i < t.len() implies !(#[trigger] t[i]).contains(c) by {
            assert(t[i] == parts[i]);
        }
        law_split_undoes_join(t, c);
        assert(!parts[parts.len() - 1].contains(c));
        lemma_split_last(join(t, seq![c]), c, parts.last());
        assert(join(t, seq![c]) + seq![c] + parts.last() =~= join(t, seq![c]).push(c)
            + parts.last());
        assert(t.push(parts.last()) =~= parts);
    }
}

/// The parts that a text is split into hold the character between them nowhere, and
/// joined they give the text again.
pub proof fn law_join_undoes_split(s: Seq<char>, c: char)
    ensures
        split(s, c).len() > 0,
        forall|i: int| 0 <= i < split(s, c).len() ==> !(#[trigger] split(s, c)[i]).contains(c),
        join(split(s, c), seq![c]) == s,
    decreases s.len(),
{
    lemma_char_at(s, c);
    match char_at(s, c) {
        None => {
            assert(split(s, c) =~= seq![s]);
        },
        Some(i) => {
            let rest = split(s.skip(i + 1), c);
            law_join_undoes_split(s.skip(i + 1), c);
            let all = split(s, c);
            assert(all =~= seq![s.take(i)] + rest);
            assert forall|k: int| 0 <= k < all.len() implies !(#[trigger] all[k]).contains(c) by {
                if k == 0 {
                    if s.take(i).contains(c) {
                        let j = choose|j: int| 0 <= j < i && s.take(i)[j] == c;
                        assert(s[j] == c);
                    }
                } else {
                    assert(all[k] == rest[k - 1]);
                }
            }
            lemma_join_first(s.take(i), rest, seq![c]);
            assert(s.take(i) + seq![c] + s.skip(i + 1) =~= s);
        },
    }
}

proof fn lemma_join_first(a: Seq<char>, rest: Seq<Seq<char>>, sep: Seq<char>)
    requires
        rest.len() > 0,
    ensures
        join(seq![a] + rest, sep) == a + sep + join(rest, sep),
    decreases rest.len(),
{
    let all = seq![a] + rest;
    assert(all.last() == rest.last());
    if rest.len() == 1 {
        assert(all.drop_last() =~= seq![a]);
        assert(join(seq![a], sep) == a);
        assert(join(all, sep) =~= a + sep + rest[0]);
    } else {
        assert(all.drop_last() =~= seq![a] + rest.drop_last());
        lemma_join_first(a, rest.drop_last(), sep);
        assert(join(all, sep) =~= a + sep + join(rest, sep));
    }
}

/// A line ends at its line feed: lines written one below the other are read back, each
/// whole and in its place. None of them may hold a line feed or end in a carriage
/// return.
pub proof fn law_lines_are_read_back(parts: Seq<Seq<char>>)
    requires
        parts.len() > 0,
        forall|i: int| 0 <= i < parts.len() ==> !(#[trigger] parts[i]).contains('\n'),
        forall|i: int|
            0 <= i < parts.len() && parts[i].len() > 0 ==> (#[trigger] parts[i]).last() != '\r',
    ensures
        lines(join(parts, seq!['\n']).push('\n')) == parts,
        parts.last().len() > 0 ==> lines(join(parts, seq!['\n'])) == parts,
    decreases parts.len(),
{
    let nl = seq!['\n'];
    let a = parts[0];
    assert(!parts[0].contains('\n'));
    if parts.len() == 1 {
        let s = a.push('\n');
        assert forall|j: int| 0 <= j < a.len() implies s[j] != '\n' by {
            assert(a.contains(a[j]));
        }
        lemma_char_at_is(s, '\n', a.len() as int);
        assert(s.take(a.len() as int) =~= a);
        assert(s.skip(a.len() as int + 1) =~= Seq::<char>::empty());
        assert(lines(Seq::<char>::empty()) =~= Seq::<Seq<char>>::empty());
        assert(chop_return(a) == a);
        assert(lines(s) =~= parts);
        lemma_char_at_none(a, '\n');
        if a.len() > 0 {
            assert(lines(a) =~= parts);
        }
    } else {
        let rest = parts.drop_first();
        assert(parts =~= seq![a] + rest);
        assert forall|i: int| 0 <= i < rest.len() implies !(#[trigger] rest[i]).contains('\n') by {
            assert(rest[i] == parts[i + 1]);
        }
        assert forall|i: int| 0 <= i < rest.len() && rest[i].len() > 0 implies (
        #[trigger] rest[i]).last() != '\r' by {
            assert(rest[i] == parts[i + 1]);
        }
        law_lines_are_read_back(rest);
        lemma_join_first(a, rest, nl);
        let t = join(rest, nl);
        let s = join(parts, nl);
        assert(s =~= a + nl + t);
        assert forall|j: int| 0 <= j < a.len() implies s[j] != '\n' by {
            assert(a.contains(a[j]));
        }
        assert(s[a.len() as int] == '\n');
        lemma_char_at_is(s, '\n', a.len() as int);
        assert(s.take(a.len() as int) =~= a);
        assert(s.skip(a.len() as int + 1) =~= t);
        let u = s.push('\n');
        assert forall|j: int| 0 <= j < a.len() implies u[j] != '\n' by {
            assert(u[j] == s[j]);
        }
        lemma_char_at_is(u, '\n', a.len() as int);
        assert(u.take(a.len() as int) =~= a);
        assert(u.skip(a.len() as int + 1) =~= t.push('\n'));
        assert(lines(u) =~= parts);
        if parts.last().len() > 0 {
            assert(rest.last() == parts.last());
            assert(lines(s) =~= parts);
        }
    }
}

/// No line of a text holds a line feed.
pub proof fn law_lines_hold_no_feed(s: Seq<char>)
    ensures
        forall|i: int| 0 <= i < lines(s).len() ==> !(#[trigger] lines(s)[i]).contains('\n'),
    decreases s.len(),
{
    lemma_char_at(s, '\n');
    if s.len() > 0 {
        match char_at(s, '\n') {
            None => {},
            Some(i) => {
                let rest = s.skip(i + 1);
                law_lines_hold_no_feed(rest);
                let all = lines(s);
                let a = s.take(i);
                assert forall|k: int| 0 <= k < all.len() implies !(#[trigger] all[k]).contains('\n') by {
                    if k == 0 {
                        if chop_return(a).contains('\n') {
                            let j = choose|j: int|
                                0 <= j < chop_return(a).len() && chop_return(a)[j] == '\n';
                            assert(s[j] == '\n');
                        }
                    } else {
                        assert(all[k] == lines(rest)[k - 1]);
                    }
                }
            },
        }
    }
}

/// What stands in a text stands in every text that goes on before or behind it.
pub proof fn lemma_has_within(a: Seq<char>, m: Seq<char>, b: Seq<char>, p: Seq<char>)
    requires
        has(m, p),
    ensures
        has(a + m + b, p),
{
    let i = choose|i: int| occurs_at(m, p, i);
    let all = a + m + b;
    assert(all.subrange(a.len() + i, a.len() + i + p.len()) =~= m.subrange(i, i + p.len()));
    assert(occurs_at(all, p, a.len() + i));
}

/// What stands in a text stands in it with something before.
pub proof fn lemma_has_right(a: Seq<char>, m: Seq<char>, p: Seq<char>)
    requires
        has(m, p),
    ensures
        has(a + m, p),
{
    lemma_has_within(a, m, Seq::empty(), p);
    assert(a + m + Seq::<char>::empty() =~= a + m);
}

/// What stands in a text stands in it with something behind.
pub proof fn lemma_has_left(m: Seq<char>, b: Seq<char>, p: Seq<char>)
    requires
        has(m, p),
    ensures
        has(m + b, p),
{
    lemma_has_within(Seq::empty(), m, b, p);
    assert(Seq::<char>::empty() + m + b =~= m + b);
}

/// Texts that follow each other may be taken together.
pub proof fn lemma_two_together(m: Seq<char>, a: Seq<char>, b: Seq<char>)
    ensures
        m + a + b == m + (a + b),
{
    assert(m + a + b =~= m + (a + b));
}

/// Texts that follow each other may be taken together.
pub proof fn lemma_four_together(m: Seq<char>, a: Seq<char>, b: Seq<char>, c: Seq<char>, d: Seq<char>)
    ensures
        m + (a + b + c + d) == m + a + b + c + d,
{
    assert(m + (a + b + c + d) =~= m + a + b + c + d);
}

/// A text stands in itself.
pub proof fn lemma_has_self(p: Seq<char>)
    ensures
        has(p, p),
{
    assert(p.subrange(0, p.len() as int) =~= p);
    assert(occurs_at(p, p, 0));
}

/// What stands in a text that stands in another stands in that one too.
pub proof fn lemma_has_trans(s: Seq<char>, m: Seq<char>, p: Seq<char>)
    requires
        has(s, m),
        has(m, p),
    ensures
        has(s, p),
{
    let i = choose|i: int| occurs_at(s, m, i);
    let a = s.take(i);
    let b = s.skip(i + m.len());
    assert(s =~= a + m + b);
    lemma_has_within(a, m, b, p);
}

/// A joined text holds every part, whole.
pub proof fn law_join_holds_every_part(parts: Seq<Seq<char>>, sep: Seq<char>, i: int)
    requires
        0 <= i < parts.len(),
    ensures
        has(join(parts, sep), parts[i]),
    decreases parts.len(),
{
    if parts.len() == 1 {
        lemma_has_self(parts[0]);
    } else {
        let t = parts.drop_last();
        if i < t.len() {
            law_join_holds_every_part(t, sep, i);
            lemma_has_left(join(t, sep), sep, t[i]);
            lemma_has_left(join(t, sep) + sep, parts.last(), t[i]);
        } else {
            lemma_has_self(parts[i]);
            lemma_has_right(join(t, sep) + sep, parts[i], parts[i]);
        }
    }
}

/// A text with the character between two others splits into the parts of the one and
/// then those of the other.
pub proof fn law_split_takes_each_side(a: Seq<char>, b: Seq<char>, c: char)
    ensures
        split(a.push(c) + b, c) == split(a, c) + split(b, c),
    decreases a.len(),
{
    let all = a.push(c) + b;
    lemma_char_at(a, c);
    match char_at(a, c) {
        None => {
            assert(all[a.len() as int] == c);
            assert forall|j: int| 0 <= j < a.len() implies all[j] != c by {
                assert(a.contains(a[j]));
            }
            lemma_char_at_is(all, c, a.len() as int);
            assert(all.take(a.len() as int) =~= a);
            assert(all.skip(a.len() as int + 1) =~= b);
            assert(split(a, c) =~= seq![a]);
        },
        Some(i) => {
            assert(all[i] == c);
            assert forall|j: int| 0 <= j < i implies all[j] != c by {
                assert(all[j] == a[j]);
            }
            lemma_char_at_is(all, c, i);
            let r = a.skip(i + 1);
            assert(all.take(i) =~= a.take(i));
            assert(all.skip(i + 1) =~= r.push(c) + b);
            law_split_takes_each_side(r, b, c);
            assert(split(all, c) =~= split(a, c) + split(b, c));
        },
    }
}

proof fn lemma_trim_start(s: Seq<char>) -> (i: int)
    ensures
        0 <= i <= s.len(),
        trim_start(s) == s.skip(i),
        forall|k: int| 0 <= k < i ==> is_space(#[trigger] s[k]),
        i < s.len() ==> !is_space(s[i]),
    decreases s.len(),
{
    if s.len() > 0 && is_space(s[0]) {
        let t = s.drop_first();
        let j = lemma_trim_start(t);
        assert(t.skip(j) =~= s.skip(j + 1));
        assert forall|k: int| 0 <= k < j + 1 implies is_space(#[trigger] s[k]) by {
            if k > 0 {
                assert(is_space(t[k - 1]));
            }
        }
        j + 1
    } else {
        assert(s.skip(0) =~= s);
        0
    }
}

proof fn lemma_trim_end(s: Seq<char>) -> (j: int)
    ensures
        0 <= j <= s.len(),
        trim_end(s) == s.take(j),
        forall|k: int| j <= k < s.len() ==> is_space(#[trigger] s[k]),
        j > 0 ==> !is_space(s[j - 1]),
    decreases s.len(),
{
    if s.len() > 0 && is_space(s.last()) {
        let t = s.drop_last();
        let j = lemma_trim_end(t);
        assert(t.take(j) =~= s.take(j));
        assert forall|k: int| j <= k < s.len() implies is_space(#[trigger] s[k]) by {
            if k < s.len() - 1 {
                assert(is_space(t[k]));
            }
        }
        j
    } else {
        assert(s.take(s.len() as int) =~= s);
        s.len() as int
    }
}

/// Trimming takes off white space at both ends, all of it and nothing else.
pub proof fn law_only_blanks_are_trimmed(s: Seq<char>) -> (r: (int, int))
    ensures
        0 <= r.0 <= r.1 <= s.len(),
        trim(s) == s.subrange(r.0, r.1),
        forall|k: int| 0 <= k < r.0 ==> is_space(#[trigger] s[k]),
        forall|k: int| r.1 <= k < s.len() ==> is_space(#[trigger] s[k]),
        trim(s).len() > 0 ==> !is_space(trim(s)[0]) && !is_space(trim(s).last()),
{
    let i = lemma_trim_start(s);
    let t = trim_start(s);
    let j = lemma_trim_end(t);
    assert(t.take(j) =~= s.subrange(i, i + j));
    assert forall|k: int| i + j <= k < s.len() implies is_space(#[trigger] s[k]) by {
        assert(is_space(t[k - i]));
    }
    if j > 0 {
        assert(t[0] == s[i]);
    }
    (i, i + j)
}

/// Stripping takes the character off the start, or the end, as often as it stands
/// there, and nothing else.
pub proof fn law_only_the_character_is_stripped(s: Seq<char>, c: char)
    ensures
        s == run(c, (s.len() - strip_start(s, c).len()) as nat) + strip_start(s, c),
        strip_start(s, c).len() > 0 ==> strip_start(s, c)[0] != c,
        s == strip_end(s, c) + run(c, (s.len() - strip_end(s, c).len()) as nat),
        strip_end(s, c).len() > 0 ==> strip_end(s, c).last() != c,
{
    lemma_strip_start(s, c);
    lemma_strip_end(s, c);
}

proof fn lemma_strip_start(s: Seq<char>, c: char)
    ensures
        strip_start(s, c).len() <= s.len(),
        s == run(c, (s.len() - strip_start(s, c).len()) as nat) + strip_start(s, c),
        strip_start(s, c).len() > 0 ==> strip_start(s, c)[0] != c,
    decreases s.len(),
{
    if s.len() > 0 && s[0] == c {
        let t = s.drop_first();
        lemma_strip_start(t, c);
        let r = strip_start(s, c);
        assert(run(c, (s.len() - r.len()) as nat) + r =~= seq![c] + (run(
            c,
            (t.len() - r.len()) as nat,
        ) + r));
        assert(seq![c] + t =~= s);
    } else {
        assert(run(c, 0) + s =~= s);
    }
}

proof fn lemma_strip_end(s: Seq<char>, c: char)
    ensures
        strip_end(s, c).len() <= s.len(),
        s == strip_end(s, c) + run(c, (s.len() - strip_end(s, c).len()) as nat),
        strip_end(s, c).len() > 0 ==> strip_end(s, c).last() != c,
    decreases s.len(),
{
    if s.len() > 0 && s.last() == c {
        let t = s.drop_last();
        lemma_strip_end(t, c);
        let r = strip_end(s, c);
        assert(r + run(c, (s.len() - r.len()) as nat) =~= (r + run(
            c,
            (t.len() - r.len()) as nat,
        )).push(c));
        assert(t.push(c) =~= s);
    } else {
        assert(s + run(c, 0) =~= s);
    }
}

/// The last place of a text in another is one, no later one is, and there is one wherever
/// the text stands in the other.
pub proof fn law_last_occurrence_is_found(s: Seq<char>, p: Seq<char>)
    ensures
        match rfind(s, p) {
            Some(k) => occurs_at(s, p, k) && forall|j: int| k < j ==> !occurs_at(s, p, j),
            None => forall|j: int| !occurs_at(s, p, j),
        },
{
    lemma_rfind_from(s, p, s.len() - p.len());
    assert forall|j: int| j > s.len() - p.len() implies !occurs_at(s, p, j) by {}
}

proof fn lemma_rfind_from(s: Seq<char>, p: Seq<char>, i: int)
    ensures
        match rfind_from(s, p, i) {
            Some(k) => k <= i && occurs_at(s, p, k) && forall|j: int|
                k < j <= i ==> !occurs_at(s, p, j),
            None => forall|j: int| j <= i ==> !occurs_at(s, p, j),
        },
    decreases i + 1,
{
    if i >= 0 && !occurs_at(s, p, i) {
        lemma_rfind_from(s, p, i - 1);
    }
}

/// What follows a prefix is what was put there.
pub proof fn law_prefix_is_taken_off(p: Seq<char>, s: Seq<char>)
    ensures
        after_prefix(p + s, p) == Some(s),
{
    let all = p + s;
    assert(p =~= all.subrange(0, p.len() as int));
    assert(all.subrange(p.len() as int, all.len() as int) =~= s);
}

/// A text is cut to the longest start of whole characters that fits.
pub proof fn law_longest_start_that_fits(s: Seq<char>, max: int)
    requires
        0 <= max,
    ensures
        truncated(s, max).is_prefix_of(s),
        byte_len(truncated(s, max)) <= max,
        truncated(s, max).len() < s.len() ==> byte_len(
            s.take(truncated(s, max).len() as int + 1),
        ) > max,
    decreases s.len(),
{
    assert(s =~= s.subrange(0, s.len() as int));
    if byte_len(s) > max && s.len() > 0 {
        let t = s.drop_last();
        law_longest_start_that_fits(t, max);
        let r = truncated(s, max);
        assert(r =~= s.subrange(0, r.len() as int)) by {
            assert(t.subrange(0, r.len() as int) =~= s.subrange(0, r.len() as int));
        }
        if r.len() < t.len() {
            assert(t.take(r.len() as int + 1) =~= s.take(r.len() as int + 1));
        } else {
            assert(s.take(r.len() as int + 1) =~= s);
        }
    }
}

proof fn lemma_byte_len_rises(s: Seq<char>, i: int, j: int)
    requires
        0 <= i < j <= s.len(),
    ensures
        byte_len(s.take(i)) < byte_len(s.take(j)),
    decreases j - i,
{
    assert(s.take(j).drop_last() =~= s.take(j - 1));
    if i < j - 1 {
        lemma_byte_len_rises(s, i, j - 1);
    }
}

proof fn lemma_char_pos(s: Seq<char>, p: int, i: int)
    requires
        0 <= i <= p <= s.len(),
    ensures
        char_pos_from(s, byte_len(s.take(p)) as int, i) == Some(p),
    decreases p - i,
{
    if i < p {
        lemma_byte_len_rises(s, i, p);
        lemma_char_pos(s, p, i + 1);
    }
}

/// The text between the bytes at which two characters start is what stands between the
/// characters.
pub proof fn law_byte_offsets_lead_to_characters(s: Seq<char>, p: int, q: int)
    requires
        0 <= p <= q <= s.len(),
    ensures
        byte_slice(s, byte_len(s.take(p)) as int, byte_len(s.take(q)) as int) == s.subrange(p, q),
{
    lemma_char_pos(s, p, 0);
    lemma_char_pos(s, q, 0);
}

/// From position `a` to position `b` stands a word: no white space, but on both sides
/// of it.
pub open spec fn word_at(s: Seq<char>, a: int, b: int) -> bool {
    &&& 0 <= a < b <= s.len()
    &&& forall|k: int| a <= k < b ==> !is_space(#[trigger] s[k])
    &&& a == 0 || is_space(s[a - 1])
    &&& b == s.len() || is_space(s[b])
}

/// Every word of a text is listed.
pub proof fn law_every_word_is_listed(s: Seq<char>, i: int, a: int, b: int)
    requires
        word_at(s, a, b),
        0 <= i <= a,
        i == 0 || is_space(s[i - 1]) || i == s.len() || is_space(s[i]),
    ensures
        words_from(s, i).contains(s.subrange(a, b)),
    decreases s.len() - i,
{
    let w = s.subrange(a, b);
    if is_space(s[i]) {
        law_every_word_is_listed(s, i + 1, a, b);
    } else {
        lemma_word_stops(s, i);
        let j = word_end(s, i);
        let rest = words_from(s, j);
        let all = seq![s.subrange(i, j)] + rest;
        if i == a {
            lemma_word_end(s, a, b);
            assert(all[0] == w);
        } else {
            assert(j <= a) by {
                if j > a {
                    assert(!is_space(s[a - 1]));
                }
            }
            law_every_word_is_listed(s, j, a, b);
            let k = choose|k: int| 0 <= k < rest.len() && rest[k] == w;
            assert(all[k + 1] == w);
        }
    }
}

proof fn lemma_word_stops(s: Seq<char>, i: int)
    requires
        0 <= i <= s.len(),
    ensures
        i <= word_end(s, i) <= s.len(),
        word_end(s, i) == s.len() || is_space(s[word_end(s, i)]),
        forall|k: int| i <= k < word_end(s, i) ==> !is_space(#[trigger] s[k]),
        i < s.len() && !is_space(s[i]) ==> i < word_end(s, i),
    decreases s.len() - i,
{
    if i < s.len() && !is_space(s[i]) {
        lemma_word_stops(s, i + 1);
    }
}

/// What is listed as a word of a text is one.
pub proof fn law_listed_words_are_words(s: Seq<char>, i: int, n: int) -> (r: (int, int))
    requires
        0 <= i <= s.len(),
        i == 0 || is_space(s[i - 1]) || i == s.len() || is_space(s[i]),
        0 <= n < words_from(s, i).len(),
    ensures
        word_at(s, r.0, r.1),
        i <= r.0,
        words_from(s, i)[n] == s.subrange(r.0, r.1),
    decreases s.len() - i,
{
    if is_space(s[i]) {
        law_listed_words_are_words(s, i + 1, n)
    } else {
        lemma_word_stops(s, i);
        let j = word_end(s, i);
        if n == 0 {
            (i, j)
        } else {
            let rest = words_from(s, j);
            assert(words_from(s, i)[n] == rest[n - 1]);
            law_listed_words_are_words(s, j, n - 1)
        }
    }
}

/// A number is read back with its sign.
pub proof fn law_signed_number_is_read_back(n: nat)
    ensures
        n <= 0x7fff_ffff_ffff_ffff ==> parse_int(dec(n)) == Some(n as int),
        n <= 0x8000_0000_0000_0000 ==> parse_int(seq!['-'] + dec(n)) == Some(-(n as int)),
{
    lemma_dec_value(n);
    assert(is_digit(dec(n)[0]));
    if n <= 0x7fff_ffff_ffff_ffff {
        law_decimal_round_trip(n, 0x7fff_ffff_ffff_ffff);
    }
    assert((seq!['-'] + dec(n)).drop_first() =~= dec(n));
}

/// A digit behind a number makes it ten times as large, and the digit is added.
pub proof fn law_digits_are_decimal(n: nat, d: nat)
    requires
        n > 0,
        d < 10,
    ensures
        dec(10 * n + d) == dec(n) + dec(d),
        dec(d).len() == 1,
        dec(d)[0] as nat == 48 + d,
{
    let m: nat = 10 * n + d;
    assert(m / 10 == n);
    assert(m % 10 == d);
    assert(dec(m) =~= dec(n) + dec(d));
}

/// A text that starts another precedes it; else the first characters that differ decide.
pub proof fn law_first_difference_decides(a: Seq<char>, b: Seq<char>, i: int)
    requires
        0 <= i <= a.len(),
        i <= b.len(),
        forall|k: int| 0 <= k < i ==> a[k] == b[k],
    ensures
        i == a.len() ==> text_le(a, b),
        i < a.len() && i < b.len() && a[i] < b[i] ==> text_le(a, b) && !text_le(b, a),
    decreases i,
{
    if i > 0 {
        let x = a.drop_first();
        let y = b.drop_first();
        assert forall|k: int| 0 <= k < i - 1 implies x[k] == y[k] by {
            assert(a[k + 1] == b[k + 1]);
        }
        law_first_difference_decides(x, y, i - 1);
    }
}

/// Padding adds blanks up to the width, behind the text or before it.
pub proof fn law_padding_adds_blanks(s: Seq<char>, n: nat)
    ensures
        s.is_prefix_of(pad_right(s, n)),
        s.is_suffix_of(pad_left(s, n)),
        pad_right(s, n).len() == pad_left(s, n).len() == (if s.len() < n {
            n
        } else {
            s.len()
        }),
        forall|i: int| s.len() <= i < pad_right(s, n).len() ==> #[trigger] pad_right(s, n)[i] == ' ',
        forall|i: int|
            0 <= i < pad_left(s, n).len() - s.len() ==> #[trigger] pad_left(s, n)[i] == ' ',
{
    assert(s =~= pad_right(s, n).subrange(0, s.len() as int));
    assert(s =~= pad_left(s, n).subrange(
        pad_left(s, n).len() - s.len(),
        pad_left(s, n).len() as int,
    ));
}

/// The place of a character is found by the bytes before it.
pub proof fn lemma_char_place(s: Seq<char>, p: int)
    requires
        0 <= p <= s.len(),
    ensures
        char_pos(s, byte_len(s.take(p)) as int) == Some(p),
{
    lemma_char_pos(s, p, 0);
}

/// A setting that is a number in range is taken, and whatever else is given leaves the
/// usual one.
pub proof fn law_settings_are_taken(n: nat, max: nat, usual: nat)
    ensures
        n <= max ==> setting(Some(dec(n)), max, usual) == n,
        n > max ==> setting(Some(dec(n)), max, usual) == usual,
        setting(None, max, usual) == usual,
        setting(Some(Seq::empty()), max, usual) == usual,
{
    lemma_dec_value(n);
    assert(is_digit(dec(n)[0]));
    if n <= max {
        law_decimal_round_trip(n, max);
    }
}

} // verus!
