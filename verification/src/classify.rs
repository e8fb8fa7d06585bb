//! What a query asks for.
use vstd::prelude::*;
use vstd::slice::slice_subrange;
use vstd::string::*;

use crate::lang::{is_known_extension, known_extension};
use crate::paths::{join_path, joined};
use crate::text::{
    alnum_char, chars_of, digit_char, has, has_char, has_prefix, has_text, is_alnum, is_digit, is_lower,
    is_text, is_upper, last_char_at, lower_char, rfind_char, split, split_on, string_of, upper_char,
    views, words, words_of,
};

verus! {

/// What a query asks for.
#[derive(Debug)]
pub enum QueryType {
    /// The file at the path.
    FilePath(String),
    /// The files that match the pattern.
    Glob(String),
    /// The symbol of that name.
    Symbol(String),
    /// What the words are about.
    Concept(String),
    /// The places of the text.
    Content(String),
    /// The places that the pattern matches.
    Regex(String),
    /// Whatever can be found.
    Fallthrough(String),
}

/// What a query asks for, in texts.
pub enum QueryView {
    FilePath(Seq<char>),
    Glob(Seq<char>),
    Symbol(Seq<char>),
    Concept(Seq<char>),
    Content(Seq<char>),
    Regex(Seq<char>),
    Fallthrough(Seq<char>),
}

impl View for QueryType {
    type V = QueryView;

    open spec fn view(&self) -> QueryView {
        match self {
            QueryType::FilePath(s) => QueryView::FilePath(s@),
            QueryType::Glob(s) => QueryView::Glob(s@),
            QueryType::Symbol(s) => QueryView::Symbol(s@),
            QueryType::Concept(s) => QueryView::Concept(s@),
            QueryType::Content(s) => QueryView::Content(s@),
            QueryType::Regex(s) => QueryView::Regex(s@),
            QueryType::Fallthrough(s) => QueryView::Fallthrough(s@),
        }
    }
}

// ---------------------------------------------------------------------------
// Names
// ---------------------------------------------------------------------------

/// Whether an identifier can begin with the character.
pub open spec fn begins_identifier(c: char) -> bool {
    is_lower(c) || is_upper(c) || c == '_' || c == '$' || c == '@'
}

/// Whether an identifier can go on with the character.
pub open spec fn continues_identifier(c: char) -> bool {
    is_alnum(c) || c == '_' || c == '$' || c == '.' || c == '-'
}

/// Whether the text is an identifier.
pub open spec fn identifier(s: Seq<char>) -> bool {
    &&& s.len() > 0
    &&& begins_identifier(s[0])
    &&& forall|i: int| 1 <= i < s.len() ==> continues_identifier(#[trigger] s[i])
}

fn identifier_chars(s: &[char]) -> (r: bool)
    ensures
        r == identifier(s@),
{
    if s.len() == 0 {
        return false;
    }
    let first = s[0];
    if !(lower_char(first) || upper_char(first) || first == '_' || first == '$' || first == '@') {
        return false;
    }
    let mut i: usize = 1;
    while i < s.len()
        invariant
            1 <= i <= s@.len(),
            forall|k: int| 1 <= k < i ==> continues_identifier(#[trigger] s@[k]),
        decreases s@.len() - i,
    {
        let c = s[i];
        if !(alnum_char(c) || c == '_' || c == '$' || c == '.' || c == '-') {
            assert(!continues_identifier(s@[i as int]));
            return false;
        }
        i = i + 1;
    }
    true
}

/// Whether the text is an identifier: it begins with a letter, `_`, `$` or `@`, and goes
/// on with letters, digits, `_`, `$`, `.` and `-`.
pub fn is_identifier(s: &str) -> (r: bool)
    ensures
        r == identifier(s@),
{
    let c = chars_of(s);
    identifier_chars(c.as_slice())
}

/// Whether a word looks like the exact name of a symbol: it has the shape of a name in
/// `PascalCase`, `camelCase`, `snake_case` or `kebab-case`, it is qualified, or it
/// begins with a sign.
pub open spec fn exact_symbol(s: Seq<char>) -> bool {
    &&& s.len() > 0
    &&& {
        ||| is_upper(s[0])
        ||| has(s, "::"@)
        ||| s.contains('.')
        ||| s.contains('_')
        ||| s.contains('-')
        ||| s[0] == '$'
        ||| s[0] == '@'
        ||| is_lower(s[0]) && exists|i: int| 1 <= i < s.len() && is_upper(#[trigger] s[i])
    }
}

fn upper_later(s: &[char]) -> (r: bool)
    ensures
        r == (exists|i: int| 1 <= i < s@.len() && is_upper(#[trigger] s@[i])),
{
    let mut i: usize = 1;
    while i < s.len()
        invariant
            1 <= i,
            s@.len() > 0 ==> i <= s@.len(),
            forall|k: int| 1 <= k < i && k < s@.len() ==> !is_upper(#[trigger] s@[k]),
        decreases s@.len() - i,
    {
        if upper_char(s[i]) {
            return true;
        }
        i = i + 1;
    }
    false
}

fn exact_symbol_chars(s: &[char]) -> (r: bool)
    ensures
        r == exact_symbol(s@),
{
    if s.len() == 0 {
        return false;
    }
    let first = s[0];
    upper_char(first) || has_text(s, "::") || has_char(s, '.') || has_char(s, '_') || has_char(s, '-')
        || first == '$' || first == '@' || (lower_char(first) && upper_later(s))
}

/// Whether a word looks like the exact name of a symbol.
pub fn looks_like_exact_symbol(query: &str) -> (r: bool)
    ensures
        r == exact_symbol(query@),
{
    let c = chars_of(query);
    exact_symbol_chars(c.as_slice())
}

// ---------------------------------------------------------------------------
// File names
// ---------------------------------------------------------------------------

/// The names of files that are known without an extension.
pub open spec fn known_file(s: Seq<char>) -> bool {
    s == "README"@ || s == "LICENSE"@ || s == "Makefile"@ || s == "GNUmakefile"@ || s == "Dockerfile"@ || s
        == "Containerfile"@ || s == "Vagrantfile"@ || s == "Rakefile"@ || s == "Gemfile"@ || s
        == "Procfile"@ || s == "Justfile"@ || s == "Taskfile"@ || s == "CHANGELOG"@ || s
        == "CONTRIBUTING"@ || s == "AUTHORS"@ || s == "CODEOWNERS"@
}

/// Whether the last dot stands inside the text, neither first nor last.
pub open spec fn inner_dot(s: Seq<char>) -> bool {
    match last_char_at(s, '.') {
        Some(d) => 0 < d < s.len() - 1,
        None => false,
    }
}

/// Whether the query looks like the name of a file.
pub open spec fn filename(s: Seq<char>) -> bool {
    !s.contains(' ') && !s.contains('/') && (inner_dot(s) || known_file(s))
}

fn known_file_chars(s: &[char]) -> (r: bool)
    ensures
        r == known_file(s@),
{
    is_text(s, "README") || is_text(s, "LICENSE") || is_text(s, "Makefile") || is_text(s, "GNUmakefile")
        || is_text(s, "Dockerfile") || is_text(s, "Containerfile") || is_text(s, "Vagrantfile")
        || is_text(s, "Rakefile") || is_text(s, "Gemfile") || is_text(s, "Procfile") || is_text(
        s,
        "Justfile",
    ) || is_text(s, "Taskfile") || is_text(s, "CHANGELOG") || is_text(s, "CONTRIBUTING") || is_text(
        s,
        "AUTHORS",
    ) || is_text(s, "CODEOWNERS")
}

fn filename_chars(s: &[char]) -> (r: bool)
    ensures
        r == filename(s@),
{
    if has_char(s, ' ') || has_char(s, '/') {
        return false;
    }
    if let Some(d) = rfind_char(s, '.') {
        if d > 0 && d < s.len() - 1 {
            return true;
        }
    }
    known_file_chars(s)
}

/// Whether the query looks like the name of a file: it has an extension, or is one of
/// the names that are known without one.
pub fn looks_like_filename(query: &str) -> (r: bool)
    ensures
        r == filename(query@),
{
    let c = chars_of(query);
    filename_chars(c.as_slice())
}

/// Whether the query names a member of something: both sides of the last dot are
/// identifiers, and what follows it is too long for an extension, or is none that is
/// known.
pub open spec fn dotted_symbol(s: Seq<char>) -> bool {
    match last_char_at(s, '.') {
        Some(d) => {
            &&& 0 < d < s.len() - 1
            &&& identifier(s.take(d))
            &&& identifier(s.skip(d + 1))
            &&& s.skip(d + 1).len() > 4 || !known_extension(s.skip(d + 1))
        },
        None => false,
    }
}

fn dotted_symbol_chars(s: &[char]) -> (r: bool)
    ensures
        r == dotted_symbol(s@),
{
    match rfind_char(s, '.') {
        Some(d) => {
            if d == 0 || d >= s.len() - 1 {
                return false;
            }
            let front = slice_subrange(s, 0, d);
            let back = slice_subrange(s, d + 1, s.len());
            assert(front@ =~= s@.take(d as int));
            assert(back@ =~= s@.skip(d + 1));
            if !identifier_chars(front) || !identifier_chars(back) {
                return false;
            }
            back.len() > 4 || !is_known_extension(string_of(back).as_str())
        },
        None => false,
    }
}

/// Whether the query names a member of something, as `Auth.validate` and `std.path` do,
/// and is not the name of a file, as `server.go` and `config.yaml` are.
pub fn is_dotted_symbol(query: &str) -> (r: bool)
    ensures
        r == dotted_symbol(query@),
{
    let c = chars_of(query);
    dotted_symbol_chars(c.as_slice())
}

// ---------------------------------------------------------------------------
// Patterns
// ---------------------------------------------------------------------------

/// Whether the character has a meaning of its own in a pattern.
pub open spec fn regex_sign(c: char) -> bool {
    c == '(' || c == ')' || c == '[' || c == ']' || c == '{' || c == '}' || c == '*' || c == '+' || c == '?'
        || c == '|' || c == '\\' || c == '^' || c == '$'
}

/// Whether the text has a sign of a pattern.
pub open spec fn has_regex_sign(s: Seq<char>) -> bool {
    exists|i: int| 0 <= i < s.len() && regex_sign(#[trigger] s[i])
}

fn regex_sign_in(s: &[char]) -> (r: bool)
    ensures
        r == has_regex_sign(s@),
{
    let mut i: usize = 0;
    while i < s.len()
        invariant
            i <= s@.len(),
            forall|k: int| 0 <= k < i ==> !regex_sign(#[trigger] s@[k]),
        decreases s@.len() - i,
    {
        let c = s[i];
        if c == '(' || c == ')' || c == '[' || c == ']' || c == '{' || c == '}' || c == '*' || c == '+' || c
            == '?' || c == '|' || c == '\\' || c == '^' || c == '$' {
            assert(regex_sign(s@[i as int]));
            return true;
        }
        i = i + 1;
    }
    false
}

/// Whether the text has a sign of a pattern, which tells `/pattern/` from `/path/`.
pub fn has_regex_metachar(s: &str) -> (r: bool)
    ensures
        r == has_regex_sign(s@),
{
    let c = chars_of(s);
    regex_sign_in(c.as_slice())
}

/// Whether the query is a pattern between slashes.
pub open spec fn slashed(s: Seq<char>) -> bool {
    s.len() >= 3 && s[0] == '/' && s.last() == '/' && has_regex_sign(s.subrange(1, s.len() - 1))
}

/// Whether the character is one of those that a pattern for files has.
pub open spec fn glob_sign(c: char) -> bool {
    c == '*' || c == '?' || c == '{' || c == '['
}

/// Whether the query is a pattern for files.
pub open spec fn globbed(s: Seq<char>) -> bool {
    !s.contains(' ') && exists|i: int| 0 <= i < s.len() && glob_sign(#[trigger] s[i])
}

fn glob_sign_in(s: &[char]) -> (r: bool)
    ensures
        r == (exists|i: int| 0 <= i < s@.len() && glob_sign(#[trigger] s@[i])),
{
    let mut i: usize = 0;
    while i < s.len()
        invariant
            i <= s@.len(),
            forall|k: int| 0 <= k < i ==> !glob_sign(#[trigger] s@[k]),
        decreases s@.len() - i,
    {
        let c = s[i];
        if c == '*' || c == '?' || c == '{' || c == '[' {
            assert(glob_sign(s@[i as int]));
            return true;
        }
        i = i + 1;
    }
    false
}

/// Whether the query is written as a path.
pub open spec fn path_like(s: Seq<char>) -> bool {
    "./"@.is_prefix_of(s) || "../"@.is_prefix_of(s) || (s.contains('/') && !s.contains(' '))
}

/// The parts that are not empty.
pub open spec fn nonempty(parts: Seq<Seq<char>>) -> Seq<Seq<char>> {
    parts.filter(|p: Seq<char>| p.len() > 0)
}

/// Whether the query gives at least two identifiers as alternatives.
pub open spec fn alternatives(s: Seq<char>) -> bool {
    let parts = nonempty(split(s, '|'));
    &&& !s.contains(' ')
    &&& s.contains('|')
    &&& parts.len() >= 2
    &&& forall|i: int| 0 <= i < parts.len() ==> identifier(#[trigger] parts[i])
}

fn alternatives_in(s: &[char]) -> (r: bool)
    ensures
        r == alternatives(s@),
{
    if has_char(s, ' ') || !has_char(s, '|') {
        return false;
    }
    let pieces = split_on(s, '|');
    let ghost v = views(pieces@);
    let ghost p = |x: Seq<char>| x.len() > 0;
    assert(v == split(s@, '|'));
    assert(v.len() == pieces@.len());
    let mut n: usize = 0;
    let mut all = true;
    let mut i: usize = 0;
    proof {
        assert(v.take(0) =~= Seq::<Seq<char>>::empty());
        reveal(Seq::filter);
    }
    while i < pieces.len()
        invariant
            i <= pieces@.len(),
            v == views(pieces@),
            v.len() == pieces@.len(),
            p == (|x: Seq<char>| x.len() > 0),
            n <= i,
            n == v.take(i as int).filter(p).len(),
            all == (forall|k: int|
                0 <= k < v.take(i as int).filter(p).len() ==> identifier(
                    #[trigger] v.take(i as int).filter(p)[k],
                )),
        decreases pieces@.len() - i,
    {
        let ghost before = v.take(i as int).filter(p);
        proof {
            assert(v[i as int] == pieces@[i as int]@);
            assert(v.take(i + 1).drop_last() =~= v.take(i as int));
            assert(v.take(i + 1).last() == v[i as int]);
            reveal(Seq::filter);
        }
        let ghost now = v.take(i + 1).filter(p);
        if pieces[i].len() > 0 {
            assert(now == before.push(v[i as int]));
            let ok = identifier_chars(pieces[i]);
            n = n + 1;
            proof {
                if all && ok {
                    assert forall|k: int| 0 <= k < now.len() implies identifier(#[trigger] now[k]) by {
                        if k < before.len() {
                            assert(now[k] == before[k]);
                        }
                    }
                } else if !all {
                    let k = choose|k: int| 0 <= k < before.len() && !identifier(#[trigger] before[k]);
                    assert(now[k] == before[k]);
                } else {
                    assert(now[before.len() as int] == v[i as int]);
                }
            }
            all = all && ok;
        } else {
            assert(now == before);
        }
        i = i + 1;
    }
    assert(v.take(v.len() as int) =~= v);
    n >= 2 && all
}

/// Whether the character can stand in a simple word.
pub open spec fn plain_char(c: char) -> bool {
    is_alnum(c) || c == '_' || c == '-'
}

/// Whether the word is simple.
pub open spec fn plain_word(w: Seq<char>) -> bool {
    w.len() > 0 && forall|i: int| 0 <= i < w.len() ==> plain_char(#[trigger] w[i])
}

/// Whether the query is a phrase of at most four simple words.
pub open spec fn phrase(s: Seq<char>) -> bool {
    &&& s.contains(' ')
    &&& words(s).len() <= 4
    &&& forall|i: int| 0 <= i < words(s).len() ==> plain_word(#[trigger] words(s)[i])
}

fn plain_word_chars(w: &[char]) -> (r: bool)
    ensures
        r == plain_word(w@),
{
    if w.len() == 0 {
        return false;
    }
    let mut i: usize = 0;
    while i < w.len()
        invariant
            i <= w@.len(),
            forall|k: int| 0 <= k < i ==> plain_char(#[trigger] w@[k]),
        decreases w@.len() - i,
    {
        let c = w[i];
        if !(alnum_char(c) || c == '_' || c == '-') {
            assert(!plain_char(w@[i as int]));
            return false;
        }
        i = i + 1;
    }
    true
}

fn phrase_in(s: &[char]) -> (r: bool)
    ensures
        r == phrase(s@),
{
    if !has_char(s, ' ') {
        return false;
    }
    let w = words_of(s);
    assert(views(w@).len() == w@.len());
    if w.len() > 4 {
        return false;
    }
    let mut i: usize = 0;
    while i < w.len()
        invariant
            i <= w@.len(),
            views(w@) == words(s@),
            forall|k: int| 0 <= k < i ==> plain_word(#[trigger] words(s@)[k]),
        decreases w@.len() - i,
    {
        assert(words(s@)[i as int] == w@[i as int]@);
        if !plain_word_chars(w[i]) {
            return false;
        }
        i = i + 1;
    }
    assert(words(s@).len() == w@.len());
    true
}

// ---------------------------------------------------------------------------
// Classification
// ---------------------------------------------------------------------------

/// Whether the text has nothing but digits.
pub open spec fn numeric(s: Seq<char>) -> bool {
    forall|i: int| 0 <= i < s.len() ==> is_digit(#[trigger] s[i])
}

fn numeric_chars(s: &[char]) -> (r: bool)
    ensures
        r == numeric(s@),
{
    let mut i: usize = 0;
    while i < s.len()
        invariant
            i <= s@.len(),
            forall|k: int| 0 <= k < i ==> is_digit(#[trigger] s@[k]),
        decreases s@.len() - i,
    {
        if !digit_char(s[i]) {
            return false;
        }
        i = i + 1;
    }
    true
}

/// What a query asks for that is no path.
pub open spec fn word_query(q: Seq<char>) -> QueryView {
    if identifier(q) {
        if exact_symbol(q) {
            QueryView::Symbol(q)
        } else {
            QueryView::Concept(q)
        }
    } else if alternatives(q) {
        QueryView::Regex(q)
    } else if phrase(q) {
        QueryView::Concept(q)
    } else {
        QueryView::Content(q)
    }
}

/// What a query asks for, where `file_exists` tells whether there is a file of that name in
/// the scope.
pub open spec fn classified(q: Seq<char>, scope: Seq<char>, file_exists: bool) -> QueryView {
    if slashed(q) {
        QueryView::Regex(q.subrange(1, q.len() - 1))
    } else if globbed(q) {
        QueryView::Glob(q)
    } else if path_like(q) {
        if file_exists {
            QueryView::FilePath(joined(scope, q))
        } else {
            QueryView::Fallthrough(q)
        }
    } else if q.len() > 0 && q[0] == '.' && file_exists {
        QueryView::FilePath(joined(scope, q))
    } else if numeric(q) {
        QueryView::Content(q)
    } else if filename(q) && file_exists {
        QueryView::FilePath(joined(scope, q))
    } else if filename(q) && !dotted_symbol(q) {
        QueryView::Glob("**/"@ + q)
    } else {
        word_query(q)
    }
}

fn word_query_of(query: &str, q: &[char]) -> (r: QueryType)
    requires
        query@ == q@,
    ensures
        r@ == word_query(query@),
{
    if identifier_chars(q) {
        if exact_symbol_chars(q) {
            QueryType::Symbol(query.to_owned())
        } else {
            QueryType::Concept(query.to_owned())
        }
    } else if alternatives_in(q) {
        QueryType::Regex(query.to_owned())
    } else if phrase_in(q) {
        QueryType::Concept(query.to_owned())
    } else {
        QueryType::Content(query.to_owned())
    }
}

/// What a query asks for. The caller says whether there is a file of that name in the
/// scope.
pub fn classify(query: &str, scope: &str, file_exists: bool) -> (r: QueryType)
    ensures
        r@ == classified(query@, scope@, file_exists),
{
    let chars = chars_of(query);
    let q = chars.as_slice();
    let n: usize = q.len();
    if n >= 3 && q[0] == '/' && q[n - 1] == '/' {
        let inner = slice_subrange(q, 1, n - 1);
        if regex_sign_in(inner) {
            return QueryType::Regex(string_of(inner));
        }
    }
    if !has_char(q, ' ') && glob_sign_in(q) {
        return QueryType::Glob(query.to_owned());
    }
    if has_prefix(q, "./") || has_prefix(q, "../") || (has_char(q, '/') && !has_char(q, ' ')) {
        if file_exists {
            return QueryType::FilePath(join_path(scope, query));
        }
        return QueryType::Fallthrough(query.to_owned());
    }
    if n > 0 && q[0] == '.' && file_exists {
        return QueryType::FilePath(join_path(scope, query));
    }
    if numeric_chars(q) {
        return QueryType::Content(query.to_owned());
    }
    if filename_chars(q) {
        if file_exists {
            return QueryType::FilePath(join_path(scope, query));
        }
        if !dotted_symbol_chars(q) {
            let mut pattern = "**/".to_owned();
            pattern.append(query);
            return QueryType::Glob(pattern);
        }
    }
    word_query_of(query, q)
}

/// The text that a query is searched by is the query itself, but for the pattern
/// between slashes and the name of a file that is looked for in every directory.
pub proof fn law_query_kept(q: Seq<char>, scope: Seq<char>, file_exists: bool)
    ensures
        match classified(q, scope, file_exists) {
            QueryView::FilePath(p) => p == joined(scope, q),
            QueryView::Glob(p) => p == q || p == "**/"@ + q,
            QueryView::Symbol(t) => t == q,
            QueryView::Concept(t) => t == q,
            QueryView::Content(t) => t == q,
            QueryView::Regex(p) => p == q || seq!['/'] + p + seq!['/'] == q,
            QueryView::Fallthrough(t) => t == q,
        },
{
    if slashed(q) {
        assert(seq!['/'] + q.subrange(1, q.len() - 1) + seq!['/'] =~= q);
    }
}

/// A query is read as a file only where there is one.
pub proof fn law_file_only_where_it_is(q: Seq<char>, scope: Seq<char>, file_exists: bool)
    ensures
        classified(q, scope, file_exists) is FilePath ==> file_exists,
        file_exists && path_like(q) && !slashed(q) && !globbed(q) ==> classified(q, scope, file_exists)
            == QueryView::FilePath(joined(scope, q)),
{
}

/// What is looked up as a symbol is an identifier, and looks like the exact name of
/// one; no other identifier is.
pub proof fn law_symbols_are_identifiers(q: Seq<char>, scope: Seq<char>, file_exists: bool)
    ensures
        classified(q, scope, file_exists) is Symbol ==> identifier(q) && exact_symbol(q),
        identifier(q) && classified(q, scope, file_exists) is Concept ==> !exact_symbol(q),
{
}

/// A dotted name whose last part is an extension of files, and short as extensions are,
/// is looked for as a file; one whose last part is not is looked up as a symbol.
pub proof fn law_extensions_name_files(q: Seq<char>, scope: Seq<char>, d: int)
    requires
        last_char_at(q, '.') == Some(d),
        0 < d < q.len() - 1,
        identifier(q.take(d)),
        identifier(q.skip(d + 1)),
        identifier(q),
    ensures
        q.skip(d + 1).len() <= 4 && known_extension(q.skip(d + 1)) ==> classified(q, scope, false)
            == QueryView::Glob("**/"@ + q),
        q.skip(d + 1).len() > 4 || !known_extension(q.skip(d + 1)) ==> classified(q, scope, false)
            == QueryView::Symbol(q),
{
    crate::text::lemma_last_char_at(q, '.');
    assert(q[d] == '.');
    assert(q.contains('.'));
    assert(!is_digit(q[0]));
    assert forall|i: int| 0 <= i < q.len() implies #[trigger] q[i] != ' ' && q[i] != '/' && !glob_sign(
        q[i],
    ) by {
        if i > 0 {
            assert(continues_identifier(q[i]));
        }
    }
    reveal_strlit("./");
    reveal_strlit("../");
    assert(!path_like(q)) by {
        if "./"@.is_prefix_of(q) {
            assert(q[0] == "./"@[0]);
        }
        if "../"@.is_prefix_of(q) {
            assert(q[0] == "../"@[0]);
        }
    }
}

/// A query with a slash and without blanks is a path, unless it has a sign of a pattern:
/// it is read where there is a file, and else anything like it is looked for.
pub proof fn law_slashes_make_a_path(q: Seq<char>, scope: Seq<char>)
    requires
        q.contains('/'),
        !q.contains(' '),
        !q.contains('*'),
        !q.contains('?'),
        !q.contains('{'),
        !q.contains('['),
        q[0] != '/' || q.last() != '/',
    ensures
        classified(q, scope, true) == QueryView::FilePath(joined(scope, q)),
        classified(q, scope, false) == QueryView::Fallthrough(q),
{
    assert forall|i: int| 0 <= i < q.len() implies !glob_sign(#[trigger] q[i]) by {
        assert(q.contains(q[i]));
    }
}

/// A query with a star or a question mark and without blanks is a pattern for files,
/// unless it stands between slashes.
pub proof fn law_stars_make_a_glob(q: Seq<char>, scope: Seq<char>, file_exists: bool)
    requires
        q.contains('*') || q.contains('?') || q.contains('{') || q.contains('['),
        !q.contains(' '),
        q[0] != '/' || q.last() != '/',
    ensures
        classified(q, scope, file_exists) == QueryView::Glob(q),
{
    let i = choose|i: int|
        0 <= i < q.len() && (q[i] == '*' || q[i] == '?' || q[i] == '{' || q[i] == '[');
    assert(glob_sign(q[i]));
}

/// A pattern between slashes is one where it has a sign of a pattern.
pub proof fn law_slashed_patterns_are_patterns(
    p: Seq<char>,
    scope: Seq<char>,
    file_exists: bool,
    i: int,
)
    requires
        0 <= i < p.len(),
        p[i] == '(' || p[i] == ')' || p[i] == '[' || p[i] == ']' || p[i] == '{' || p[i] == '}'
            || p[i] == '*' || p[i] == '+' || p[i] == '?' || p[i] == '|' || p[i] == '\\' || p[i]
            == '^' || p[i] == '$',
    ensures
        classified(seq!['/'] + p + seq!['/'], scope, file_exists) == QueryView::Regex(p),
{
    let q = seq!['/'] + p + seq!['/'];
    assert(q.subrange(1, q.len() - 1) =~= p);
    assert(regex_sign(p[i]));
}

proof fn lemma_no_signs(q: Seq<char>)
    requires
        forall|i: int|
            0 <= i < q.len() ==> is_alnum(#[trigger] q[i]) || q[i] == '_' || q[i] == '|' || q[i]
                == '$' || q[i] == '-' || q[i] == '@',
    ensures
        !slashed(q),
        !globbed(q),
        !path_like(q),
        q.len() > 0 ==> q[0] != '.',
        !q.contains(' '),
        !q.contains('.'),
        !inner_dot(q),
{
    reveal_strlit("./");
    reveal_strlit("../");
    if "./"@.is_prefix_of(q) {
        assert(q[0] == "./"@[0]);
    }
    if "../"@.is_prefix_of(q) {
        assert(q[0] == "../"@[0]);
    }
    crate::text::lemma_last_char_at(q, '.');
}

/// A word of small letters alone is a concept, and numbers are looked for as text.
pub proof fn law_plain_words_are_concepts(q: Seq<char>, scope: Seq<char>, file_exists: bool)
    requires
        q.len() > 0,
        !known_file(q),
    ensures
        (forall|i: int| 0 <= i < q.len() ==> 'a' <= #[trigger] q[i] <= 'z') ==> classified(
            q,
            scope,
            file_exists,
        ) == QueryView::Concept(q),
        (forall|i: int| 0 <= i < q.len() ==> '0' <= #[trigger] q[i] <= '9') ==> classified(
            q,
            scope,
            file_exists,
        ) == QueryView::Content(q),
{
    if forall|i: int| 0 <= i < q.len() ==> 'a' <= #[trigger] q[i] <= 'z' {
        lemma_no_signs(q);
        assert(!is_digit(q[0]));
        reveal_strlit("::");
        if has(q, "::"@) {
            let k = choose|k: int| crate::text::occurs_at(q, "::"@, k);
            assert(q.subrange(k, k + 2)[0] == ':');
            assert(q[k] == ':');
        }
        assert(identifier(q));
        assert(!exact_symbol(q));
    }
    if forall|i: int| 0 <= i < q.len() ==> '0' <= #[trigger] q[i] <= '9' {
        lemma_no_signs(q);
    }
}

/// A name with a capital or an underscore in it is looked up as a symbol.
pub proof fn law_names_are_symbols(q: Seq<char>, scope: Seq<char>, file_exists: bool, k: int)
    requires
        !known_file(q),
        forall|i: int|
            0 <= i < q.len() ==> ('a' <= #[trigger] q[i] <= 'z' || 'A' <= q[i] <= 'Z' || q[i] == '_'
                || (i > 0 && '0' <= q[i] <= '9')),
        0 <= k < q.len(),
        'A' <= q[k] <= 'Z' || q[k] == '_',
    ensures
        classified(q, scope, file_exists) == QueryView::Symbol(q),
{
    lemma_no_signs(q);
    assert(!is_digit(q[0]));
    assert(identifier(q));
    assert(q.contains(q[k]));
    if q[k] != '_' && k > 0 {
        assert(is_upper(q[k]));
        if q[0] == '_' {
            assert(q.contains(q[0]));
        }
    }
    assert(exact_symbol(q));
}

} // verus!
