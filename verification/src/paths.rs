//! Paths as texts whose components are separated by slashes.
use vstd::prelude::*;
use vstd::slice::slice_subrange;
use vstd::string::*;

use crate::text::{
    chars_of, is_text, join, join_strings, last_char_at, lemma_strs_push, rfind_char, same_text, split,
    split_on, string_of, strs, text_le, text_ordered, views,
};

verus! {

/// The text names an entry: neither empty nor the directory itself.
pub open spec fn is_name(s: Seq<char>) -> bool {
    s.len() > 0 && s != "."@
}

/// Those of the pieces that name an entry.
pub open spec fn names(pieces: Seq<Seq<char>>) -> Seq<Seq<char>>
    decreases pieces.len(),
{
    if pieces.len() == 0 {
        pieces
    } else {
        let r = names(pieces.drop_last());
        if is_name(pieces.last()) {
            r.push(pieces.last())
        } else {
            r
        }
    }
}

/// What the path starts from: the root, the directory that it names itself, or
/// neither.
pub open spec fn origin(s: Seq<char>) -> Seq<Seq<char>> {
    let pieces = split(s, '/');
    if s.len() > 0 && s[0] == '/' {
        seq!["/"@]
    } else if pieces[0] == "."@ {
        seq!["."@]
    } else {
        Seq::empty()
    }
}

/// The components of a path: where it starts from, then the names.
pub open spec fn components(s: Seq<char>) -> Seq<Seq<char>> {
    origin(s) + names(split(s, '/'))
}

/// The path with these components.
pub open spec fn path_text(c: Seq<Seq<char>>) -> Seq<char> {
    if c.len() > 0 && c[0] == "/"@ {
        "/"@ + join(c.drop_first(), "/"@)
    } else {
        join(c, "/"@)
    }
}

/// The component is an ordinary name.
pub open spec fn is_normal(c: Seq<char>) -> bool {
    c != "/"@ && c != "."@ && c != ".."@
}

/// The last name of the path.
pub open spec fn file_name(s: Seq<char>) -> Option<Seq<char>> {
    let c = components(s);
    if c.len() > 0 && is_normal(c.last()) {
        Some(c.last())
    } else {
        None
    }
}

/// What follows the last dot of the name, where the dot does not begin it.
pub open spec fn name_extension(n: Seq<char>) -> Option<Seq<char>> {
    match last_char_at(n, '.') {
        Some(i) => if i == 0 {
            None
        } else {
            Some(n.skip(i + 1))
        },
        None => None,
    }
}

/// What stands before the last dot of the name, where the dot does not begin it.
pub open spec fn name_stem(n: Seq<char>) -> Seq<char> {
    match last_char_at(n, '.') {
        Some(i) => if i == 0 {
            n
        } else {
            n.take(i)
        },
        None => n,
    }
}

/// The extension of the last name.
pub open spec fn extension(s: Seq<char>) -> Option<Seq<char>> {
    match file_name(s) {
        Some(n) => name_extension(n),
        None => None,
    }
}

/// The last name without its extension.
pub open spec fn file_stem(s: Seq<char>) -> Option<Seq<char>> {
    match file_name(s) {
        Some(n) => Some(name_stem(n)),
        None => None,
    }
}

/// The path without its last component; the root has none, nor has the empty
/// path.
pub open spec fn parent(s: Seq<char>) -> Option<Seq<char>> {
    let c = components(s);
    if c.len() == 0 || c.last() == "/"@ {
        None
    } else {
        Some(path_text(c.drop_last()))
    }
}

/// The path and the directories above it, the closest first.
pub open spec fn ancestors(s: Seq<char>) -> Seq<Seq<char>> {
    let c = components(s);
    let least: int = if c.len() > 0 && c[0] == "/"@ {
        1
    } else {
        0
    };
    Seq::new(
        (c.len() - least + 1) as nat,
        |i: int|
            if i == 0 {
                s
            } else {
                path_text(c.take(c.len() - i))
            },
    )
}

/// The path `p` taken from the directory `base`.
pub open spec fn joined(base: Seq<char>, p: Seq<char>) -> Seq<char> {
    if p.len() > 0 && p[0] == '/' {
        p
    } else if base.len() == 0 || base.last() == '/' {
        base + p
    } else {
        base + "/"@ + p
    }
}

/// The path lies in the directory `base`, or is it.
pub open spec fn is_under(s: Seq<char>, base: Seq<char>) -> bool {
    components(base).is_prefix_of(components(s))
}

/// The path as seen from the directory `base`.
pub open spec fn below(s: Seq<char>, base: Seq<char>) -> Option<Seq<char>> {
    if is_under(s, base) {
        Some(path_text(components(s).skip(components(base).len() as int)))
    } else {
        None
    }
}

/// The paths have the same components.
pub open spec fn same_path(a: Seq<char>, b: Seq<char>) -> bool {
    components(a) == components(b)
}

// ---------------------------------------------------------------------------
// Order
// ---------------------------------------------------------------------------

/// The place of a component among those that are no ordinary names.
pub open spec fn rank(c: Seq<char>) -> int {
    if c == "/"@ {
        0
    } else if c == "."@ {
        1
    } else if c == ".."@ {
        2
    } else {
        3
    }
}

/// The component may precede the other.
pub open spec fn component_le(a: Seq<char>, b: Seq<char>) -> bool {
    if rank(a) != rank(b) {
        rank(a) < rank(b)
    } else {
        text_le(a, b)
    }
}

/// The components may precede the others, from position `i` on.
pub open spec fn components_le(a: Seq<Seq<char>>, b: Seq<Seq<char>>, i: int) -> bool
    decreases a.len() - i,
{
    if i < 0 || i >= a.len() {
        true
    } else if i >= b.len() {
        false
    } else if a[i] == b[i] {
        components_le(a, b, i + 1)
    } else {
        component_le(a[i], b[i])
    }
}

/// The path may precede the other: their first differing components decide.
pub open spec fn path_le(a: Seq<char>, b: Seq<char>) -> bool {
    components_le(components(a), components(b), 0)
}

// ---------------------------------------------------------------------------
// Computing
// ---------------------------------------------------------------------------

/// The components of a path.
pub fn components_of(path: &str) -> (r: Vec<String>)
    ensures
        strs(r@) == components(path@),
{
    broadcast use lemma_strs_push;

    let s = chars_of(path);
    let pieces = split_on(s.as_slice(), '/');
    let ghost p = views(pieces@);
    let mut r: Vec<String> = Vec::new();
    proof {
        crate::text::lemma_char_at(s@, '/');
        assert(p.len() > 0);
        assert(p[0] == pieces@[0]@);
    }
    if s.len() > 0 && s[0] == '/' {
        r.push("/".to_owned());
    } else if is_text(pieces[0], ".") {
        r.push(".".to_owned());
    }
    let ghost o = origin(path@);
    assert(strs(r@) =~= o);
    let mut i: usize = 0;
    assert(p.take(0) =~= Seq::<Seq<char>>::empty());
    assert(o + names(p.take(0)) =~= o);
    while i < pieces.len()
        invariant
            i <= pieces@.len(),
            p == views(pieces@),
            strs(r@) == o + names(p.take(i as int)),
        decreases pieces@.len() - i,
    {
        let x = pieces[i];
        proof {
            assert(p.take(i + 1).drop_last() =~= p.take(i as int));
            assert(p.take(i + 1).last() == x@);
            assert(o + names(p.take(i as int)).push(x@) =~= (o + names(p.take(i as int))).push(x@));
        }
        if x.len() > 0 && !is_text(x, ".") {
            r.push(string_of(x));
        }
        i = i + 1;
    }
    assert(p.take(pieces@.len() as int) =~= p);
    r
}

/// The path with these components.
pub fn path_from(c: &[String]) -> (r: String)
    ensures
        r@ == path_text(strs(c@)),
{
    if c.len() > 0 && same_text(c[0].as_str(), "/") {
        let mut r = "/".to_owned();
        let rest = slice_subrange(c, 1, c.len());
        assert(strs(rest@) =~= strs(c@).drop_first());
        assert(strs(c@)[0] == c@[0]@);
        r.append(join_strings(rest, "/").as_str());
        r
    } else {
        if c.len() > 0 {
            assert(strs(c@)[0] == c@[0]@);
        }
        join_strings(c, "/")
    }
}

/// The last name of the path.
pub fn file_name_of(path: &str) -> (r: Option<String>)
    ensures
        crate::text::opt_text(r) == file_name(path@),
{
    let mut c = components_of(path);
    let ghost all = c@;
    match c.pop() {
        Some(last) => {
            assert(strs(all).last() == last@);
            if same_text(last.as_str(), "/") || same_text(last.as_str(), ".") || same_text(
                last.as_str(),
                "..",
            ) {
                None
            } else {
                Some(last)
            }
        },
        None => None,
    }
}

/// The extension of the last name.
pub fn extension_of(path: &str) -> (r: Option<String>)
    ensures
        crate::text::opt_text(r) == extension(path@),
{
    match file_name_of(path) {
        Some(n) => {
            let s = chars_of(n.as_str());
            match rfind_char(s.as_slice(), '.') {
                Some(i) => if i == 0 {
                    None
                } else {
                    let len: usize = s.len();
                    assert(s@.subrange(i + 1, s@.len() as int) =~= s@.skip(i + 1));
                    Some(string_of(slice_subrange(s.as_slice(), i + 1, len)))
                },
                None => None,
            }
        },
        None => None,
    }
}

/// The last name without its extension.
pub fn file_stem_of(path: &str) -> (r: Option<String>)
    ensures
        crate::text::opt_text(r) == file_stem(path@),
{
    match file_name_of(path) {
        Some(n) => {
            let s = chars_of(n.as_str());
            match rfind_char(s.as_slice(), '.') {
                Some(i) => if i == 0 {
                    Some(n)
                } else {
                    assert(s@.subrange(0, i as int) =~= s@.take(i as int));
                    Some(string_of(slice_subrange(s.as_slice(), 0, i)))
                },
                None => Some(n),
            }
        },
        None => None,
    }
}

/// The path without its last component.
pub fn parent_of(path: &str) -> (r: Option<String>)
    ensures
        crate::text::opt_text(r) == parent(path@),
{
    let c = components_of(path);
    let n: usize = c.len();
    if n == 0 {
        return None;
    }
    assert(strs(c@).last() == c@[n - 1]@);
    if same_text(c[n - 1].as_str(), "/") {
        return None;
    }
    let rest = slice_subrange(c.as_slice(), 0, n - 1);
    assert(strs(rest@) =~= strs(c@).drop_last());
    Some(path_from(rest))
}

/// The path and the directories above it, the closest first.
pub fn ancestors_of(path: &str) -> (r: Vec<String>)
    ensures
        strs(r@) == ancestors(path@),
{
    let c = components_of(path);
    let ghost cv = strs(c@);
    let ghost all = ancestors(path@);
    let n: usize = c.len();
    let least: usize = if n > 0 && same_text(c[0].as_str(), "/") {
        1
    } else {
        0
    };
    proof {
        if n > 0 {
            assert(cv[0] == c@[0]@);
        }
    }
    let mut r: Vec<String> = Vec::new();
    r.push(path.to_owned());
    let mut k: usize = n;
    while k > least
        invariant
            least <= k <= n,
            n == c@.len(),
            cv == strs(c@),
            cv == components(path@),
            least == (if cv.len() > 0 && cv[0] == "/"@ {
                1int
            } else {
                0
            }),
            all == ancestors(path@),
            r@.len() == n - k + 1,
            forall|j: int| 0 <= j < r@.len() ==> (#[trigger] r@[j])@ == all[j],
        decreases k,
    {
        k = k - 1;
        let head = slice_subrange(c.as_slice(), 0, k);
        assert(strs(head@) =~= cv.take(k as int));
        r.push(path_from(head));
    }
    assert(strs(r@) =~= all);
    r
}

/// The path `p` taken from the directory `base`.
pub fn join_path(base: &str, p: &str) -> (r: String)
    ensures
        r@ == joined(base@, p@),
{
    let b = chars_of(base);
    let q = chars_of(p);
    if q.len() > 0 && q[0] == '/' {
        return p.to_owned();
    }
    let mut r = base.to_owned();
    if b.len() > 0 && b[b.len() - 1] != '/' {
        r.append("/");
    }
    r.append(p);
    r
}

fn prefix_of(b: &[String], c: &[String]) -> (r: bool)
    ensures
        r == strs(b@).is_prefix_of(strs(c@)),
{
    if b.len() > c.len() {
        return false;
    }
    let mut i: usize = 0;
    while i < b.len()
        invariant
            i <= b@.len() <= c@.len(),
            forall|j: int| 0 <= j < i ==> strs(b@)[j] == strs(c@)[j],
        decreases b@.len() - i,
    {
        assert(strs(b@)[i as int] == b@[i as int]@);
        assert(strs(c@)[i as int] == c@[i as int]@);
        if !same_text(b[i].as_str(), c[i].as_str()) {
            assert(strs(c@).subrange(0, strs(b@).len() as int)[i as int] == strs(c@)[i as int]);
            return false;
        }
        i = i + 1;
    }
    assert(strs(b@) =~= strs(c@).subrange(0, b@.len() as int));
    true
}

/// Whether the path lies in the directory `base`, or is it.
pub fn starts_with(path: &str, base: &str) -> (r: bool)
    ensures
        r == is_under(path@, base@),
{
    let c = components_of(path);
    let b = components_of(base);
    prefix_of(b.as_slice(), c.as_slice())
}

/// The path as seen from the directory `base`.
pub fn strip_prefix(path: &str, base: &str) -> (r: Option<String>)
    ensures
        crate::text::opt_text(r) == below(path@, base@),
{
    let c = components_of(path);
    let b = components_of(base);
    if prefix_of(b.as_slice(), c.as_slice()) {
        let rest = slice_subrange(c.as_slice(), b.len(), c.len());
        assert(strs(rest@) =~= strs(c@).skip(b@.len() as int));
        Some(path_from(rest))
    } else {
        None
    }
}

/// Whether the paths have the same components.
pub fn equal_paths(a: &str, b: &str) -> (r: bool)
    ensures
        r == same_path(a@, b@),
{
    let x = components_of(a);
    let y = components_of(b);
    let r = x.len() == y.len() && prefix_of(x.as_slice(), y.as_slice());
    assert(r ==> strs(x@) =~= strs(y@));
    assert(strs(x@) == strs(y@) ==> strs(x@).is_prefix_of(strs(y@)));
    r
}

fn rank_of(c: &str) -> (r: u8)
    ensures
        r == rank(c@),
{
    if same_text(c, "/") {
        0
    } else if same_text(c, ".") {
        1
    } else if same_text(c, "..") {
        2
    } else {
        3
    }
}

/// Whether the path may precede the other.
pub fn paths_ordered(a: &str, b: &str) -> (r: bool)
    ensures
        r == path_le(a@, b@),
{
    let x = components_of(a);
    let y = components_of(b);
    let ghost cx = strs(x@);
    let ghost cy = strs(y@);
    let mut i: usize = 0;
    while i < x.len()
        invariant
            i <= x@.len(),
            cx == strs(x@),
            cy == strs(y@),
            components_le(cx, cy, 0) == components_le(cx, cy, i as int),
            cx == components(a@),
            cy == components(b@),
        decreases x@.len() - i,
    {
        if i >= y.len() {
            return false;
        }
        assert(cx[i as int] == x@[i as int]@);
        assert(cy[i as int] == y@[i as int]@);
        if !same_text(x[i].as_str(), y[i].as_str()) {
            let p: u8 = rank_of(x[i].as_str());
            let q: u8 = rank_of(y[i].as_str());
            return if p != q {
                p < q
            } else {
                text_ordered(x[i].as_str(), y[i].as_str())
            };
        }
        i = i + 1;
    }
    true
}

proof fn lemma_component_order(a: Seq<char>, b: Seq<char>)
    ensures
        component_le(a, b) || component_le(b, a),
        component_le(a, b) && component_le(b, a) ==> a == b,
        component_le(a, a),
{
    crate::text::lemma_text_order(a, b);
    crate::text::lemma_text_order(a, a);
}

/// Of two paths one may precede the other.
pub proof fn lemma_path_total(a: Seq<Seq<char>>, b: Seq<Seq<char>>, i: int)
    requires
        0 <= i,
    ensures
        components_le(a, b, i) || components_le(b, a, i),
    decreases a.len() - i,
{
    if i < a.len() && i < b.len() {
        if a[i] == b[i] {
            lemma_path_total(a, b, i + 1);
        } else {
            lemma_component_order(a[i], b[i]);
        }
    }
}

/// The order of paths is transitive.
pub proof fn lemma_path_trans(a: Seq<Seq<char>>, b: Seq<Seq<char>>, c: Seq<Seq<char>>, i: int)
    requires
        0 <= i,
        components_le(a, b, i),
        components_le(b, c, i),
    ensures
        components_le(a, c, i),
    decreases a.len() - i,
{
    if i < a.len() {
        if a[i] == b[i] && b[i] == c[i] {
            lemma_path_trans(a, b, c, i + 1);
        } else if a[i] != b[i] && b[i] != c[i] {
            if rank(a[i]) == rank(b[i]) && rank(b[i]) == rank(c[i]) {
                crate::text::lemma_text_trans(a[i], b[i], c[i]);
            }
            lemma_component_order(a[i], b[i]);
            lemma_component_order(b[i], c[i]);
        }
    }
}

/// What a file is known by: the path with its components one by one.
pub open spec fn file_key(path: Seq<char>) -> Seq<char> {
    path_text(components(path))
}

/// The path written as its components give it: equal paths have equal texts.
pub fn key_of(path: &str) -> (r: String)
    ensures
        r@ == file_key(path@),
{
    let c = components_of(path);
    path_from(c.as_slice())
}

proof fn lemma_names_filter(pieces: Seq<Seq<char>>)
    ensures
        names(pieces) == pieces.filter(|x: Seq<char>| x.len() > 0 && x != "."@),
    decreases pieces.len(),
{
    reveal(Seq::filter);
    if pieces.len() > 0 {
        lemma_names_filter(pieces.drop_last());
    }
}

proof fn lemma_names_together(a: Seq<Seq<char>>, b: Seq<Seq<char>>)
    ensures
        names(a + b) == names(a) + names(b),
    decreases b.len(),
{
    if b.len() == 0 {
        assert(a + b =~= a);
        assert(names(a) + names(b) =~= names(a));
    } else {
        assert((a + b).drop_last() =~= a + b.drop_last());
        assert((a + b).last() == b.last());
        lemma_names_together(a, b.drop_last());
        let l = b.last();
        if is_name(l) {
            assert(names(a) + names(b.drop_last()).push(l) =~= (names(a) + names(
                b.drop_last(),
            )).push(l));
        }
    }
}

proof fn lemma_names_of_names(c: Seq<Seq<char>>)
    requires
        forall|i: int| 0 <= i < c.len() ==> is_name(#[trigger] c[i]),
    ensures
        names(c) == c,
    decreases c.len(),
{
    if c.len() > 0 {
        let t = c.drop_last();
        assert forall|i: int| 0 <= i < t.len() implies is_name(#[trigger] t[i]) by {
            assert(t[i] == c[i]);
        }
        lemma_names_of_names(t);
        assert(is_name(c[c.len() - 1]));
        assert(t.push(c.last()) =~= c);
    }
}

proof fn lemma_names_are_names(pieces: Seq<Seq<char>>)
    requires
        forall|i: int| 0 <= i < pieces.len() ==> !(#[trigger] pieces[i]).contains('/'),
    ensures
        forall|i: int|
            0 <= i < names(pieces).len() ==> is_name(#[trigger] names(pieces)[i]) && !names(
                pieces,
            )[i].contains('/'),
    decreases pieces.len(),
{
    if pieces.len() > 0 {
        let t = pieces.drop_last();
        assert forall|i: int| 0 <= i < t.len() implies !(#[trigger] t[i]).contains('/') by {
            assert(t[i] == pieces[i]);
        }
        lemma_names_are_names(t);
        assert(!pieces[pieces.len() - 1].contains('/'));
        let r = names(t);
        let n = names(pieces);
        assert forall|i: int| 0 <= i < n.len() implies is_name(#[trigger] n[i])
            && !n[i].contains('/') by {
            if i < r.len() {
                assert(n[i] == r[i]);
            }
        }
    }
}

/// The text is one that stands between slashes and names an entry.
pub open spec fn entry_name(x: Seq<char>) -> bool {
    x.len() > 0 && x != "."@ && !x.contains('/')
}

/// The texts are components of a path: names of entries, the first of which may be the
/// root or the directory itself instead.
pub open spec fn are_components(c: Seq<Seq<char>>) -> bool {
    forall|i: int|
        0 <= i < c.len() ==> (entry_name(#[trigger] c[i]) || (i == 0 && (c[0] == "/"@ || c[0]
            == "."@)))
}

/// The components of a path are the parts between the slashes that are neither empty nor
/// a dot, after what the path starts from: a slash, or a dot of its own.
pub proof fn law_components_are_the_names(s: Seq<char>)
    ensures
        ({
            let n = split(s, '/').filter(|x: Seq<char>| x.len() > 0 && x != "."@);
            &&& s.len() > 0 && s[0] == '/' ==> components(s) == seq!["/"@] + n
            &&& s.len() > 0 && s[0] != '/' && split(s, '/')[0] == "."@ ==> components(s)
                == seq!["."@] + n
            &&& s.len() == 0 || (s[0] != '/' && split(s, '/')[0] != "."@) ==> components(s) == n
        }),
        are_components(components(s)),
{
    lemma_names_filter(split(s, '/'));
    crate::text::law_join_undoes_split(s, '/');
    lemma_names_are_names(split(s, '/'));
    let n = names(split(s, '/'));
    assert(Seq::<Seq<char>>::empty() + n =~= n);
    if s.len() == 0 {
        crate::text::lemma_char_at(s, '/');
        assert(split(s, '/')[0] == s);
        reveal_strlit(".");
    }
    let c = components(s);
    let k = origin(s).len() as int;
    assert forall|i: int| 0 <= i < c.len() implies (entry_name(#[trigger] c[i]) || (i == 0 && (
    c[0] == "/"@ || c[0] == "."@))) by {
        if i >= k {
            assert(c[i] == n[i - k]);
        }
    }
}

proof fn lemma_joined_names(c: Seq<Seq<char>>)
    requires
        c.len() > 0,
        forall|i: int| 0 <= i < c.len() ==> !(#[trigger] c[i]).contains('/'),
        c[0].len() > 0,
    ensures
        split(join(c, "/"@), '/') == c,
        join(c, "/"@).len() > 0,
        join(c, "/"@)[0] != '/',
    decreases c.len(),
{
    reveal_strlit("/");
    assert("/"@ =~= seq!['/']);
    crate::text::law_split_undoes_join(c, '/');
    if c.len() == 1 {
        assert(c[0].contains(c[0][0]));
    } else {
        let t = c.drop_last();
        assert forall|i: int| 0 <= i < t.len() implies !(#[trigger] t[i]).contains('/') by {
            assert(t[i] == c[i]);
        }
        lemma_joined_names(t);
        assert(join(c, "/"@)[0] == join(t, "/"@)[0]);
    }
}

/// A path is read back from its components.
pub proof fn law_path_is_read_back(c: Seq<Seq<char>>)
    requires
        are_components(c),
    ensures
        components(path_text(c)) == c,
{
    reveal_strlit("/");
    reveal_strlit(".");
    let s = path_text(c);
    if c.len() == 0 {
        crate::text::lemma_char_at(s, '/');
        assert(split(s, '/') =~= seq![s]);
        assert(seq![s].drop_last() =~= Seq::<Seq<char>>::empty());
        assert(names(seq![s].drop_last()) =~= Seq::<Seq<char>>::empty());
        assert(seq![s].last() == s);
        assert(components(s) =~= c);
    } else if c[0] == "/"@ {
        let r = c.drop_first();
        assert forall|i: int| 0 <= i < r.len() implies entry_name(#[trigger] r[i]) by {
            assert(r[i] == c[i + 1]);
        }
        let t = join(r, "/"@);
        let e = Seq::<char>::empty();
        assert(s =~= e.push('/') + t);
        crate::text::law_split_takes_each_side(e, t, '/');
        crate::text::lemma_char_at(e, '/');
        assert(split(e, '/') =~= seq![e]);
        lemma_names_together(seq![e], split(t, '/'));
        assert(seq![e].drop_last() =~= Seq::<Seq<char>>::empty());
        assert(names(seq![e].drop_last()) =~= Seq::<Seq<char>>::empty());
        assert(names(seq![e]) =~= Seq::<Seq<char>>::empty());
        if r.len() == 0 {
            assert(t =~= e);
            assert(names(split(t, '/')) =~= r);
        } else {
            assert(entry_name(r[0]));
            lemma_joined_names(r);
            lemma_names_of_names(r);
        }
        assert(s[0] == '/');
        assert(components(s) =~= c);
    } else {
        assert(entry_name(c[0]) || c[0] == "."@);
        assert forall|i: int| 0 <= i < c.len() implies !(#[trigger] c[i]).contains('/') by {
            assert(entry_name(c[i]) || (i == 0 && (c[0] == "/"@ || c[0] == "."@)));
        }
        lemma_joined_names(c);
        if c[0] == "."@ {
            let r = c.drop_first();
            assert forall|i: int| 0 <= i < r.len() implies is_name(#[trigger] r[i]) by {
                assert(r[i] == c[i + 1]);
            }
            lemma_names_of_names(r);
            lemma_names_together(seq!["."@], r);
            assert(seq!["."@] + r =~= c);
            assert(seq!["."@].drop_last() =~= Seq::<Seq<char>>::empty());
            assert(names(seq!["."@].drop_last()) =~= Seq::<Seq<char>>::empty());
            assert(names(seq!["."@]) =~= Seq::<Seq<char>>::empty());
            assert(names(c) =~= r);
            assert(components(s) =~= c);
        } else {
            assert forall|i: int| 0 <= i < c.len() implies is_name(#[trigger] c[i]) by {
                assert(entry_name(c[i]) || (i == 0 && (c[0] == "/"@ || c[0] == "."@)));
            }
            lemma_names_of_names(c);
            assert(components(s) =~= c);
        }
    }
}

/// What a file is known by is the same for equal paths, and for no others.
pub proof fn law_keys_tell_paths_apart(a: Seq<char>, b: Seq<char>)
    ensures
        file_key(a) == file_key(b) <==> components(a) == components(b),
        components(file_key(a)) == components(a),
{
    law_components_are_the_names(a);
    law_components_are_the_names(b);
    law_path_is_read_back(components(a));
    law_path_is_read_back(components(b));
}

/// The directory of a path has the components of the path but the last, and every path
/// has one but the root and the empty path.
pub proof fn law_parent_is_one_up(s: Seq<char>)
    ensures
        parent(s) is None <==> components(s).len() == 0 || components(s) == seq!["/"@],
        parent(s) matches Some(p) ==> components(p) == components(s).drop_last(),
{
    reveal_strlit("/");
    law_components_are_the_names(s);
    let c = components(s);
    if c.len() > 0 {
        let d = c.drop_last();
        if c.last() == "/"@ {
            assert(c.last()[0] == '/');
            assert(c.last().contains('/'));
            assert(c[c.len() - 1] == c.last());
            assert(c.len() == 1);
            assert(c =~= seq!["/"@]);
        } else {
            assert forall|i: int| 0 <= i < d.len() implies (entry_name(#[trigger] d[i]) || (i == 0
                && (d[0] == "/"@ || d[0] == "."@))) by {
                assert(d[i] == c[i]);
                assert(d[0] == c[0]);
            }
            law_path_is_read_back(d);
        }
    }
}

/// The path itself comes first, then each directory above it with one component less, up
/// to the root or the empty path.
pub proof fn law_ancestors_go_up(s: Seq<char>, i: int)
    requires
        0 <= i < ancestors(s).len(),
    ensures
        ancestors(s)[0] == s,
        components(ancestors(s)[i]) == components(s).take(components(s).len() - i),
        ({
            let top = ancestors(s).last();
            components(top).len() == 0 || components(top) == seq!["/"@]
        }),
{
    let c = components(s);
    law_components_are_the_names(s);
    assert(c.take(c.len() as int) =~= c);
    let k = ancestors(s).len() - 1;
    assert forall|j: int| 0 <= j <= k implies components(#[trigger] ancestors(s)[j]) == c.take(
        c.len() - j,
    ) by {
        if j > 0 {
            let d = c.take(c.len() - j);
            assert forall|x: int| 0 <= x < d.len() implies (entry_name(#[trigger] d[x]) || (x == 0
                && (d[0] == "/"@ || d[0] == "."@))) by {
                assert(d[x] == c[x]);
                assert(d[0] == c[0]);
            }
            law_path_is_read_back(d);
        }
    }
    assert(components(ancestors(s)[k]) == c.take(c.len() - k));
    if c.len() > 0 && c[0] == "/"@ {
        assert(c.take(1) =~= seq!["/"@]);
    }
}

/// A path taken from a directory has the components of the directory and then its own.
pub proof fn law_joined_is_below(base: Seq<char>, p: Seq<char>)
    requires
        base.len() > 0,
        p.len() == 0 || p[0] != '/',
    ensures
        components(joined(base, p)) == components(base) + split(p, '/').filter(
            |x: Seq<char>| x.len() > 0 && x != "."@,
        ),
        is_under(joined(base, p), base),
{
    reveal_strlit("/");
    let j = joined(base, p);
    lemma_names_filter(split(p, '/'));
    let n = names(split(p, '/'));
    if base.last() == '/' {
        let a = base.drop_last();
        let e = Seq::<char>::empty();
        assert(base =~= a.push('/') + e);
        assert(j =~= a.push('/') + p);
        crate::text::law_split_takes_each_side(a, e, '/');
        crate::text::law_split_takes_each_side(a, p, '/');
        crate::text::law_join_undoes_split(a, '/');
        crate::text::lemma_char_at(e, '/');
        assert(split(e, '/') =~= seq![e]);
        assert(seq![e].drop_last() =~= Seq::<Seq<char>>::empty());
        assert(names(seq![e].drop_last()) =~= Seq::<Seq<char>>::empty());
        assert(names(seq![e]) =~= Seq::<Seq<char>>::empty());
        lemma_names_together(split(a, '/'), split(e, '/'));
        lemma_names_together(split(a, '/'), split(p, '/'));
        assert(names(split(base, '/')) =~= names(split(a, '/')));
        assert(split(base, '/')[0] == split(a, '/')[0]);
        assert(split(j, '/')[0] == split(a, '/')[0]);
    } else {
        assert(j =~= base.push('/') + p);
        crate::text::law_split_takes_each_side(base, p, '/');
        crate::text::law_join_undoes_split(base, '/');
        lemma_names_together(split(base, '/'), split(p, '/'));
        assert(split(j, '/')[0] == split(base, '/')[0]);
    }
    assert(j[0] == base[0]);
    assert(origin(j) == origin(base));
    assert(components(j) =~= components(base) + n);
    assert(components(base) =~= components(j).subrange(0, components(base).len() as int));
}

/// A name taken from a directory is a file of the directory with that name.
pub proof fn law_name_joined_is_the_file(base: Seq<char>, n: Seq<char>)
    requires
        base.len() > 0,
        entry_name(n),
        n != ".."@,
    ensures
        file_name(joined(base, n)) == Some(n),
        parent(joined(base, n)) matches Some(d) && components(d) == components(base),
{
    reveal_strlit("/");
    assert(n.contains(n[0]));
    law_joined_is_below(base, n);
    lemma_names_filter(split(n, '/'));
    crate::text::lemma_char_at(n, '/');
    match crate::text::char_at(n, '/') {
        Some(i) => {
            assert(n.contains(n[i]));
        },
        None => {},
    }
    assert(split(n, '/') =~= seq![n]);
    assert(seq![n].drop_last() =~= Seq::<Seq<char>>::empty());
    assert(names(seq![n].drop_last()) =~= Seq::<Seq<char>>::empty());
    assert(names(seq![n]) =~= seq![n]);
    let j = joined(base, n);
    assert(components(j).last() == n);
    assert("/"@.contains('/')) by {
        assert("/"@[0] == '/');
    }
    assert(n != "/"@);
    law_parent_is_one_up(j);
    assert(components(j).drop_last() =~= components(base));
}

/// What is seen of a path from a directory, taken from there again, is the path.
pub proof fn law_below_leads_back(s: Seq<char>, base: Seq<char>)
    ensures
        below(s, base) is Some <==> is_under(s, base),
        below(s, base) matches Some(r) ==> same_path(joined(base, r), s),
{
    reveal_strlit("/");
    law_components_are_the_names(s);
    law_components_are_the_names(base);
    let c = components(s);
    let b = components(base);
    if is_under(s, base) {
        let d = c.skip(b.len() as int);
        let r = path_text(d);
        assert(b + d =~= c) by {
            assert(c.subrange(0, b.len() as int) + d =~= c);
        }
        if base.len() == 0 {
            crate::text::lemma_char_at(base, '/');
            assert(split(base, '/') =~= seq![base]);
            assert(seq![base].drop_last() =~= Seq::<Seq<char>>::empty());
            assert(names(seq![base].drop_last()) =~= Seq::<Seq<char>>::empty());
            reveal_strlit(".");
            assert(b =~= Seq::<Seq<char>>::empty());
            assert(d =~= c);
            assert(base + r =~= r);
            law_path_is_read_back(c);
        } else if b.len() == 0 {
            lemma_nothing_named(base);
        } else {
            assert forall|i: int| 0 <= i < d.len() implies entry_name(#[trigger] d[i]) by {
                assert(d[i] == c[i + b.len()]);
            }
            if d.len() == 0 {
                assert(r =~= Seq::<char>::empty());
                law_joined_is_below(base, r);
                lemma_names_filter(split(r, '/'));
                crate::text::lemma_char_at(r, '/');
                assert(split(r, '/') =~= seq![r]);
                assert(seq![r].drop_last() =~= Seq::<Seq<char>>::empty());
                assert(names(seq![r].drop_last()) =~= Seq::<Seq<char>>::empty());
                assert(names(seq![r]) =~= Seq::<Seq<char>>::empty());
                assert(components(joined(base, r)) =~= c);
            } else {
                assert(entry_name(d[0]));
                assert("/"@.contains('/')) by {
                    assert("/"@[0] == '/');
                }
                lemma_joined_names(d);
                law_joined_is_below(base, r);
                lemma_names_filter(split(r, '/'));
                lemma_names_of_names(d);
                assert(components(joined(base, r)) =~= c);
            }
        }
    }
}

proof fn lemma_nothing_named(s: Seq<char>)
    requires
        components(s).len() == 0,
    ensures
        s.len() == 0,
{
    crate::text::law_join_undoes_split(s, '/');
    if s.len() > 0 {
        let p = split(s, '/');
        assert(origin(s).len() == 0);
        assert(p[0] != "."@);
        if p[0].len() == 0 {
            if p.len() == 1 {
                assert(join(p, seq!['/']) == p[0]);
            } else {
                lemma_starts_with_slash(p);
            }
        } else {
            lemma_names_together(seq![p[0]], p.skip(1));
            assert(seq![p[0]] + p.skip(1) =~= p);
            assert(seq![p[0]].drop_last() =~= Seq::<Seq<char>>::empty());
            assert(names(seq![p[0]].drop_last()) =~= Seq::<Seq<char>>::empty());
            assert(names(seq![p[0]]).len() == 1);
        }
    }
}

proof fn lemma_starts_with_slash(p: Seq<Seq<char>>)
    requires
        p.len() > 1,
        p[0].len() == 0,
    ensures
        join(p, seq!['/']).len() > 0,
        join(p, seq!['/'])[0] == '/',
    decreases p.len(),
{
    let t = p.drop_last();
    if t.len() > 1 {
        lemma_starts_with_slash(t);
        assert(join(p, seq!['/'])[0] == join(t, seq!['/'])[0]);
    } else {
        assert(join(t, seq!['/']) == p[0]);
        assert(join(p, seq!['/'])[0] == '/');
    }
}

/// A name is its stem and its extension with a dot between them: the last dot, and none
/// that begins the name.
pub proof fn law_stem_and_extension_make_the_name(n: Seq<char>)
    ensures
        name_extension(n) matches Some(e) ==> n == name_stem(n) + "."@ + e && !e.contains('.')
            && name_stem(n).len() > 0,
        name_extension(n) is None ==> name_stem(n) == n && (forall|i: int|
            0 < i < n.len() ==> n[i] != '.'),
{
    reveal_strlit(".");
    crate::text::lemma_last_char_at(n, '.');
    match last_char_at(n, '.') {
        Some(i) => {
            let e = n.skip(i + 1);
            assert(n =~= n.take(i) + "."@ + e);
            if e.contains('.') {
                let j = choose|j: int| 0 <= j < e.len() && e[j] == '.';
                assert(n[i + 1 + j] == '.');
            }
        },
        None => {
            assert forall|i: int| 0 < i < n.len() implies n[i] != '.' by {
                assert(n.contains(n[i]));
            }
        },
    }
}

/// A directory precedes all that lies in it, and paths that may precede each other are
/// equal.
pub proof fn law_directories_come_first(a: Seq<char>, b: Seq<char>)
    ensures
        is_under(b, a) ==> path_le(a, b),
        path_le(a, b) && path_le(b, a) ==> same_path(a, b),
        path_le(a, b) || path_le(b, a),
{
    lemma_path_total(components(a), components(b), 0);
    if is_under(b, a) {
        lemma_prefix_first(components(a), components(b), 0);
    }
    if path_le(a, b) && path_le(b, a) {
        lemma_path_same(components(a), components(b), 0);
        assert(components(a) =~= components(b));
    }
}

proof fn lemma_prefix_first(a: Seq<Seq<char>>, b: Seq<Seq<char>>, i: int)
    requires
        0 <= i,
        a.is_prefix_of(b),
    ensures
        components_le(a, b, i),
    decreases a.len() - i,
{
    if i < a.len() {
        assert(b.subrange(0, a.len() as int)[i] == b[i]);
        lemma_prefix_first(a, b, i + 1);
    }
}

proof fn lemma_path_same(a: Seq<Seq<char>>, b: Seq<Seq<char>>, i: int)
    requires
        0 <= i <= a.len(),
        i <= b.len(),
        components_le(a, b, i),
        components_le(b, a, i),
    ensures
        a.len() == b.len(),
        forall|j: int| i <= j < a.len() ==> a[j] == b[j],
    decreases a.len() - i,
{
    if i < a.len() && i < b.len() {
        if a[i] == b[i] {
            lemma_path_same(a, b, i + 1);
        } else {
            lemma_component_order(a[i], b[i]);
        }
    }
}

} // verus!
