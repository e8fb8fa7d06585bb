//! Pairing the symbols of two versions of a file: by identity, then by
//! structure, then by similarity.
use vstd::prelude::*;

use crate::groups::{
    add_to_group, find_group, grouped, groups_view, lemma_grouped, lemma_position, position,
    well_grouped, Key,
};
use crate::sort::{sort_by, stable_sort};
use crate::text::{
    byte_len, chars_of, lemma_views_push, same_chars, same_text, text_len, views, words, words_of,
};
use crate::types::{ints, OutlineKind};

use super::{DiffSymbol, SymbolIdentity, SymbolView};

verus! {

/// Why two symbols, or one alone, stand together in a pairing.
#[derive(Clone, Copy, Debug, PartialEq, Eq, Structural)]
pub enum Grounds {
    /// Same kind, parent and name.
    Identity,
    /// Same kind and structure, and no other candidate.
    Structure,
    /// Same kind and structure as that many symbols in all.
    Ambiguous(u32),
    /// Similar text, by that score.
    Similar(u32),
    /// No counterpart.
    Alone,
}

/// An old and a new symbol that belong together, or one that is alone, by their
/// positions.
#[derive(Clone, Copy, Debug)]
pub struct Pairing {
    pub old: Option<usize>,
    pub new: Option<usize>,
    pub grounds: Grounds,
}

/// The optional position is `i`.
pub open spec fn holds(o: Option<usize>, i: int) -> bool {
    o matches Some(v) && v == i
}

/// Old symbol `i` stands in one of the pairings.
pub open spec fn touched_old(p: Seq<Pairing>, i: int) -> bool {
    exists|k: int| 0 <= k < p.len() && holds((#[trigger] p[k]).old, i)
}

/// New symbol `i` stands in one of the pairings.
pub open spec fn touched_new(p: Seq<Pairing>, i: int) -> bool {
    exists|k: int| 0 <= k < p.len() && holds((#[trigger] p[k]).new, i)
}

/// Which of `n` old symbols stand in no pairing yet.
pub open spec fn free_old(p: Seq<Pairing>, n: int) -> Seq<bool> {
    Seq::new(n as nat, |i: int| !touched_old(p, i))
}

/// Which of `n` new symbols stand in no pairing yet.
pub open spec fn free_new(p: Seq<Pairing>, n: int) -> Seq<bool> {
    Seq::new(n as nat, |i: int| !touched_new(p, i))
}

/// No symbol stands in two of the pairings.
pub open spec fn once(p: Seq<Pairing>) -> bool {
    &&& forall|a: int, b: int|
        0 <= a < b < p.len() && (#[trigger] p[a]).old is Some ==> p[a].old != (#[trigger] p[b]).old
    &&& forall|a: int, b: int|
        0 <= a < b < p.len() && (#[trigger] p[a]).new is Some ==> p[a].new != (#[trigger] p[b]).new
}

/// Each of `m` old and `n` new symbols stands in exactly one pairing, and no
/// pairing is empty.
pub open spec fn accounted(p: Seq<Pairing>, m: int, n: int) -> bool {
    &&& once(p)
    &&& forall|i: int| 0 <= i < m ==> #[trigger] touched_old(p, i)
    &&& forall|i: int| 0 <= i < n ==> #[trigger] touched_new(p, i)
    &&& forall|k: int|
        0 <= k < p.len() ==> {
            let q = #[trigger] p[k];
            &&& q.old is Some || q.new is Some
            &&& q.old is Some ==> q.old->0 < m
            &&& q.new is Some ==> q.new->0 < n
        }
}

// ---------------------------------------------------------------------------
// By identity
// ---------------------------------------------------------------------------

/// What a symbol is known by.
pub struct IdentityView {
    pub kind: OutlineKind,
    pub parent_path: Seq<char>,
    pub name: Seq<char>,
}

impl Key for SymbolIdentity {
    type K = IdentityView;

    open spec fn key(&self) -> IdentityView {
        self@
    }

    fn same(&self, other: &Self) -> (r: bool) {
        self.kind == other.kind && same_text(
            self.parent_path.as_str(),
            other.parent_path.as_str(),
        ) && same_text(self.name.as_str(), other.name.as_str())
    }

    fn copied(&self) -> (r: Self) {
        SymbolIdentity {
            kind: self.kind,
            parent_path: self.parent_path.clone(),
            name: self.name.clone(),
        }
    }
}

/// The identities of the symbols.
pub open spec fn identities(s: Seq<SymbolView>) -> Seq<IdentityView> {
    s.map_values(|x: SymbolView| x.identity)
}

/// Every position is picked.
pub open spec fn everything(n: int) -> Seq<bool> {
    Seq::new(n as nat, |i: int| true)
}

/// The positions of the symbols by their identity.
pub open spec fn by_identity(s: Seq<SymbolView>) -> Seq<(IdentityView, Seq<int>)> {
    grouped(identities(s), everything(s.len() as int), s.len() as int)
}

/// What the symbols of a list say.
pub open spec fn symbols_view(s: Seq<DiffSymbol>) -> Seq<SymbolView> {
    s.map_values(|x: DiffSymbol| x@)
}

/// The positions of the symbols by their identity.
pub fn index_by_identity(symbols: &[DiffSymbol]) -> (r: Vec<(SymbolIdentity, Vec<usize>)>)
    ensures
        groups_view(r@) == by_identity(symbols_view(symbols@)),
{
    let ghost s = symbols_view(symbols@);
    let n: usize = symbols.len();
    let mut r: Vec<(SymbolIdentity, Vec<usize>)> = Vec::new();
    let mut i: usize = 0;
    assert(groups_view(r@) =~= Seq::empty());
    while i < n
        invariant
            i <= n,
            n == symbols@.len(),
            s == symbols_view(symbols@),
            groups_view(r@) == grouped(identities(s), everything(n as int), i as int),
        decreases n - i,
    {
        assert(identities(s)[i as int] == symbols@[i as int].identity.key());
        add_to_group(&mut r, &symbols[i].identity, i);
        i = i + 1;
    }
    r
}

/// The first `n` positions of two groups, one by one.
pub open spec fn zip_pairs(a: Seq<int>, b: Seq<int>, n: int) -> Seq<Pairing>
    decreases n,
{
    if n <= 0 {
        Seq::empty()
    } else {
        zip_pairs(a, b, n - 1).push(
            Pairing {
                old: Some(a[n - 1] as usize),
                new: Some(b[n - 1] as usize),
                grounds: Grounds::Identity,
            },
        )
    }
}

pub open spec fn min_len(a: Seq<int>, b: Seq<int>) -> int {
    if a.len() < b.len() {
        a.len() as int
    } else {
        b.len() as int
    }
}

/// The pairings that the first `n` groups of old symbols give.
pub open spec fn identity_pairs<K>(
    old: Seq<(K, Seq<int>)>,
    new: Seq<(K, Seq<int>)>,
    n: int,
) -> Seq<Pairing>
    decreases n,
{
    if n <= 0 {
        Seq::empty()
    } else {
        let r = identity_pairs(old, new, n - 1);
        match position(new, old[n - 1].0) {
            Some(p) => r + zip_pairs(old[n - 1].1, new[p].1, min_len(old[n - 1].1, new[p].1)),
            None => r,
        }
    }
}

// ---------------------------------------------------------------------------
// By structure
// ---------------------------------------------------------------------------

/// What symbols of one structure share.
#[derive(Clone, Copy, Debug)]
pub struct StructureKey {
    pub kind: OutlineKind,
    pub hash: u64,
}

impl Key for StructureKey {
    type K = (OutlineKind, u64);

    open spec fn key(&self) -> (OutlineKind, u64) {
        (self.kind, self.hash)
    }

    fn same(&self, other: &Self) -> (r: bool) {
        self.kind == other.kind && self.hash == other.hash
    }

    fn copied(&self) -> (r: Self) {
        *self
    }
}

/// The structures of the symbols.
pub open spec fn structures(s: Seq<SymbolView>) -> Seq<(OutlineKind, u64)> {
    s.map_values(|x: SymbolView| (x.identity.kind, x.structural_hash))
}

/// The number of symbols that share a structure, as far as it can be told.
pub open spec fn ambiguity(a: nat, b: nat) -> u32 {
    if a + b <= u32::MAX {
        (a + b) as u32
    } else {
        u32::MAX
    }
}

/// The first `n` of the old positions, each without a counterpart.
pub open spec fn lone_old(a: Seq<int>, n: int, g: Grounds) -> Seq<Pairing>
    decreases n,
{
    if n <= 0 {
        Seq::empty()
    } else {
        lone_old(a, n - 1, g).push(
            Pairing { old: Some(a[n - 1] as usize), new: None, grounds: g },
        )
    }
}

/// The first `n` of the new positions, each without a counterpart.
pub open spec fn lone_new(a: Seq<int>, n: int, g: Grounds) -> Seq<Pairing>
    decreases n,
{
    if n <= 0 {
        Seq::empty()
    } else {
        lone_new(a, n - 1, g).push(
            Pairing { old: None, new: Some(a[n - 1] as usize), grounds: g },
        )
    }
}

/// What an old and a new group of one structure give: a pairing where each has one
/// member, else all of them apart, the new ones first.
pub open spec fn structure_group(a: Seq<int>, b: Seq<int>) -> Seq<Pairing> {
    if a.len() == 1 && b.len() == 1 {
        seq![
            Pairing {
                old: Some(a[0] as usize),
                new: Some(b[0] as usize),
                grounds: Grounds::Structure,
            },
        ]
    } else {
        let g = Grounds::Ambiguous(ambiguity(a.len(), b.len()));
        lone_new(b, b.len() as int, g) + lone_old(a, a.len() as int, g)
    }
}

/// The pairings that the first `n` groups of old structures give.
pub open spec fn structure_pairs<K>(
    old: Seq<(K, Seq<int>)>,
    new: Seq<(K, Seq<int>)>,
    n: int,
) -> Seq<Pairing>
    decreases n,
{
    if n <= 0 {
        Seq::empty()
    } else {
        let r = structure_pairs(old, new, n - 1);
        match position(new, old[n - 1].0) {
            Some(p) => r + structure_group(old[n - 1].1, new[p].1),
            None => r,
        }
    }
}

// ---------------------------------------------------------------------------
// By similarity
// ---------------------------------------------------------------------------

/// The unit of scores: a score of one.
pub const ONE: u64 = 0x100_0000;

/// The least score, out of `ONE`, at which two symbols are similar: eight tenths
/// in single precision.
pub const SIMILAR: u32 = 13_421_773;

/// The quotient in units of `ONE`, rounded to nearest and, halfway, to even.
pub open spec fn ratio(a: nat, b: nat) -> nat {
    let q = (a * 0x100_0000) / b;
    let r = (a * 0x100_0000) % b;
    if 2 * r > b || (2 * r == b && q % 2 == 1) {
        q + 1
    } else {
        q
    }
}

/// The quotient of a number by one at least as large.
fn ratio_of(a: usize, b: u128) -> (r: u32)
    requires
        a <= b,
        0 < b <= 2 * usize::MAX,
    ensures
        r == ratio(a as nat, b as nat),
{
    let n: u128 = a as u128 * 0x100_0000;
    let q: u128 = n / b;
    let r: u128 = n % b;
    assert(q <= 0x100_0000 && (q == 0x100_0000 ==> r == 0)) by (nonlinear_arith)
        requires
            n == a * 0x100_0000,
            a <= b,
            0 < b,
            q == n / b,
            r == n % b,
    ;
    if 2 * r > b || (2 * r == b && q % 2 == 1) {
        (q + 1) as u32
    } else {
        q as u32
    }
}

/// The sequence without what occurs before in it.
pub open spec fn distinct(s: Seq<Seq<char>>) -> Seq<Seq<char>>
    decreases s.len(),
{
    if s.len() == 0 {
        s
    } else {
        let r = distinct(s.drop_last());
        if r.contains(s.last()) {
            r
        } else {
            r.push(s.last())
        }
    }
}

/// The number of the first `n` texts of `a` that are in `b`.
pub open spec fn common(a: Seq<Seq<char>>, b: Seq<Seq<char>>, n: int) -> nat
    decreases n,
{
    if n <= 0 {
        0
    } else if b.contains(a[n - 1]) {
        common(a, b, n - 1) + 1
    } else {
        common(a, b, n - 1)
    }
}

/// The number of words that two texts share, over the number of words that either
/// has.
pub open spec fn jaccard(a: Seq<char>, b: Seq<char>) -> nat {
    let x = distinct(words(a));
    let y = distinct(words(b));
    let shared = common(x, y, x.len() as int);
    if x.len() + y.len() - shared == 0 {
        0
    } else {
        ratio(shared, (x.len() + y.len() - shared) as nat)
    }
}

fn has_slice(v: &[&[char]], w: &[char]) -> (r: bool)
    ensures
        r == views(v@).contains(w@),
{
    let mut i: usize = 0;
    while i < v.len()
        invariant
            i <= v@.len(),
            forall|j: int| 0 <= j < i ==> views(v@)[j] != w@,
        decreases v@.len() - i,
    {
        if same_chars(v[i], w) {
            assert(views(v@)[i as int] == w@);
            return true;
        }
        i = i + 1;
    }
    false
}

fn distinct_words(s: &[char]) -> (r: Vec<&[char]>)
    ensures
        views(r@) == distinct(words(s@)),
{
    broadcast use lemma_views_push;

    let w = words_of(s);
    let ghost all = views(w@);
    let mut r: Vec<&[char]> = Vec::new();
    let mut i: usize = 0;
    assert(views(r@) =~= distinct(all.take(0)));
    while i < w.len()
        invariant
            i <= w@.len(),
            all == views(w@),
            views(r@) == distinct(all.take(i as int)),
        decreases w@.len() - i,
    {
        assert(all.take(i + 1).drop_last() =~= all.take(i as int));
        assert(all.take(i + 1).last() == w@[i as int]@);
        if !has_slice(r.as_slice(), w[i]) {
            r.push(w[i]);
        }
        i = i + 1;
    }
    assert(all.take(w@.len() as int) =~= all);
    r
}

proof fn lemma_distinct(s: Seq<Seq<char>>)
    ensures
        distinct(s).no_duplicates(),
    decreases s.len(),
{
    if s.len() > 0 {
        lemma_distinct(s.drop_last());
    }
}

/// Two lists without repetition share no more than either has.
proof fn lemma_common(a: Seq<Seq<char>>, b: Seq<Seq<char>>, n: int)
    requires
        0 <= n <= a.len(),
        a.no_duplicates(),
        b.no_duplicates(),
    ensures
        common(a, b, n) <= n,
        common(a, b, n) <= b.len(),
    decreases n,
{
    let hit = |x: Seq<char>| a.take(n).contains(x);
    lemma_common_filter(a, b, n);
    b.to_set().lemma_len_filter(hit) ;
    vstd::seq_lib::seq_to_set_is_finite(b);
    b.unique_seq_to_set();
}

proof fn lemma_common_filter(a: Seq<Seq<char>>, b: Seq<Seq<char>>, n: int)
    requires
        0 <= n <= a.len(),
        a.no_duplicates(),
    ensures
        common(a, b, n) <= n,
        common(a, b, n) == b.to_set().filter(|x: Seq<char>| a.take(n).contains(x)).len(),
    decreases n,
{
    vstd::seq_lib::seq_to_set_is_finite(b);
    let f = b.to_set().filter(|x: Seq<char>| a.take(n).contains(x));
    if n <= 0 {
        assert(f =~= Set::empty());
    } else {
        lemma_common_filter(a, b, n - 1);
        let g = b.to_set().filter(|x: Seq<char>| a.take(n - 1).contains(x));
        b.to_set().lemma_len_filter(|x: Seq<char>| a.take(n - 1).contains(x));
        let t = a.take(n - 1);
        let u = a.take(n);
        assert forall|x: Seq<char>| u.contains(x) == (t.contains(x) || x == a[n - 1]) by {
            if u.contains(x) {
                let k = choose|k: int| 0 <= k < u.len() && u[k] == x;
                if k < n - 1 {
                    assert(t[k] == x);
                }
            }
            if t.contains(x) {
                let k = choose|k: int| 0 <= k < t.len() && t[k] == x;
                assert(u[k] == x);
            }
            assert(u[n - 1] == a[n - 1]);
        }
        if b.contains(a[n - 1]) {
            assert(f =~= g.insert(a[n - 1]));
            assert(!g.contains(a[n - 1])) by {
                if t.contains(a[n - 1]) {
                    let k = choose|k: int| 0 <= k < t.len() && t[k] == a[n - 1];
                    assert(a[k] == a[n - 1]);
                }
            }
        } else {
            assert(f =~= g);
        }
    }
}

/// How similar two texts are by their words.
pub fn jaccard_similarity(a: &str, b: &str) -> (r: u32)
    ensures
        r == jaccard(a@, b@),
{
    let ca = chars_of(a);
    let cb = chars_of(b);
    let x = distinct_words(ca.as_slice());
    let y = distinct_words(cb.as_slice());
    let ghost vx = views(x@);
    let ghost vy = views(y@);
    let mut shared: usize = 0;
    let mut i: usize = 0;
    while i < x.len()
        invariant
            i <= x@.len(),
            shared <= i,
            vx == views(x@),
            vy == views(y@),
            shared == common(vx, vy, i as int),
        decreases x@.len() - i,
    {
        assert(vx[i as int] == x@[i as int]@);
        if has_slice(y.as_slice(), x[i]) {
            shared = shared + 1;
        }
        i = i + 1;
    }
    proof {
        lemma_distinct(words(a@));
        lemma_distinct(words(b@));
        lemma_common(vx, vy, vx.len() as int);
    }
    let extra: usize = y.len() - shared;
    let total: u128 = x.len() as u128 + extra as u128;
    if total == 0 {
        0
    } else {
        ratio_of(shared, total)
    }
}

/// An old and a new symbol that are similar, with the score.
#[derive(Clone, Copy, Debug)]
pub struct Candidate {
    pub old: usize,
    pub new: usize,
    pub score: u32,
}

/// The shorter text takes at least eight tenths of the bytes of the longer one,
/// which is not empty.
pub open spec fn lengths_fit(a: Seq<char>, b: Seq<char>) -> bool {
    let (small, large) = if byte_len(a) < byte_len(b) {
        (byte_len(a), byte_len(b))
    } else {
        (byte_len(b), byte_len(a))
    };
    large != 0 && ratio(small, large) >= SIMILAR
}

/// Two symbols of one kind, of fitting lengths and similar words.
pub open spec fn similar(a: SymbolView, b: SymbolView) -> bool {
    a.identity.kind == b.identity.kind && lengths_fit(a.source_text, b.source_text) && jaccard(
        a.source_text,
        b.source_text,
    ) >= SIMILAR
}

/// The candidates that old symbol `i` forms with the first `n` new symbols.
pub open spec fn row(
    old: Seq<SymbolView>,
    new: Seq<SymbolView>,
    free: Seq<bool>,
    i: int,
    n: int,
) -> Seq<Candidate>
    decreases n,
{
    if n <= 0 {
        Seq::empty()
    } else {
        let r = row(old, new, free, i, n - 1);
        if free[n - 1] && similar(old[i], new[n - 1]) {
            r.push(
                Candidate {
                    old: i as usize,
                    new: (n - 1) as usize,
                    score: jaccard(old[i].source_text, new[n - 1].source_text) as u32,
                },
            )
        } else {
            r
        }
    }
}

/// The candidates that the first `m` old symbols form with new symbols.
pub open spec fn candidates(
    old: Seq<SymbolView>,
    new: Seq<SymbolView>,
    free_old: Seq<bool>,
    free_new: Seq<bool>,
    m: int,
) -> Seq<Candidate>
    decreases m,
{
    if m <= 0 {
        Seq::empty()
    } else {
        let r = candidates(old, new, free_old, free_new, m - 1);
        if free_old[m - 1] {
            r + row(old, new, free_new, m - 1, new.len() as int)
        } else {
            r
        }
    }
}

/// The better score comes first.
pub open spec fn best_first() -> spec_fn(Candidate, Candidate) -> bool {
    |a: Candidate, b: Candidate| a.score >= b.score
}

fn better(a: &Candidate, b: &Candidate) -> (r: bool)
    ensures
        r == best_first()(*a, *b),
{
    a.score >= b.score
}

/// The pairings with those of the first `n` candidates whose symbols are both
/// still free when their turn comes.
pub open spec fn greedy(p: Seq<Pairing>, c: Seq<Candidate>, n: int) -> Seq<Pairing>
    decreases n,
{
    if n <= 0 {
        p
    } else {
        let q = greedy(p, c, n - 1);
        let x = c[n - 1];
        if touched_old(q, x.old as int) || touched_new(q, x.new as int) {
            q
        } else {
            q.push(
                Pairing {
                    old: Some(x.old),
                    new: Some(x.new),
                    grounds: Grounds::Similar(x.score),
                },
            )
        }
    }
}

/// The free ones of the first `n` old symbols.
pub open spec fn rest_old(p: Seq<Pairing>, n: int) -> Seq<Pairing>
    decreases n,
{
    if n <= 0 {
        Seq::empty()
    } else {
        let r = rest_old(p, n - 1);
        if touched_old(p, n - 1) {
            r
        } else {
            r.push(Pairing { old: Some((n - 1) as usize), new: None, grounds: Grounds::Alone })
        }
    }
}

/// The free ones of the first `n` new symbols.
pub open spec fn rest_new(p: Seq<Pairing>, n: int) -> Seq<Pairing>
    decreases n,
{
    if n <= 0 {
        Seq::empty()
    } else {
        let r = rest_new(p, n - 1);
        if touched_new(p, n - 1) {
            r
        } else {
            r.push(Pairing { old: None, new: Some((n - 1) as usize), grounds: Grounds::Alone })
        }
    }
}

// ---------------------------------------------------------------------------
// All together
// ---------------------------------------------------------------------------

/// The pairings by identity.
pub open spec fn first_pairs(old: Seq<SymbolView>, new: Seq<SymbolView>) -> Seq<Pairing> {
    identity_pairs(by_identity(old), by_identity(new), by_identity(old).len() as int)
}

/// The old symbols without a counterpart by identity, by their structure.
pub open spec fn old_structures(old: Seq<SymbolView>, new: Seq<SymbolView>) -> Seq<
    ((OutlineKind, u64), Seq<int>),
> {
    grouped(
        structures(old),
        free_old(first_pairs(old, new), old.len() as int),
        old.len() as int,
    )
}

/// The new symbols without a counterpart by identity, by their structure.
pub open spec fn new_structures(old: Seq<SymbolView>, new: Seq<SymbolView>) -> Seq<
    ((OutlineKind, u64), Seq<int>),
> {
    grouped(
        structures(new),
        free_new(first_pairs(old, new), new.len() as int),
        new.len() as int,
    )
}

/// The pairings by identity and structure.
pub open spec fn second_pairs(old: Seq<SymbolView>, new: Seq<SymbolView>) -> Seq<Pairing> {
    first_pairs(old, new) + structure_pairs(
        old_structures(old, new),
        new_structures(old, new),
        old_structures(old, new).len() as int,
    )
}

/// The candidates among what is left, best first.
pub open spec fn ranked(old: Seq<SymbolView>, new: Seq<SymbolView>) -> Seq<Candidate> {
    let p = second_pairs(old, new);
    stable_sort(
        candidates(
            old,
            new,
            free_old(p, old.len() as int),
            free_new(p, new.len() as int),
            old.len() as int,
        ),
        best_first(),
    )
}

/// The pairings by identity, structure and similarity.
pub open spec fn third_pairs(old: Seq<SymbolView>, new: Seq<SymbolView>) -> Seq<Pairing> {
    greedy(second_pairs(old, new), ranked(old, new), ranked(old, new).len() as int)
}

/// All pairings: in the end, each symbol that is left is alone.
pub open spec fn pairings(old: Seq<SymbolView>, new: Seq<SymbolView>) -> Seq<Pairing> {
    let p = third_pairs(old, new);
    p + rest_old(p, old.len() as int) + rest_new(p, new.len() as int)
}

// ---------------------------------------------------------------------------
// Each symbol once
// ---------------------------------------------------------------------------

proof fn lemma_push(p: Seq<Pairing>, q: Pairing)
    ensures
        forall|i: int| #[trigger]
            touched_old(p.push(q), i) == (touched_old(p, i) || holds(q.old, i)),
        forall|i: int| #[trigger]
            touched_new(p.push(q), i) == (touched_new(p, i) || holds(q.new, i)),
        once(p) && (q.old is Some ==> !touched_old(p, q.old->0 as int)) && (q.new is Some
            ==> !touched_new(p, q.new->0 as int)) ==> once(p.push(q)),
{
    let r = p.push(q);
    assert forall|i: int| #[trigger] touched_old(r, i) == (touched_old(p, i) || holds(q.old, i)) by {
        if touched_old(p, i) {
            let k = choose|k: int| 0 <= k < p.len() && holds((#[trigger] p[k]).old, i);
            assert(holds(r[k].old, i));
        }
        if holds(q.old, i) {
            assert(holds(r[p.len() as int].old, i));
        }
        if touched_old(r, i) {
            let k = choose|k: int| 0 <= k < r.len() && holds((#[trigger] r[k]).old, i);
            if k < p.len() {
                assert(holds(p[k].old, i));
            }
        }
    }
    assert forall|i: int| #[trigger] touched_new(r, i) == (touched_new(p, i) || holds(q.new, i)) by {
        if touched_new(p, i) {
            let k = choose|k: int| 0 <= k < p.len() && holds((#[trigger] p[k]).new, i);
            assert(holds(r[k].new, i));
        }
        if holds(q.new, i) {
            assert(holds(r[p.len() as int].new, i));
        }
        if touched_new(r, i) {
            let k = choose|k: int| 0 <= k < r.len() && holds((#[trigger] r[k]).new, i);
            if k < p.len() {
                assert(holds(p[k].new, i));
            }
        }
    }
    if once(p) && (q.old is Some ==> !touched_old(p, q.old->0 as int)) && (q.new is Some
        ==> !touched_new(p, q.new->0 as int)) {
        assert forall|a: int, b: int|
            0 <= a < b < r.len() && (#[trigger] r[a]).old is Some implies r[a].old != (
        #[trigger] r[b]).old by {
            if b == p.len() && r[a].old == q.old {
                assert(holds(p[a].old, q.old->0 as int));
            }
        }
        assert forall|a: int, b: int|
            0 <= a < b < r.len() && (#[trigger] r[a]).new is Some implies r[a].new != (
        #[trigger] r[b]).new by {
            if b == p.len() && r[a].new == q.new {
                assert(holds(p[a].new, q.new->0 as int));
            }
        }
    }
}

/// The positions are distinct sizes that `free` admits.
spec fn fresh(a: Seq<int>, n: int, m: int) -> bool {
    &&& 0 <= n <= a.len()
    &&& m <= usize::MAX
    &&& forall|x: int| 0 <= x < n ==> 0 <= #[trigger] a[x] < m
    &&& forall|x: int, y: int| 0 <= x < y < a.len() ==> #[trigger] a[x] < #[trigger] a[y]
}

proof fn lemma_zip(p: Seq<Pairing>, a: Seq<int>, b: Seq<int>, n: int, m1: int, m2: int)
    requires
        once(p),
        fresh(a, n, m1),
        fresh(b, n, m2),
        forall|x: int| 0 <= x < n ==> !touched_old(p, #[trigger] a[x]),
        forall|x: int| 0 <= x < n ==> !touched_new(p, #[trigger] b[x]),
    ensures
        once(p + zip_pairs(a, b, n)),
        forall|i: int| #[trigger]
            touched_old(p + zip_pairs(a, b, n), i) ==> touched_old(p, i) || (exists|x: int|
                0 <= x < n && #[trigger] a[x] == i),
        forall|i: int| #[trigger]
            touched_new(p + zip_pairs(a, b, n), i) ==> touched_new(p, i) || (exists|x: int|
                0 <= x < n && #[trigger] b[x] == i),
        forall|k: int|
            0 <= k < zip_pairs(a, b, n).len() ==> {
                let q = #[trigger] zip_pairs(a, b, n)[k];
                q.old is Some && q.old->0 < m1 && q.new is Some && q.new->0 < m2
            },
    decreases n,
{
    if n <= 0 {
        assert(p + zip_pairs(a, b, n) =~= p);
    } else {
        lemma_zip(p, a, b, n - 1, m1, m2);
        let z = p + zip_pairs(a, b, n - 1);
        let q = Pairing {
            old: Some(a[n - 1] as usize),
            new: Some(b[n - 1] as usize),
            grounds: Grounds::Identity,
        };
        lemma_push(z, q);
        assert(p + zip_pairs(a, b, n) =~= z.push(q));
    }
}

proof fn lemma_members<K>(
    g: Seq<(K, Seq<int>)>,
    keys: Seq<K>,
    picked: Seq<bool>,
    n: int,
    a: int,
    x: int,
    b: int,
    y: int,
)
    requires
        well_grouped(g, keys, picked, n),
        0 <= a < g.len(),
        0 <= b < g.len(),
        0 <= x < g[a].1.len(),
        0 <= y < g[b].1.len(),
        g[a].1[x] == g[b].1[y],
    ensures
        a == b,
{
    assert(keys[g[a].1[x]] == g[a].0);
    assert(keys[g[b].1[y]] == g[b].0);
    if a < b {
        assert(g[a].0 != g[b].0);
    } else if b < a {
        assert(g[b].0 != g[a].0);
    }
}

/// Position `i` is in one of the first `n` groups.
spec fn in_groups<K>(g: Seq<(K, Seq<int>)>, n: int, i: int) -> bool {
    exists|a: int, x: int| 0 <= a < n && 0 <= x < g[a].1.len() && #[trigger] g[a].1[x] == i
}

/// Position `i` is in a group whose key one of the first `n` groups of `o` has.
spec fn in_mates<K>(g: Seq<(K, Seq<int>)>, o: Seq<(K, Seq<int>)>, n: int, i: int) -> bool {
    exists|b: int, x: int, a: int|
        0 <= b < g.len() && 0 <= x < g[b].1.len() && #[trigger] g[b].1[x] == i && 0 <= a < n
            && g[b].0 == (#[trigger] o[a]).0
}

/// Groups of `m` positions, all picked from free ones.
spec fn sound<K>(g: Seq<(K, Seq<int>)>, keys: Seq<K>, picked: Seq<bool>, m: int) -> bool {
    &&& well_grouped(g, keys, picked, m)
    &&& 0 <= m <= usize::MAX
}

proof fn lemma_group_fresh<K>(g: Seq<(K, Seq<int>)>, keys: Seq<K>, picked: Seq<bool>, m: int, a: int)
    requires
        sound(g, keys, picked, m),
        0 <= a < g.len(),
    ensures
        fresh(g[a].1, g[a].1.len() as int, m),
{
}

proof fn lemma_identity<K>(
    old: Seq<(K, Seq<int>)>,
    new: Seq<(K, Seq<int>)>,
    n: int,
    k1: Seq<K>,
    k2: Seq<K>,
    f1: Seq<bool>,
    f2: Seq<bool>,
    m1: int,
    m2: int,
)
    requires
        sound(old, k1, f1, m1),
        sound(new, k2, f2, m2),
        0 <= n <= old.len(),
    ensures
        once(identity_pairs(old, new, n)),
        forall|i: int| #[trigger]
            touched_old(identity_pairs(old, new, n), i) ==> in_groups(old, n, i),
        forall|i: int| #[trigger]
            touched_new(identity_pairs(old, new, n), i) ==> in_mates(new, old, n, i),
        forall|k: int|
            0 <= k < identity_pairs(old, new, n).len() ==> {
                let q = #[trigger] identity_pairs(old, new, n)[k];
                q.old is Some && q.old->0 < m1 && q.new is Some && q.new->0 < m2
            },
    decreases n,
{
    if n > 0 {
        lemma_identity(old, new, n - 1, k1, k2, f1, f2, m1, m2);
        let r = identity_pairs(old, new, n - 1);
        let c = n - 1;
        lemma_position(new, old[c].0);
        assert forall|i: int| in_groups(old, n - 1, i) implies in_groups(old, n, i) by {
            let (a, x) = choose|a: int, x: int|
                0 <= a < n - 1 && 0 <= x < old[a].1.len() && #[trigger] old[a].1[x] == i;
            assert(old[a].1[x] == i);
        }
        assert forall|i: int| in_mates(new, old, n - 1, i) implies in_mates(new, old, n, i) by {
            let (b, x, a) = choose|b: int, x: int, a: int|
                0 <= b < new.len() && 0 <= x < new[b].1.len() && #[trigger] new[b].1[x] == i && 0
                    <= a < n - 1 && new[b].0 == (#[trigger] old[a]).0;
            assert(new[b].1[x] == i && new[b].0 == old[a].0);
        }
        if let Some(p) = position(new, old[c].0) {
            let a = old[c].1;
            let b = new[p].1;
            let len = min_len(a, b);
            lemma_group_fresh(old, k1, f1, m1, c);
            lemma_group_fresh(new, k2, f2, m2, p);
            assert forall|x: int| 0 <= x < len implies !touched_old(r, #[trigger] a[x]) by {
                if touched_old(r, a[x]) {
                    let (e, y) = choose|e: int, y: int|
                        0 <= e < n - 1 && 0 <= y < old[e].1.len() && #[trigger] old[e].1[y] == a[x];
                    lemma_members(old, k1, f1, m1, e, y, c, x);
                }
            }
            assert forall|x: int| 0 <= x < len implies !touched_new(r, #[trigger] b[x]) by {
                if touched_new(r, b[x]) {
                    let (e, y, h) = choose|e: int, y: int, h: int|
                        0 <= e < new.len() && 0 <= y < new[e].1.len() && #[trigger] new[e].1[y]
                            == b[x] && 0 <= h < n - 1 && new[e].0 == (#[trigger] old[h]).0;
                    lemma_members(new, k2, f2, m2, e, y, p, x);
                    assert(old[h].0 == old[c].0);
                }
            }
            lemma_zip(r, a, b, len, m1, m2);
            assert forall|i: int| #[trigger]
                touched_old(identity_pairs(old, new, n), i) implies in_groups(old, n, i) by {
                if !touched_old(r, i) {
                    let x = choose|x: int| 0 <= x < len && #[trigger] a[x] == i;
                    assert(old[c].1[x] == i);
                }
            }
            assert forall|i: int| #[trigger]
                touched_new(identity_pairs(old, new, n), i) implies in_mates(new, old, n, i) by {
                if !touched_new(r, i) {
                    let x = choose|x: int| 0 <= x < len && #[trigger] b[x] == i;
                    assert(new[p].1[x] == i && new[p].0 == old[c].0);
                }
            }
        }
    }
}

proof fn lemma_lone_old(p: Seq<Pairing>, a: Seq<int>, n: int, m: int, g: Grounds)
    requires
        once(p),
        fresh(a, n, m),
        forall|x: int| 0 <= x < n ==> !touched_old(p, #[trigger] a[x]),
    ensures
        once(p + lone_old(a, n, g)),
        forall|i: int| #[trigger]
            touched_old(p + lone_old(a, n, g), i) ==> touched_old(p, i) || (exists|x: int|
                0 <= x < n && #[trigger] a[x] == i),
        forall|i: int| #[trigger] touched_new(p + lone_old(a, n, g), i) ==> touched_new(p, i),
        forall|k: int|
            0 <= k < lone_old(a, n, g).len() ==> {
                let q = #[trigger] lone_old(a, n, g)[k];
                q.old is Some && q.old->0 < m && q.new is None
            },
    decreases n,
{
    if n <= 0 {
        assert(p + lone_old(a, n, g) =~= p);
    } else {
        lemma_lone_old(p, a, n - 1, m, g);
        let z = p + lone_old(a, n - 1, g);
        let q = Pairing { old: Some(a[n - 1] as usize), new: None, grounds: g };
        lemma_push(z, q);
        assert(p + lone_old(a, n, g) =~= z.push(q));
    }
}

proof fn lemma_lone_new(p: Seq<Pairing>, a: Seq<int>, n: int, m: int, g: Grounds)
    requires
        once(p),
        fresh(a, n, m),
        forall|x: int| 0 <= x < n ==> !touched_new(p, #[trigger] a[x]),
    ensures
        once(p + lone_new(a, n, g)),
        forall|i: int| #[trigger]
            touched_new(p + lone_new(a, n, g), i) ==> touched_new(p, i) || (exists|x: int|
                0 <= x < n && #[trigger] a[x] == i),
        forall|i: int| #[trigger] touched_old(p + lone_new(a, n, g), i) ==> touched_old(p, i),
        forall|k: int|
            0 <= k < lone_new(a, n, g).len() ==> {
                let q = #[trigger] lone_new(a, n, g)[k];
                q.new is Some && q.new->0 < m && q.old is None
            },
    decreases n,
{
    if n <= 0 {
        assert(p + lone_new(a, n, g) =~= p);
    } else {
        lemma_lone_new(p, a, n - 1, m, g);
        let z = p + lone_new(a, n - 1, g);
        let q = Pairing { old: None, new: Some(a[n - 1] as usize), grounds: g };
        lemma_push(z, q);
        assert(p + lone_new(a, n, g) =~= z.push(q));
    }
}

/// The pairing names positions in range, at least one.
pub open spec fn in_range(q: Pairing, m1: int, m2: int) -> bool {
    &&& q.old is Some || q.new is Some
    &&& q.old is Some ==> q.old->0 < m1
    &&& q.new is Some ==> q.new->0 < m2
}

proof fn lemma_structure_group(p: Seq<Pairing>, a: Seq<int>, b: Seq<int>, m1: int, m2: int)
    requires
        once(p),
        fresh(a, a.len() as int, m1),
        fresh(b, b.len() as int, m2),
        forall|x: int| 0 <= x < a.len() ==> !touched_old(p, #[trigger] a[x]),
        forall|x: int| 0 <= x < b.len() ==> !touched_new(p, #[trigger] b[x]),
    ensures
        once(p + structure_group(a, b)),
        forall|i: int| #[trigger]
            touched_old(p + structure_group(a, b), i) ==> touched_old(p, i) || (exists|x: int|
                0 <= x < a.len() && #[trigger] a[x] == i),
        forall|i: int| #[trigger]
            touched_new(p + structure_group(a, b), i) ==> touched_new(p, i) || (exists|x: int|
                0 <= x < b.len() && #[trigger] b[x] == i),
        forall|k: int|
            0 <= k < structure_group(a, b).len() ==> in_range(
                #[trigger] structure_group(a, b)[k],
                m1,
                m2,
            ),
{
    if a.len() == 1 && b.len() == 1 {
        let q = Pairing {
            old: Some(a[0] as usize),
            new: Some(b[0] as usize),
            grounds: Grounds::Structure,
        };
        lemma_push(p, q);
        assert(p + structure_group(a, b) =~= p.push(q));
        assert(a[0] == q.old->0);
        assert(b[0] == q.new->0);
    } else {
        let g = Grounds::Ambiguous(ambiguity(a.len(), b.len()));
        let first = lone_new(b, b.len() as int, g);
        let second = lone_old(a, a.len() as int, g);
        lemma_lone_new(p, b, b.len() as int, m2, g);
        lemma_lone_old(p + first, a, a.len() as int, m1, g);
        assert(p + structure_group(a, b) =~= p + first + second);
        assert forall|k: int| 0 <= k < structure_group(a, b).len() implies in_range(
            #[trigger] structure_group(a, b)[k],
            m1,
            m2,
        ) by {
            if k < first.len() {
                assert(structure_group(a, b)[k] == first[k]);
            } else {
                assert(structure_group(a, b)[k] == second[k - first.len()]);
            }
        }
    }
}

proof fn lemma_structure<K>(
    p: Seq<Pairing>,
    old: Seq<(K, Seq<int>)>,
    new: Seq<(K, Seq<int>)>,
    n: int,
    k1: Seq<K>,
    k2: Seq<K>,
    m1: int,
    m2: int,
)
    requires
        once(p),
        sound(old, k1, free_old(p, m1), m1),
        sound(new, k2, free_new(p, m2), m2),
        0 <= n <= old.len(),
    ensures
        once(p + structure_pairs(old, new, n)),
        forall|i: int| #[trigger]
            touched_old(p + structure_pairs(old, new, n), i) ==> touched_old(p, i) || in_groups(
                old,
                n,
                i,
            ),
        forall|i: int| #[trigger]
            touched_new(p + structure_pairs(old, new, n), i) ==> touched_new(p, i) || in_mates(
                new,
                old,
                n,
                i,
            ),
        forall|k: int|
            0 <= k < structure_pairs(old, new, n).len() ==> in_range(
                #[trigger] structure_pairs(old, new, n)[k],
                m1,
                m2,
            ),
    decreases n,
{
    if n <= 0 {
        assert(p + structure_pairs(old, new, n) =~= p);
    } else {
        lemma_structure(p, old, new, n - 1, k1, k2, m1, m2);
        let f1 = free_old(p, m1);
        let f2 = free_new(p, m2);
        let s = structure_pairs(old, new, n - 1);
        let r = p + s;
        let c = n - 1;
        lemma_position(new, old[c].0);
        assert forall|i: int| in_groups(old, n - 1, i) implies in_groups(old, n, i) by {
            let (a, x) = choose|a: int, x: int|
                0 <= a < n - 1 && 0 <= x < old[a].1.len() && #[trigger] old[a].1[x] == i;
            assert(old[a].1[x] == i);
        }
        assert forall|i: int| in_mates(new, old, n - 1, i) implies in_mates(new, old, n, i) by {
            let (b, x, a) = choose|b: int, x: int, a: int|
                0 <= b < new.len() && 0 <= x < new[b].1.len() && #[trigger] new[b].1[x] == i && 0
                    <= a < n - 1 && new[b].0 == (#[trigger] old[a]).0;
            assert(new[b].1[x] == i && new[b].0 == old[a].0);
        }
        if let Some(q) = position(new, old[c].0) {
            let a = old[c].1;
            let b = new[q].1;
            let g = structure_group(a, b);
            lemma_group_fresh(old, k1, f1, m1, c);
            lemma_group_fresh(new, k2, f2, m2, q);
            assert forall|x: int| 0 <= x < a.len() implies !touched_old(r, #[trigger] a[x]) by {
                assert(f1[old[c].1[x]]);
                if touched_old(r, a[x]) {
                    let (e, y) = choose|e: int, y: int|
                        0 <= e < n - 1 && 0 <= y < old[e].1.len() && #[trigger] old[e].1[y] == a[x];
                    lemma_members(old, k1, f1, m1, e, y, c, x);
                }
            }
            assert forall|x: int| 0 <= x < b.len() implies !touched_new(r, #[trigger] b[x]) by {
                assert(f2[new[q].1[x]]);
                if touched_new(r, b[x]) {
                    let (e, y, h) = choose|e: int, y: int, h: int|
                        0 <= e < new.len() && 0 <= y < new[e].1.len() && #[trigger] new[e].1[y]
                            == b[x] && 0 <= h < n - 1 && new[e].0 == (#[trigger] old[h]).0;
                    lemma_members(new, k2, f2, m2, e, y, q, x);
                    assert(old[h].0 == old[c].0);
                }
            }
            lemma_structure_group(r, a, b, m1, m2);
            assert(p + structure_pairs(old, new, n) =~= r + g);
            assert forall|i: int| #[trigger]
                touched_old(r + g, i) implies touched_old(p, i) || in_groups(old, n, i) by {
                if !touched_old(r, i) {
                    let x = choose|x: int| 0 <= x < a.len() && #[trigger] a[x] == i;
                    assert(old[c].1[x] == i);
                }
            }
            assert forall|i: int| #[trigger]
                touched_new(r + g, i) implies touched_new(p, i) || in_mates(new, old, n, i) by {
                if !touched_new(r, i) {
                    let x = choose|x: int| 0 <= x < b.len() && #[trigger] b[x] == i;
                    assert(new[q].1[x] == i && new[q].0 == old[c].0);
                }
            }
            assert forall|k: int| 0 <= k < structure_pairs(old, new, n).len() implies in_range(
                #[trigger] structure_pairs(old, new, n)[k],
                m1,
                m2,
            ) by {
                if k < s.len() {
                    assert(structure_pairs(old, new, n)[k] == s[k]);
                } else {
                    assert(structure_pairs(old, new, n)[k] == g[k - s.len()]);
                }
            }
        }
    }
}

proof fn lemma_greedy(p: Seq<Pairing>, c: Seq<Candidate>, n: int, m1: int, m2: int)
    requires
        once(p),
        0 <= n <= c.len(),
        forall|k: int| 0 <= k < p.len() ==> in_range(#[trigger] p[k], m1, m2),
        forall|k: int| 0 <= k < c.len() ==> (#[trigger] c[k]).old < m1 && c[k].new < m2,
    ensures
        once(greedy(p, c, n)),
        forall|k: int| 0 <= k < greedy(p, c, n).len() ==> in_range(
            #[trigger] greedy(p, c, n)[k],
            m1,
            m2,
        ),
    decreases n,
{
    if n > 0 {
        lemma_greedy(p, c, n - 1, m1, m2);
        let q = greedy(p, c, n - 1);
        let x = c[n - 1];
        lemma_push(
            q,
            Pairing { old: Some(x.old), new: Some(x.new), grounds: Grounds::Similar(x.score) },
        );
    }
}

proof fn lemma_row(
    old: Seq<SymbolView>,
    new: Seq<SymbolView>,
    free: Seq<bool>,
    i: int,
    n: int,
)
    requires
        0 <= i < old.len() <= usize::MAX,
        0 <= n <= new.len() <= usize::MAX,
    ensures
        forall|k: int|
            0 <= k < row(old, new, free, i, n).len() ==> {
                let c = #[trigger] row(old, new, free, i, n)[k];
                c.old < old.len() && c.new < new.len()
            },
    decreases n,
{
    if n > 0 {
        lemma_row(old, new, free, i, n - 1);
        let r = row(old, new, free, i, n - 1);
        let all = row(old, new, free, i, n);
        assert forall|k: int| 0 <= k < all.len() implies (#[trigger] all[k]).old < old.len()
            && all[k].new < new.len() by {
            if k < r.len() {
                assert(all[k] == r[k]);
            }
        }
    }
}

proof fn lemma_candidates(
    old: Seq<SymbolView>,
    new: Seq<SymbolView>,
    f1: Seq<bool>,
    f2: Seq<bool>,
    m: int,
)
    requires
        0 <= m <= old.len() <= usize::MAX,
        new.len() <= usize::MAX,
    ensures
        forall|k: int|
            0 <= k < candidates(old, new, f1, f2, m).len() ==> {
                let c = #[trigger] candidates(old, new, f1, f2, m)[k];
                c.old < old.len() && c.new < new.len()
            },
    decreases m,
{
    if m > 0 {
        lemma_candidates(old, new, f1, f2, m - 1);
        lemma_row(old, new, f2, m - 1, new.len() as int);
        let r = candidates(old, new, f1, f2, m - 1);
        let w = row(old, new, f2, m - 1, new.len() as int);
        let all = candidates(old, new, f1, f2, m);
        assert forall|k: int| 0 <= k < all.len() implies (#[trigger] all[k]).old < old.len()
            && all[k].new < new.len() by {
            if k < r.len() {
                assert(all[k] == r[k]);
            } else {
                assert(all[k] == w[k - r.len()]);
            }
        }
    }
}

proof fn lemma_rest(p: Seq<Pairing>, m: int, n: int)
    requires
        once(p),
        0 <= m <= usize::MAX,
        0 <= n <= usize::MAX,
        forall|k: int| 0 <= k < p.len() ==> in_range(#[trigger] p[k], m, n),
    ensures
        accounted(p + rest_old(p, m) + rest_new(p, n), m, n),
{
    lemma_rest_old(p, m, m, n);
    let q = p + rest_old(p, m);
    lemma_rest_new(p, q, n, m, n);
}

proof fn lemma_rest_old(p: Seq<Pairing>, i: int, m: int, n: int)
    requires
        once(p),
        0 <= i <= m <= usize::MAX,
        forall|k: int| 0 <= k < p.len() ==> in_range(#[trigger] p[k], m, n),
    ensures
        once(p + rest_old(p, i)),
        forall|j: int| #[trigger]
            touched_old(p + rest_old(p, i), j) == (touched_old(p, j) || 0 <= j < i),
        forall|j: int| #[trigger] touched_new(p + rest_old(p, i), j) == touched_new(p, j),
        forall|k: int|
            0 <= k < (p + rest_old(p, i)).len() ==> in_range(
                #[trigger] (p + rest_old(p, i))[k],
                m,
                n,
            ),
    decreases i,
{
    if i <= 0 {
        assert(p + rest_old(p, i) =~= p);
    } else {
        lemma_rest_old(p, i - 1, m, n);
        let z = p + rest_old(p, i - 1);
        let q = Pairing { old: Some((i - 1) as usize), new: None, grounds: Grounds::Alone };
        lemma_push(z, q);
        if !touched_old(p, i - 1) {
            assert(p + rest_old(p, i) =~= z.push(q));
        }
    }
}

proof fn lemma_rest_new(p: Seq<Pairing>, q: Seq<Pairing>, i: int, m: int, n: int)
    requires
        once(q),
        0 <= i <= n <= usize::MAX,
        forall|j: int| #[trigger] touched_new(q, j) == touched_new(p, j),
        forall|k: int| 0 <= k < q.len() ==> in_range(#[trigger] q[k], m, n),
    ensures
        once(q + rest_new(p, i)),
        forall|j: int| #[trigger]
            touched_new(q + rest_new(p, i), j) == (touched_new(p, j) || 0 <= j < i),
        forall|j: int| #[trigger] touched_old(q + rest_new(p, i), j) == touched_old(q, j),
        forall|k: int|
            0 <= k < (q + rest_new(p, i)).len() ==> in_range(
                #[trigger] (q + rest_new(p, i))[k],
                m,
                n,
            ),
    decreases i,
{
    if i <= 0 {
        assert(q + rest_new(p, i) =~= q);
    } else {
        lemma_rest_new(p, q, i - 1, m, n);
        let z = q + rest_new(p, i - 1);
        let x = Pairing { old: None, new: Some((i - 1) as usize), grounds: Grounds::Alone };
        lemma_push(z, x);
        if !touched_new(p, i - 1) {
            assert(q + rest_new(p, i) =~= z.push(x));
        }
    }
}

/// Every old and every new symbol stands in exactly one pairing.
pub proof fn law_symbols_accounted(old: Seq<SymbolView>, new: Seq<SymbolView>)
    requires
        old.len() <= usize::MAX,
        new.len() <= usize::MAX,
    ensures
        accounted(pairings(old, new), old.len() as int, new.len() as int),
{
    let m = old.len() as int;
    let n = new.len() as int;
    lemma_grouped(identities(old), everything(m), m);
    lemma_grouped(identities(new), everything(n), n);
    lemma_identity(
        by_identity(old),
        by_identity(new),
        by_identity(old).len() as int,
        identities(old),
        identities(new),
        everything(m),
        everything(n),
        m,
        n,
    );
    let p1 = first_pairs(old, new);
    let so = old_structures(old, new);
    let sn = new_structures(old, new);
    lemma_grouped(structures(old), free_old(p1, m), m);
    lemma_grouped(structures(new), free_new(p1, n), n);
    lemma_structure(p1, so, sn, so.len() as int, structures(old), structures(new), m, n);
    let p2 = second_pairs(old, new);
    let s = structure_pairs(so, sn, so.len() as int);
    assert forall|k: int| 0 <= k < p2.len() implies in_range(#[trigger] p2[k], m, n) by {
        if k < p1.len() {
            assert(p2[k] == p1[k]);
        } else {
            assert(p2[k] == s[k - p1.len()]);
        }
    }
    let c = candidates(old, new, free_old(p2, m), free_new(p2, n), m);
    lemma_candidates(old, new, free_old(p2, m), free_new(p2, n), m);
    let r = ranked(old, new);
    crate::sort::law_sort_keeps_elements(c, best_first());
    assert forall|k: int| 0 <= k < r.len() implies (#[trigger] r[k]).old < m && r[k].new < n by {
        broadcast use vstd::seq_lib::group_to_multiset_ensures;

        assert(r.contains(r[k]));
        assert(c.to_multiset().count(r[k]) > 0);
        assert(c.contains(r[k]));
    }
    lemma_greedy(p2, r, r.len() as int, m, n);
    lemma_rest(third_pairs(old, new), m, n);
}

// ---------------------------------------------------------------------------
// Computing the pairings
// ---------------------------------------------------------------------------

proof fn lemma_touched_take(p: Seq<Pairing>, k: int, i: int)
    requires
        0 <= k < p.len(),
    ensures
        touched_old(p.take(k + 1), i) == (touched_old(p.take(k), i) || holds(p[k].old, i)),
        touched_new(p.take(k + 1), i) == (touched_new(p.take(k), i) || holds(p[k].new, i)),
{
    lemma_push(p.take(k), p[k]);
    assert(p.take(k + 1) =~= p.take(k).push(p[k]));
    assert(touched_old(p.take(k).push(p[k]), i) == (touched_old(p.take(k), i) || holds(
        p[k].old,
        i,
    )));
    assert(touched_new(p.take(k).push(p[k]), i) == (touched_new(p.take(k), i) || holds(
        p[k].new,
        i,
    )));
}

/// Which of `n` old symbols stand in no pairing.
fn old_flags(p: &Vec<Pairing>, n: usize) -> (r: Vec<bool>)
    ensures
        r@ == free_old(p@, n as int),
{
    let mut r: Vec<bool> = Vec::new();
    let mut i: usize = 0;
    while i < n
        invariant
            i <= n,
            r@.len() == i,
            forall|j: int| 0 <= j < i ==> r@[j],
        decreases n - i,
    {
        r.push(true);
        i = i + 1;
    }
    let mut k: usize = 0;
    while k < p.len()
        invariant
            k <= p@.len(),
            r@.len() == n,
            forall|j: int| 0 <= j < n ==> #[trigger] r@[j] == !touched_old(p@.take(k as int), j),
        decreases p@.len() - k,
    {
        let ghost before = r@;
        proof {
            assert forall|j: int| 0 <= j < n implies #[trigger] touched_old(p@.take(k + 1), j) == (
            touched_old(p@.take(k as int), j) || holds(p@[k as int].old, j)) by {
                lemma_touched_take(p@, k as int, j);
            }
        }
        if let Some(o) = p[k].old {
            if o < n {
                r[o] = false;
            }
        }
        assert forall|j: int| 0 <= j < n implies #[trigger] r@[j] == !touched_old(p@.take(k + 1), j) by {
            assert(before[j] == !touched_old(p@.take(k as int), j));
        }
        k = k + 1;
    }
    assert(p@.take(p@.len() as int) =~= p@);
    assert(r@ =~= free_old(p@, n as int));
    r
}

/// Which of `n` new symbols stand in no pairing.
fn new_flags(p: &Vec<Pairing>, n: usize) -> (r: Vec<bool>)
    ensures
        r@ == free_new(p@, n as int),
{
    let mut r: Vec<bool> = Vec::new();
    let mut i: usize = 0;
    while i < n
        invariant
            i <= n,
            r@.len() == i,
            forall|j: int| 0 <= j < i ==> r@[j],
        decreases n - i,
    {
        r.push(true);
        i = i + 1;
    }
    let mut k: usize = 0;
    while k < p.len()
        invariant
            k <= p@.len(),
            r@.len() == n,
            forall|j: int| 0 <= j < n ==> #[trigger] r@[j] == !touched_new(p@.take(k as int), j),
        decreases p@.len() - k,
    {
        let ghost before = r@;
        proof {
            assert forall|j: int| 0 <= j < n implies #[trigger] touched_new(p@.take(k + 1), j) == (
            touched_new(p@.take(k as int), j) || holds(p@[k as int].new, j)) by {
                lemma_touched_take(p@, k as int, j);
            }
        }
        if let Some(o) = p[k].new {
            if o < n {
                r[o] = false;
            }
        }
        assert forall|j: int| 0 <= j < n implies #[trigger] r@[j] == !touched_new(p@.take(k + 1), j) by {
            assert(before[j] == !touched_new(p@.take(k as int), j));
        }
        k = k + 1;
    }
    assert(p@.take(p@.len() as int) =~= p@);
    assert(r@ =~= free_new(p@, n as int));
    r
}

fn pair_by_identity(
    old: &Vec<(SymbolIdentity, Vec<usize>)>,
    new: &Vec<(SymbolIdentity, Vec<usize>)>,
) -> (r: Vec<Pairing>)
    ensures
        r@ == identity_pairs(groups_view(old@), groups_view(new@), old@.len() as int),
{
    let ghost og = groups_view(old@);
    let ghost ng = groups_view(new@);
    let mut r: Vec<Pairing> = Vec::new();
    let mut a: usize = 0;
    while a < old.len()
        invariant
            a <= old@.len(),
            og == groups_view(old@),
            ng == groups_view(new@),
            r@ == identity_pairs(og, ng, a as int),
        decreases old@.len() - a,
    {
        assert(og[a as int].0 == old@[a as int].0.key());
        if let Some(p) = find_group(new, &old[a].0) {
            let x = &old[a].1;
            let y = &new[p].1;
            assert(og[a as int].1 == ints(x@));
            assert(ng[p as int].1 == ints(y@));
            let n: usize = if x.len() < y.len() {
                x.len()
            } else {
                y.len()
            };
            let ghost start = r@;
            let mut k: usize = 0;
            assert(start + zip_pairs(ints(x@), ints(y@), 0) =~= start);
            while k < n
                invariant
                    k <= n,
                    n <= x@.len(),
                    n <= y@.len(),
                    r@ == start + zip_pairs(ints(x@), ints(y@), k as int),
                decreases n - k,
            {
                assert(ints(x@)[k as int] == x@[k as int]);
                assert(ints(y@)[k as int] == y@[k as int]);
                r.push(Pairing { old: Some(x[k]), new: Some(y[k]), grounds: Grounds::Identity });
                k = k + 1;
                assert(r@ =~= start + zip_pairs(ints(x@), ints(y@), k as int));
            }
        }
        a = a + 1;
    }
    r
}

/// The free symbols by their structure.
fn structure_groups(symbols: &[DiffSymbol], free: &Vec<bool>) -> (r: Vec<(StructureKey, Vec<usize>)>)
    requires
        free@.len() == symbols@.len(),
    ensures
        groups_view(r@) == grouped(
            structures(symbols_view(symbols@)),
            free@,
            symbols@.len() as int,
        ),
{
    let ghost s = symbols_view(symbols@);
    let n: usize = symbols.len();
    let mut r: Vec<(StructureKey, Vec<usize>)> = Vec::new();
    let mut i: usize = 0;
    assert(groups_view(r@) =~= Seq::empty());
    while i < n
        invariant
            i <= n,
            n == symbols@.len(),
            n == free@.len(),
            s == symbols_view(symbols@),
            groups_view(r@) == grouped(structures(s), free@, i as int),
        decreases n - i,
    {
        if free[i] {
            let key = StructureKey {
                kind: symbols[i].identity.kind,
                hash: symbols[i].structural_hash,
            };
            assert(structures(s)[i as int] == key.key());
            add_to_group(&mut r, &key, i);
        }
        i = i + 1;
    }
    r
}

fn pair_by_structure(
    p: &mut Vec<Pairing>,
    olds: &Vec<(StructureKey, Vec<usize>)>,
    news: &Vec<(StructureKey, Vec<usize>)>,
)
    ensures
        final(p)@ == old(p)@ + structure_pairs(
            groups_view(olds@),
            groups_view(news@),
            olds@.len() as int,
        ),
{
    let ghost og = groups_view(olds@);
    let ghost ng = groups_view(news@);
    let ghost start = p@;
    let mut a: usize = 0;
    assert(start + structure_pairs(og, ng, 0) =~= start);
    while a < olds.len()
        invariant
            a <= olds@.len(),
            og == groups_view(olds@),
            ng == groups_view(news@),
            p@ == start + structure_pairs(og, ng, a as int),
        decreases olds@.len() - a,
    {
        assert(og[a as int].0 == olds@[a as int].0.key());
        if let Some(q) = find_group(news, &olds[a].0) {
            let x = &olds[a].1;
            let y = &news[q].1;
            let ghost xs = ints(x@);
            let ghost ys = ints(y@);
            assert(og[a as int].1 == xs);
            assert(ng[q as int].1 == ys);
            let ghost before = p@;
            if x.len() == 1 && y.len() == 1 {
                assert(xs[0] == x@[0] && ys[0] == y@[0]);
                p.push(
                    Pairing { old: Some(x[0]), new: Some(y[0]), grounds: Grounds::Structure },
                );
                assert(p@ =~= before + structure_group(xs, ys));
            } else {
                let total: u128 = x.len() as u128 + y.len() as u128;
                let count: u32 = if total <= u32::MAX as u128 {
                    total as u32
                } else {
                    u32::MAX
                };
                let g = Grounds::Ambiguous(count);
                let mut k: usize = 0;
                assert(before + lone_new(ys, 0, g) =~= before);
                while k < y.len()
                    invariant
                        k <= y@.len(),
                        ys == ints(y@),
                        p@ == before + lone_new(ys, k as int, g),
                    decreases y@.len() - k,
                {
                    assert(ys[k as int] == y@[k as int]);
                    p.push(Pairing { old: None, new: Some(y[k]), grounds: g });
                    k = k + 1;
                    assert(p@ =~= before + lone_new(ys, k as int, g));
                }
                let ghost middle = p@;
                let mut k: usize = 0;
                assert(middle + lone_old(xs, 0, g) =~= middle);
                while k < x.len()
                    invariant
                        k <= x@.len(),
                        xs == ints(x@),
                        p@ == middle + lone_old(xs, k as int, g),
                    decreases x@.len() - k,
                {
                    assert(xs[k as int] == x@[k as int]);
                    p.push(Pairing { old: Some(x[k]), new: None, grounds: g });
                    k = k + 1;
                    assert(p@ =~= middle + lone_old(xs, k as int, g));
                }
                assert(p@ =~= before + structure_group(xs, ys));
            }
            assert(p@ =~= start + structure_pairs(og, ng, a + 1));
        }
        a = a + 1;
    }
}

/// The texts have fitting lengths.
fn lengths_fit_of(a: &str, b: &str) -> (r: bool)
    ensures
        r == lengths_fit(a@, b@),
{
    let x: usize = text_len(a);
    let y: usize = text_len(b);
    let small: usize = if x < y {
        x
    } else {
        y
    };
    let large: usize = if x < y {
        y
    } else {
        x
    };
    if large == 0 {
        return false;
    }
    ratio_of(small, large as u128) >= SIMILAR
}

/// The candidates among the free symbols.
fn find_candidates(
    old: &[DiffSymbol],
    new: &[DiffSymbol],
    free_o: &Vec<bool>,
    free_n: &Vec<bool>,
) -> (r: Vec<Candidate>)
    requires
        free_o@.len() == old@.len(),
        free_n@.len() == new@.len(),
    ensures
        r@ == candidates(
            symbols_view(old@),
            symbols_view(new@),
            free_o@,
            free_n@,
            old@.len() as int,
        ),
{
    let ghost so = symbols_view(old@);
    let ghost sn = symbols_view(new@);
    let mut r: Vec<Candidate> = Vec::new();
    let mut i: usize = 0;
    while i < old.len()
        invariant
            i <= old@.len(),
            so == symbols_view(old@),
            sn == symbols_view(new@),
            free_o@.len() == old@.len(),
            free_n@.len() == new@.len(),
            r@ == candidates(so, sn, free_o@, free_n@, i as int),
        decreases old@.len() - i,
    {
        if free_o[i] {
            let ghost start = r@;
            let mut j: usize = 0;
            assert(start + row(so, sn, free_n@, i as int, 0) =~= start);
            while j < new.len()
                invariant
                    i < old@.len(),
                    j <= new@.len(),
                    so == symbols_view(old@),
                    sn == symbols_view(new@),
                    free_n@.len() == new@.len(),
                    r@ == start + row(so, sn, free_n@, i as int, j as int),
                decreases new@.len() - j,
            {
                let a = &old[i];
                let b = &new[j];
                assert(so[i as int] == a@ && sn[j as int] == b@);
                if free_n[j] && a.identity.kind == b.identity.kind && lengths_fit_of(
                    a.source_text.as_str(),
                    b.source_text.as_str(),
                ) {
                    let score: u32 = jaccard_similarity(
                        a.source_text.as_str(),
                        b.source_text.as_str(),
                    );
                    if score >= SIMILAR {
                        r.push(Candidate { old: i, new: j, score });
                    }
                }
                j = j + 1;
                assert(r@ =~= start + row(so, sn, free_n@, i as int, j as int));
            }
        }
        i = i + 1;
    }
    r
}

/// Pairs the symbols of two versions of a file.
pub fn pair_symbols(old: &[DiffSymbol], new: &[DiffSymbol]) -> (r: Vec<Pairing>)
    ensures
        r@ == pairings(symbols_view(old@), symbols_view(new@)),
        accounted(r@, old@.len() as int, new@.len() as int),
{
    let ghost so = symbols_view(old@);
    let ghost sn = symbols_view(new@);
    let m: usize = old.len();
    let n: usize = new.len();
    let old_ids = index_by_identity(old);
    let new_ids = index_by_identity(new);
    let mut p = pair_by_identity(&old_ids, &new_ids);
    let free_o = old_flags(&p, m);
    let free_n = new_flags(&p, n);
    let old_shapes = structure_groups(old, &free_o);
    let new_shapes = structure_groups(new, &free_n);
    pair_by_structure(&mut p, &old_shapes, &new_shapes);
    assert(p@ == second_pairs(so, sn));
    let ghost p2 = p@;
    let mut free_o = old_flags(&p, m);
    let mut free_n = new_flags(&p, n);
    let mut found = find_candidates(old, new, &free_o, &free_n);
    proof {
        lemma_candidates(so, sn, free_o@, free_n@, m as int);
        crate::sort::law_sort_keeps_elements(found@, best_first());
    }
    let ghost unsorted = found@;
    sort_by(&mut found, better, Ghost(best_first()));
    let ghost c = found@;
    assert(c == ranked(so, sn));
    assert forall|k: int| 0 <= k < c.len() implies (#[trigger] c[k]).old < m && c[k].new < n by {
        broadcast use vstd::seq_lib::group_to_multiset_ensures;

        assert(c.contains(c[k]));
        assert(unsorted.to_multiset().count(c[k]) > 0);
        assert(unsorted.contains(c[k]));
    }
    let mut k: usize = 0;
    while k < found.len()
        invariant
            k <= found@.len(),
            c == found@,
            free_o@ == free_old(p@, m as int),
            free_n@ == free_new(p@, n as int),
            p@ == greedy(p2, c, k as int),
            forall|k: int| 0 <= k < c.len() ==> (#[trigger] c[k]).old < m && c[k].new < n,
        decreases found@.len() - k,
    {
        let x = found[k];
        assert(c[k as int].old < m);
        if free_o[x.old] && free_n[x.new] {
            let q = Pairing {
                old: Some(x.old),
                new: Some(x.new),
                grounds: Grounds::Similar(x.score),
            };
            proof {
                lemma_push(p@, q);
            }
            let ghost before = p@;
            p.push(q);
            free_o[x.old] = false;
            free_n[x.new] = false;
            assert(free_o@ =~= free_old(p@, m as int));
            assert(free_n@ =~= free_new(p@, n as int));
        }
        k = k + 1;
    }
    let ghost p3 = p@;
    assert(p3 == third_pairs(so, sn));
    let mut i: usize = 0;
    assert(p3 + rest_old(p3, 0) =~= p3);
    while i < m
        invariant
            i <= m,
            free_o@ == free_old(p3, m as int),
            p@ == p3 + rest_old(p3, i as int),
        decreases m - i,
    {
        assert(free_o@[i as int] == !touched_old(p3, i as int));
        if free_o[i] {
            p.push(Pairing { old: Some(i), new: None, grounds: Grounds::Alone });
        }
        i = i + 1;
        assert(p@ =~= p3 + rest_old(p3, i as int));
    }
    let ghost p4 = p@;
    let mut j: usize = 0;
    assert(p4 + rest_new(p3, 0) =~= p4);
    while j < n
        invariant
            j <= n,
            free_n@ == free_new(p3, n as int),
            p@ == p4 + rest_new(p3, j as int),
        decreases n - j,
    {
        assert(free_n@[j as int] == !touched_new(p3, j as int));
        if free_n[j] {
            p.push(Pairing { old: None, new: Some(j), grounds: Grounds::Alone });
        }
        j = j + 1;
        assert(p@ =~= p4 + rest_new(p3, j as int));
    }
    proof {
        law_symbols_accounted(so, sn);
    }
    p
}

// ---------------------------------------------------------------------------
// Who is paired with whom
// ---------------------------------------------------------------------------

proof fn lemma_zip_at(a: Seq<int>, b: Seq<int>, n: int, x: int)
    requires
        0 <= x < n,
    ensures
        zip_pairs(a, b, n).len() == n,
        zip_pairs(a, b, n)[x] == (Pairing {
            old: Some(a[x] as usize),
            new: Some(b[x] as usize),
            grounds: Grounds::Identity,
        }),
    decreases n,
{
    lemma_zip_len(a, b, n - 1);
    if x < n - 1 {
        lemma_zip_at(a, b, n - 1, x);
    }
}

proof fn lemma_zip_len(a: Seq<int>, b: Seq<int>, n: int)
    requires
        0 <= n,
    ensures
        zip_pairs(a, b, n).len() == n,
    decreases n,
{
    if n > 0 {
        lemma_zip_len(a, b, n - 1);
    }
}

proof fn lemma_identity_pair<K>(
    old: Seq<(K, Seq<int>)>,
    new: Seq<(K, Seq<int>)>,
    n: int,
    c: int,
    x: int,
)
    requires
        0 <= c < n <= old.len(),
        position(new, old[c].0) is Some,
        0 <= x < min_len(old[c].1, new[position(new, old[c].0)->0].1),
    ensures
        identity_pairs(old, new, n).contains(
            Pairing {
                old: Some(old[c].1[x] as usize),
                new: Some(new[position(new, old[c].0)->0].1[x] as usize),
                grounds: Grounds::Identity,
            },
        ),
    decreases n,
{
    let q = Pairing {
        old: Some(old[c].1[x] as usize),
        new: Some(new[position(new, old[c].0)->0].1[x] as usize),
        grounds: Grounds::Identity,
    };
    let r = identity_pairs(old, new, n - 1);
    let all = identity_pairs(old, new, n);
    if c < n - 1 {
        lemma_identity_pair(old, new, n - 1, c, x);
        let k = choose|k: int| 0 <= k < r.len() && r[k] == q;
        assert(all[k] == q);
    } else {
        let p = position(new, old[c].0)->0;
        lemma_zip_at(old[c].1, new[p].1, min_len(old[c].1, new[p].1), x);
        assert(all[r.len() + x] == q);
    }
}

proof fn lemma_greedy_keeps(p: Seq<Pairing>, c: Seq<Candidate>, n: int)
    ensures
        p.is_prefix_of(greedy(p, c, n)),
    decreases n,
{
    if n > 0 {
        lemma_greedy_keeps(p, c, n - 1);
        let q = greedy(p, c, n - 1);
        let r = greedy(p, c, n);
        assert forall|k: int| 0 <= k < p.len() implies p[k] == r[k] by {
            assert(q.subrange(0, p.len() as int)[k] == q[k]);
        }
        assert(p =~= r.subrange(0, p.len() as int));
    } else {
        assert(p =~= p.subrange(0, p.len() as int));
    }
}

proof fn lemma_second_kept(old: Seq<SymbolView>, new: Seq<SymbolView>, q: Pairing)
    requires
        second_pairs(old, new).contains(q),
    ensures
        pairings(old, new).contains(q),
{
    let p = second_pairs(old, new);
    let t = third_pairs(old, new);
    lemma_greedy_keeps(p, ranked(old, new), ranked(old, new).len() as int);
    let k = choose|k: int| 0 <= k < p.len() && p[k] == q;
    assert(t.subrange(0, p.len() as int)[k] == t[k]);
    assert(pairings(old, new)[k] == q);
}

/// Symbols of one kind, parent and name are paired by that, one by one in their order:
/// the first with the first, the second with the second.
pub proof fn law_same_identity_is_paired(
    old: Seq<SymbolView>,
    new: Seq<SymbolView>,
    o: int,
    n: int,
)
    requires
        old.len() <= usize::MAX,
        new.len() <= usize::MAX,
        0 <= o < old.len(),
        0 <= n < new.len(),
        old[o].identity == new[n].identity,
        crate::groups::occurrences(identities(old).take(o), old[o].identity)
            == crate::groups::occurrences(identities(new).take(n), new[n].identity),
    ensures
        pairings(old, new).contains(
            Pairing { old: Some(o as usize), new: Some(n as usize), grounds: Grounds::Identity },
        ),
{
    let m1 = old.len() as int;
    let m2 = new.len() as int;
    let go = by_identity(old);
    let gn = by_identity(new);
    crate::groups::law_group_places(identities(old), everything(m1), m1, o);
    crate::groups::law_group_places(identities(new), everything(m2), m2, n);
    let c = position(go, old[o].identity)->0;
    let x = crate::groups::occurrences(identities(old).take(o), old[o].identity) as int;
    lemma_identity_pair(go, gn, go.len() as int, c, x);
    let q = Pairing { old: Some(o as usize), new: Some(n as usize), grounds: Grounds::Identity };
    let first = first_pairs(old, new);
    let k = choose|k: int| 0 <= k < first.len() && first[k] == q;
    assert(second_pairs(old, new)[k] == q);
    lemma_second_kept(old, new, q);
}

/// What a pairing of two symbols rests on is so: they have one identity, one kind and
/// structure, or one kind and similar texts.
pub open spec fn justified(old: Seq<SymbolView>, new: Seq<SymbolView>, q: Pairing) -> bool {
    q.old is Some && q.new is Some ==> {
        let a = old[q.old->0 as int];
        let b = new[q.new->0 as int];
        &&& a.identity.kind == b.identity.kind
        &&& match q.grounds {
            Grounds::Identity => a.identity == b.identity,
            Grounds::Structure => a.structural_hash == b.structural_hash,
            Grounds::Similar(s) => s == jaccard(a.source_text, b.source_text) as u32 && jaccard(
                a.source_text,
                b.source_text,
            ) >= 13_421_773,
            _ => false,
        }
    }
}

proof fn lemma_identity_justified(old: Seq<SymbolView>, new: Seq<SymbolView>, n: int, k: int)
    requires
        old.len() <= usize::MAX,
        new.len() <= usize::MAX,
        0 <= n <= by_identity(old).len(),
        0 <= k < identity_pairs(by_identity(old), by_identity(new), n).len(),
    ensures
        justified(old, new, identity_pairs(by_identity(old), by_identity(new), n)[k]),
        identity_pairs(by_identity(old), by_identity(new), n)[k].grounds == Grounds::Identity,
    decreases n,
{
    let go = by_identity(old);
    let gn = by_identity(new);
    let m1 = old.len() as int;
    let m2 = new.len() as int;
    if n > 0 {
        let r = identity_pairs(go, gn, n - 1);
        if k < r.len() {
            lemma_identity_justified(old, new, n - 1, k);
        } else {
            lemma_grouped(identities(old), everything(m1), m1);
            lemma_grouped(identities(new), everything(m2), m2);
            lemma_position(gn, go[n - 1].0);
            let p = position(gn, go[n - 1].0)->0;
            let x = k - r.len();
            lemma_zip_len(go[n - 1].1, gn[p].1, min_len(go[n - 1].1, gn[p].1));
            lemma_zip_at(go[n - 1].1, gn[p].1, min_len(go[n - 1].1, gn[p].1), x);
            let i = go[n - 1].1[x];
            let j = gn[p].1[x];
            assert(identities(old)[i] == go[n - 1].0);
            assert(identities(new)[j] == gn[p].0);
        }
    }
}

proof fn lemma_lone_grounds(a: Seq<int>, n: int, g: Grounds)
    ensures
        forall|k: int|
            0 <= k < lone_old(a, n, g).len() ==> (#[trigger] lone_old(a, n, g)[k]).grounds == g
                && lone_old(a, n, g)[k].new is None,
        forall|k: int|
            0 <= k < lone_new(a, n, g).len() ==> (#[trigger] lone_new(a, n, g)[k]).grounds == g
                && lone_new(a, n, g)[k].old is None,
    decreases n,
{
    if n > 0 {
        lemma_lone_grounds(a, n - 1, g);
        let p = lone_old(a, n - 1, g);
        let r = lone_old(a, n, g);
        assert forall|k: int| 0 <= k < r.len() implies (#[trigger] r[k]).grounds == g && r[k].new is None by {
            if k < p.len() {
                assert(r[k] == p[k]);
            }
        }
        let u = lone_new(a, n - 1, g);
        let v = lone_new(a, n, g);
        assert forall|k: int| 0 <= k < v.len() implies (#[trigger] v[k]).grounds == g && v[k].old is None by {
            if k < u.len() {
                assert(v[k] == u[k]);
            }
        }
    }
}

proof fn lemma_structure_justified(old: Seq<SymbolView>, new: Seq<SymbolView>, n: int, k: int)
    requires
        old.len() <= usize::MAX,
        new.len() <= usize::MAX,
        0 <= n <= old_structures(old, new).len(),
        0 <= k < structure_pairs(old_structures(old, new), new_structures(old, new), n).len(),
    ensures
        justified(
            old,
            new,
            structure_pairs(old_structures(old, new), new_structures(old, new), n)[k],
        ),
        structure_pairs(old_structures(old, new), new_structures(old, new), n)[k].grounds
            != Grounds::Alone,
    decreases n,
{
    let go = old_structures(old, new);
    let gn = new_structures(old, new);
    let m1 = old.len() as int;
    let m2 = new.len() as int;
    if n > 0 {
        let r = structure_pairs(go, gn, n - 1);
        if k < r.len() {
            lemma_structure_justified(old, new, n - 1, k);
        } else {
            let p1 = first_pairs(old, new);
            lemma_grouped(structures(old), free_old(p1, m1), m1);
            lemma_grouped(structures(new), free_new(p1, m2), m2);
            lemma_position(gn, go[n - 1].0);
            let p = position(gn, go[n - 1].0)->0;
            let a = go[n - 1].1;
            let b = gn[p].1;
            let x = k - r.len();
            let g = Grounds::Ambiguous(ambiguity(a.len(), b.len()));
            if a.len() == 1 && b.len() == 1 {
                assert(structures(old)[a[0]] == go[n - 1].0);
                assert(structures(new)[b[0]] == gn[p].0);
            } else {
                lemma_lone_grounds(b, b.len() as int, g);
                lemma_lone_grounds(a, a.len() as int, g);
                let u = lone_new(b, b.len() as int, g);
                let v = lone_old(a, a.len() as int, g);
                if x < u.len() {
                    assert(structure_group(a, b)[x] == u[x]);
                } else {
                    assert(structure_group(a, b)[x] == v[x - u.len()]);
                }
            }
        }
    }
}

/// The candidate is of two symbols that are free and similar.
spec fn is_similar_pair(
    old: Seq<SymbolView>,
    new: Seq<SymbolView>,
    f1: Seq<bool>,
    f2: Seq<bool>,
    c: Candidate,
) -> bool {
    &&& c.old < old.len()
    &&& c.new < new.len()
    &&& f1[c.old as int]
    &&& f2[c.new as int]
    &&& similar(old[c.old as int], new[c.new as int])
    &&& c.score == jaccard(
        old[c.old as int].source_text,
        new[c.new as int].source_text,
    ) as u32
}

proof fn lemma_row_exact(
    old: Seq<SymbolView>,
    new: Seq<SymbolView>,
    f2: Seq<bool>,
    i: int,
    n: int,
)
    requires
        0 <= i < old.len() <= usize::MAX,
        0 <= n <= new.len() <= usize::MAX,
    ensures
        forall|c: Candidate| #[trigger]
            row(old, new, f2, i, n).contains(c) ==> c.old == i && c.new < n && f2[c.new as int]
                && similar(old[i], new[c.new as int]) && c.score == jaccard(
                old[i].source_text,
                new[c.new as int].source_text,
            ) as u32,
        forall|j: int|
            0 <= j < n && f2[j] && similar(old[i], #[trigger] new[j]) ==> exists|c: Candidate| #[trigger]
                row(old, new, f2, i, n).contains(c) && c.old == i && c.new == j,
    decreases n,
{
    if n > 0 {
        lemma_row_exact(old, new, f2, i, n - 1);
        let q = row(old, new, f2, i, n - 1);
        let r = row(old, new, f2, i, n);
        assert forall|c: Candidate| #[trigger] r.contains(c) implies c.old == i && c.new < n
            && f2[c.new as int] && similar(old[i], new[c.new as int]) && c.score == jaccard(
            old[i].source_text,
            new[c.new as int].source_text,
        ) as u32 by {
            let k = choose|k: int| 0 <= k < r.len() && r[k] == c;
            if k < q.len() {
                assert(q[k] == c);
                assert(q.contains(c));
            }
        }
        assert forall|j: int| 0 <= j < n && f2[j] && similar(old[i], #[trigger] new[j]) implies exists|
            c: Candidate,
        | #[trigger] r.contains(c) && c.old == i && c.new == j by {
            if j < n - 1 {
                let c = choose|c: Candidate| #[trigger] q.contains(c) && c.old == i && c.new == j;
                let k = choose|k: int| 0 <= k < q.len() && q[k] == c;
                assert(r[k] == c);
                assert(r.contains(c));
            } else {
                let c = r[q.len() as int];
                assert(r.contains(c));
            }
        }
    }
}

proof fn lemma_candidates_exact(
    old: Seq<SymbolView>,
    new: Seq<SymbolView>,
    f1: Seq<bool>,
    f2: Seq<bool>,
    m: int,
)
    requires
        0 <= m <= old.len() <= usize::MAX,
        new.len() <= usize::MAX,
    ensures
        forall|c: Candidate| #[trigger]
            candidates(old, new, f1, f2, m).contains(c) ==> is_similar_pair(old, new, f1, f2, c),
        forall|i: int, j: int|
            0 <= i < m && 0 <= j < new.len() && f1[i] && f2[j] && #[trigger] similar(
                old[i],
                new[j],
            ) ==> exists|c: Candidate| #[trigger]
                candidates(old, new, f1, f2, m).contains(c) && c.old == i && c.new == j,
    decreases m,
{
    if m > 0 {
        lemma_candidates_exact(old, new, f1, f2, m - 1);
        lemma_row_exact(old, new, f2, m - 1, new.len() as int);
        let q = candidates(old, new, f1, f2, m - 1);
        let w = row(old, new, f2, m - 1, new.len() as int);
        let r = candidates(old, new, f1, f2, m);
        assert forall|c: Candidate| #[trigger] r.contains(c) implies is_similar_pair(
            old,
            new,
            f1,
            f2,
            c,
        ) by {
            let k = choose|k: int| 0 <= k < r.len() && r[k] == c;
            if k < q.len() {
                assert(q[k] == c);
                assert(q.contains(c));
            } else {
                assert(w[k - q.len()] == c);
                assert(w.contains(c));
            }
        }
        assert forall|i: int, j: int|
            0 <= i < m && 0 <= j < new.len() && f1[i] && f2[j] && #[trigger] similar(
                old[i],
                new[j],
            ) implies exists|c: Candidate| #[trigger] r.contains(c) && c.old == i && c.new == j by {
            if i < m - 1 {
                let c = choose|c: Candidate| #[trigger] q.contains(c) && c.old == i && c.new == j;
                let k = choose|k: int| 0 <= k < q.len() && q[k] == c;
                assert(r[k] == c);
                assert(r.contains(c));
            } else {
                let c = choose|c: Candidate| #[trigger] w.contains(c) && c.old == i && c.new == j;
                let k = choose|k: int| 0 <= k < w.len() && w[k] == c;
                assert(r[q.len() + k] == c);
                assert(r.contains(c));
            }
        }
    }
}

proof fn lemma_greedy_takes(p: Seq<Pairing>, c: Seq<Candidate>, n: int)
    requires
        0 <= n <= c.len(),
    ensures
        forall|i: int| touched_old(p, i) ==> #[trigger] touched_old(greedy(p, c, n), i),
        forall|i: int| touched_new(p, i) ==> #[trigger] touched_new(greedy(p, c, n), i),
        forall|k: int|
            0 <= k < n ==> touched_old(greedy(p, c, n), (#[trigger] c[k]).old as int) || touched_new(
                greedy(p, c, n),
                c[k].new as int,
            ),
        forall|k: int|
            p.len() <= k < greedy(p, c, n).len() ==> exists|x: int|
                0 <= x < n && #[trigger] greedy(p, c, n)[k] == (Pairing {
                    old: Some((#[trigger] c[x]).old),
                    new: Some(c[x].new),
                    grounds: Grounds::Similar(c[x].score),
                }),
    decreases n,
{
    if n > 0 {
        lemma_greedy_takes(p, c, n - 1);
        lemma_greedy_keeps(p, c, n - 1);
        let q = greedy(p, c, n - 1);
        let r = greedy(p, c, n);
        let x = c[n - 1];
        let y = Pairing { old: Some(x.old), new: Some(x.new), grounds: Grounds::Similar(x.score) };
        lemma_push(q, y);
        assert forall|k: int| 0 <= k < n implies touched_old(r, (#[trigger] c[k]).old as int)
            || touched_new(r, c[k].new as int) by {
            if k < n - 1 {
                assert(touched_old(q, c[k].old as int) || touched_new(q, c[k].new as int));
            } else if r.len() > q.len() {
                assert(holds(y.old, x.old as int));
            }
        }
        assert forall|k: int| p.len() <= k < r.len() implies exists|x: int|
            0 <= x < n && #[trigger] r[k] == (Pairing {
                old: Some((#[trigger] c[x]).old),
                new: Some(c[x].new),
                grounds: Grounds::Similar(c[x].score),
            }) by {
            if k < q.len() {
                assert(r[k] == q[k]);
                let x = choose|x: int|
                    0 <= x < n - 1 && q[k] == (Pairing {
                        old: Some((#[trigger] c[x]).old),
                        new: Some(c[x].new),
                        grounds: Grounds::Similar(c[x].score),
                    });
                assert(c[x].old == c[x].old);
            } else {
                assert(c[n - 1].old == x.old);
            }
        }
    }
}

proof fn lemma_third(old: Seq<SymbolView>, new: Seq<SymbolView>, k: int)
    requires
        old.len() <= usize::MAX,
        new.len() <= usize::MAX,
        0 <= k < third_pairs(old, new).len(),
    ensures
        justified(old, new, third_pairs(old, new)[k]),
        third_pairs(old, new)[k].grounds != Grounds::Alone,
{
    let p1 = first_pairs(old, new);
    let p2 = second_pairs(old, new);
    let p3 = third_pairs(old, new);
    let c = ranked(old, new);
    let m1 = old.len() as int;
    let m2 = new.len() as int;
    lemma_greedy_keeps(p2, c, c.len() as int);
    if k < p2.len() {
        assert(p3.subrange(0, p2.len() as int)[k] == p3[k]);
        if k < p1.len() {
            lemma_identity_justified(old, new, by_identity(old).len() as int, k);
            assert(p2[k] == p1[k]);
        } else {
            lemma_structure_justified(
                old,
                new,
                old_structures(old, new).len() as int,
                k - p1.len(),
            );
        }
    } else {
        lemma_greedy_takes(p2, c, c.len() as int);
        let x = choose|x: int|
            0 <= x < c.len() && p3[k] == (Pairing {
                old: Some((#[trigger] c[x]).old),
                new: Some(c[x].new),
                grounds: Grounds::Similar(c[x].score),
            });
        let all = candidates(old, new, free_old(p2, m1), free_new(p2, m2), m1);
        lemma_candidates_exact(old, new, free_old(p2, m1), free_new(p2, m2), m1);
        assert(c.contains(c[x]));
        crate::sort::law_sort_keeps_members(all, best_first(), c[x]);
    }
}

proof fn lemma_rest_alone(p: Seq<Pairing>, n: int)
    ensures
        forall|k: int|
            0 <= k < rest_old(p, n).len() ==> (#[trigger] rest_old(p, n)[k]).new is None
                && rest_old(p, n)[k].grounds == Grounds::Alone,
        forall|k: int|
            0 <= k < rest_new(p, n).len() ==> (#[trigger] rest_new(p, n)[k]).old is None
                && rest_new(p, n)[k].grounds == Grounds::Alone,
        n <= usize::MAX ==> forall|k: int|
            0 <= k < rest_old(p, n).len() ==> (#[trigger] rest_old(p, n)[k]).old is Some
                && !touched_old(p, rest_old(p, n)[k].old->0 as int),
        n <= usize::MAX ==> forall|k: int|
            0 <= k < rest_new(p, n).len() ==> (#[trigger] rest_new(p, n)[k]).new is Some
                && !touched_new(p, rest_new(p, n)[k].new->0 as int),
    decreases n,
{
    if n > 0 {
        lemma_rest_alone(p, n - 1);
        let a = rest_old(p, n - 1);
        let b = rest_old(p, n);
        assert forall|k: int| 0 <= k < b.len() implies (#[trigger] b[k]).new is None && b[k].grounds
            == Grounds::Alone by {
            if k < a.len() {
                assert(b[k] == a[k]);
            }
        }
        let u = rest_new(p, n - 1);
        let v = rest_new(p, n);
        assert forall|k: int| 0 <= k < v.len() implies (#[trigger] v[k]).old is None && v[k].grounds
            == Grounds::Alone by {
            if k < u.len() {
                assert(v[k] == u[k]);
            }
        }
        if n <= usize::MAX {
            assert forall|k: int| 0 <= k < b.len() implies (#[trigger] b[k]).old is Some
                && !touched_old(p, b[k].old->0 as int) by {
                if k < a.len() {
                    assert(b[k] == a[k]);
                }
            }
            assert forall|k: int| 0 <= k < v.len() implies (#[trigger] v[k]).new is Some
                && !touched_new(p, v[k].new->0 as int) by {
                if k < u.len() {
                    assert(v[k] == u[k]);
                }
            }
        }
    }
}

/// Two symbols are paired only where there are grounds for it.
pub proof fn law_pairs_are_justified(old: Seq<SymbolView>, new: Seq<SymbolView>, k: int)
    requires
        old.len() <= usize::MAX,
        new.len() <= usize::MAX,
        0 <= k < pairings(old, new).len(),
    ensures
        justified(old, new, pairings(old, new)[k]),
{
    let p = third_pairs(old, new);
    let a = rest_old(p, old.len() as int);
    let b = rest_new(p, new.len() as int);
    lemma_rest_alone(p, old.len() as int);
    lemma_rest_alone(p, new.len() as int);
    if k < p.len() {
        lemma_third(old, new, k);
        assert(pairings(old, new)[k] == p[k]);
    } else if k < p.len() + a.len() {
        assert(pairings(old, new)[k] == a[k - p.len()]);
    } else {
        assert(pairings(old, new)[k] == b[k - p.len() - a.len()]);
    }
}

/// What is similar finds a counterpart: of two symbols that are both left alone, the
/// kinds differ or the texts are less than eight tenths alike.
pub proof fn law_similar_symbols_are_paired(
    old: Seq<SymbolView>,
    new: Seq<SymbolView>,
    o: int,
    n: int,
)
    requires
        old.len() <= usize::MAX,
        new.len() <= usize::MAX,
        0 <= o < old.len(),
        0 <= n < new.len(),
        pairings(old, new).contains(
            Pairing { old: Some(o as usize), new: None, grounds: Grounds::Alone },
        ),
        pairings(old, new).contains(
            Pairing { old: None, new: Some(n as usize), grounds: Grounds::Alone },
        ),
    ensures
        old[o].identity.kind != new[n].identity.kind || !lengths_fit(
            old[o].source_text,
            new[n].source_text,
        ) || jaccard(old[o].source_text, new[n].source_text) < 13_421_773,
{
    let p = third_pairs(old, new);
    let p2 = second_pairs(old, new);
    let a = rest_old(p, old.len() as int);
    let b = rest_new(p, new.len() as int);
    let all = pairings(old, new);
    lemma_rest_alone(p, old.len() as int);
    lemma_rest_alone(p, new.len() as int);
    let qo = Pairing { old: Some(o as usize), new: None, grounds: Grounds::Alone };
    let qn = Pairing { old: None, new: Some(n as usize), grounds: Grounds::Alone };
    let i = choose|i: int| 0 <= i < all.len() && all[i] == qo;
    let j = choose|j: int| 0 <= j < all.len() && all[j] == qn;
    if i < p.len() {
        lemma_third(old, new, i);
        assert(p[i] == qo);
    }
    if j < p.len() {
        lemma_third(old, new, j);
        assert(p[j] == qn);
    }
    if i >= p.len() + a.len() {
        assert(b[i - p.len() - a.len()] == qo);
    } else {
        assert(a[i - p.len()] == qo);
    }
    if j < p.len() + a.len() {
        assert(a[j - p.len()] == qn);
    } else {
        assert(b[j - p.len() - a.len()] == qn);
    }
    assert(!touched_old(p, o));
    assert(!touched_new(p, n));
    if similar(old[o], new[n]) {
        let m1 = old.len() as int;
        let m2 = new.len() as int;
        let c = ranked(old, new);
        let f1 = free_old(p2, m1);
        let f2 = free_new(p2, m2);
        lemma_greedy_takes(p2, c, c.len() as int);
        if touched_old(p2, o) {
            assert(touched_old(p, o));
        }
        if touched_new(p2, n) {
            assert(touched_new(p, n));
        }
        lemma_candidates_exact(old, new, f1, f2, m1);
        assert(f1[o] && f2[n]);
        let found = candidates(old, new, f1, f2, m1);
        let x = choose|x: Candidate| #[trigger] found.contains(x) && x.old == o && x.new == n;
        crate::sort::law_sort_keeps_members(found, best_first(), x);
        let k = choose|k: int| 0 <= k < c.len() && c[k] == x;
        assert(touched_old(p, c[k].old as int) || touched_new(p, c[k].new as int));
    }
}

/// Of the words of a text each is taken once, and none is left out.
pub proof fn law_each_word_is_taken_once(s: Seq<Seq<char>>, x: Seq<char>)
    ensures
        distinct(s).contains(x) <==> s.contains(x),
        distinct(s).no_duplicates(),
    decreases s.len(),
{
    if s.len() > 0 {
        let t = s.drop_last();
        law_each_word_is_taken_once(t, x);
        law_each_word_is_taken_once(t, s.last());
        let r = distinct(t);
        let d = distinct(s);
        if t.contains(x) {
            let k = choose|k: int| 0 <= k < t.len() && t[k] == x;
            assert(s[k] == x);
        }
        if s.contains(x) {
            let k = choose|k: int| 0 <= k < s.len() && s[k] == x;
            if k < s.len() - 1 {
                assert(t[k] == x);
            }
        }
        if r.contains(x) {
            let k = choose|k: int| 0 <= k < r.len() && r[k] == x;
            assert(d[k] == x);
        }
        if d.contains(x) {
            let k = choose|k: int| 0 <= k < d.len() && d[k] == x;
            if k < r.len() {
                assert(r[k] == x);
            } else {
                assert(s[s.len() - 1] == x);
            }
        }
        if !r.contains(s.last()) {
            assert(d[r.len() as int] == s.last());
            assert forall|i: int, j: int| 0 <= i < d.len() && 0 <= j < d.len() && i != j implies d[i]
                != d[j] by {
                if i < r.len() && j < r.len() {
                    assert(r[i] != r[j]);
                } else if i < r.len() {
                    assert(r.contains(r[i]));
                } else {
                    assert(r.contains(r[j]));
                }
            }
        }
    }
}

/// The words that two texts share are those of the one that the other has.
pub proof fn law_shared_words_are_counted(a: Seq<Seq<char>>, b: Seq<Seq<char>>, n: int)
    requires
        0 <= n <= a.len(),
    ensures
        common(a, b, n) == a.take(n).filter(|x: Seq<char>| b.contains(x)).len(),
        common(a, b, n) <= n,
    decreases n,
{
    reveal(Seq::filter);
    if n > 0 {
        law_shared_words_are_counted(a, b, n - 1);
        assert(a.take(n).drop_last() =~= a.take(n - 1));
        assert(a.take(n).last() == a[n - 1]);
    } else {
        assert(a.take(0) =~= Seq::<Seq<char>>::empty());
    }
}

proof fn lemma_all_shared(a: Seq<Seq<char>>, n: int)
    requires
        0 <= n <= a.len(),
    ensures
        common(a, a, n) == n,
    decreases n,
{
    if n > 0 {
        lemma_all_shared(a, n - 1);
        assert(a.contains(a[n - 1]));
    }
}

proof fn lemma_none_shared(a: Seq<Seq<char>>, b: Seq<Seq<char>>, n: int)
    requires
        0 <= n <= a.len(),
        forall|i: int| 0 <= i < a.len() ==> !b.contains(#[trigger] a[i]),
    ensures
        common(a, b, n) == 0,
    decreases n,
{
    if n > 0 {
        lemma_none_shared(a, b, n - 1);
        assert(!b.contains(a[n - 1]));
    }
}

/// A text is as similar to itself as can be, wherever it has words, and texts that share
/// no word are not similar at all.
pub proof fn law_similarity_of_extremes(a: Seq<char>, b: Seq<char>)
    ensures
        words(a).len() > 0 ==> jaccard(a, a) == 0x100_0000,
        (forall|i: int| 0 <= i < words(a).len() ==> !words(b).contains(#[trigger] words(a)[i]))
            ==> jaccard(a, b) == 0,
{
    let x = distinct(words(a));
    let y = distinct(words(b));
    let n = x.len();
    lemma_all_shared(x, n as int);
    if words(a).len() > 0 {
        law_each_word_is_taken_once(words(a), words(a)[0]);
        assert(words(a).contains(words(a)[0]));
        assert(x.contains(words(a)[0]));
        assert(n > 0);
        assert((n * 0x100_0000) / n == 0x100_0000 && (n * 0x100_0000) % n == 0) by (nonlinear_arith)
            requires
                n > 0,
        ;
    }
    if forall|i: int| 0 <= i < words(a).len() ==> !words(b).contains(#[trigger] words(a)[i]) {
        assert forall|i: int| 0 <= i < x.len() implies !y.contains(#[trigger] x[i]) by {
            law_each_word_is_taken_once(words(a), x[i]);
            law_each_word_is_taken_once(words(b), x[i]);
            assert(x.contains(x[i]));
            let k = choose|k: int| 0 <= k < words(a).len() && words(a)[k] == x[i];
            assert(!words(b).contains(words(a)[k]));
        }
        lemma_none_shared(x, y, n as int);
        let m = x.len() + y.len();
        if m > 0 {
            assert((0 * 0x100_0000nat) / m == 0 && (0 * 0x100_0000nat) % m == 0) by (nonlinear_arith)
                requires
                    m > 0,
            ;
        }
    }
}

proof fn lemma_free_of_identity(old: Seq<SymbolView>, new: Seq<SymbolView>, o: int, n: int)
    requires
        old.len() <= usize::MAX,
        new.len() <= usize::MAX,
        0 <= o < old.len(),
        0 <= n < new.len(),
        forall|j: int| 0 <= j < new.len() ==> (#[trigger] new[j]).identity != old[o].identity,
        forall|j: int| 0 <= j < old.len() ==> (#[trigger] old[j]).identity != new[n].identity,
    ensures
        free_old(first_pairs(old, new), old.len() as int)[o],
        free_new(first_pairs(old, new), new.len() as int)[n],
{
    let p = first_pairs(old, new);
    let m = by_identity(old).len() as int;
    if touched_old(p, o) {
        let k = choose|k: int| 0 <= k < p.len() && holds((#[trigger] p[k]).old, o);
        lemma_identity_pairs_whole(old, new, m, k);
        lemma_identity_justified(old, new, m, k);
        assert(new[p[k].new->0 as int].identity != old[o].identity);
    }
    if touched_new(p, n) {
        let k = choose|k: int| 0 <= k < p.len() && holds((#[trigger] p[k]).new, n);
        lemma_identity_pairs_whole(old, new, m, k);
        lemma_identity_justified(old, new, m, k);
        assert(old[p[k].old->0 as int].identity != new[n].identity);
    }
}

proof fn lemma_identity_pairs_whole(old: Seq<SymbolView>, new: Seq<SymbolView>, n: int, k: int)
    requires
        old.len() <= usize::MAX,
        new.len() <= usize::MAX,
        0 <= n <= by_identity(old).len(),
        0 <= k < identity_pairs(by_identity(old), by_identity(new), n).len(),
    ensures
        ({
            let q = identity_pairs(by_identity(old), by_identity(new), n)[k];
            &&& q.old is Some && q.old->0 < old.len()
            &&& q.new is Some && q.new->0 < new.len()
        }),
    decreases n,
{
    let go = by_identity(old);
    let gn = by_identity(new);
    let m1 = old.len() as int;
    let m2 = new.len() as int;
    if n > 0 {
        let r = identity_pairs(go, gn, n - 1);
        if k < r.len() {
            lemma_identity_pairs_whole(old, new, n - 1, k);
        } else {
            lemma_grouped(identities(old), everything(m1), m1);
            lemma_grouped(identities(new), everything(m2), m2);
            lemma_position(gn, go[n - 1].0);
            let p = position(gn, go[n - 1].0)->0;
            let x = k - r.len();
            lemma_zip_len(go[n - 1].1, gn[p].1, min_len(go[n - 1].1, gn[p].1));
            lemma_zip_at(go[n - 1].1, gn[p].1, min_len(go[n - 1].1, gn[p].1), x);
            let i = go[n - 1].1[x];
            let j = gn[p].1[x];
            assert(identities(old)[i] == go[n - 1].0);
            assert(identities(new)[j] == gn[p].0);
        }
    }
}

proof fn lemma_lone_group<K>(keys: Seq<K>, picked: Seq<bool>, i: int) -> (a: int)
    requires
        0 <= i < keys.len(),
        picked.len() == keys.len(),
        picked[i],
        forall|j: int| 0 <= j < keys.len() && j != i ==> #[trigger] keys[j] != keys[i],
    ensures
        0 <= a < grouped(keys, picked, keys.len() as int).len(),
        grouped(keys, picked, keys.len() as int)[a].0 == keys[i],
        grouped(keys, picked, keys.len() as int)[a].1 == seq![i],
        position(grouped(keys, picked, keys.len() as int), keys[i]) == Some(a),
{
    let n = keys.len() as int;
    let g = grouped(keys, picked, n);
    crate::groups::law_groups_cover(keys, picked, n, i);
    let a = choose|a: int| 0 <= a < g.len() && (#[trigger] g[a]).0 == keys[i] && g[a].1.contains(i);
    let m = g[a].1;
    assert forall|x: int| 0 <= x < m.len() implies m[x] == i by {
        let j = g[a].1[x];
        assert(keys[j] == g[a].0);
    }
    if m.len() > 1 {
        assert(g[a].1[0] < g[a].1[1]);
        assert(m[0] == i && m[1] == i);
    }
    assert(m =~= seq![i]);
    lemma_position(g, keys[i]);
    let p = position(g, keys[i])->0;
    if p < a {
        assert(g[p].0 != g[a].0);
    } else if a < p {
        assert(g[a].0 != g[p].0);
    }
    a
}

proof fn lemma_structure_pair<K>(old: Seq<(K, Seq<int>)>, new: Seq<(K, Seq<int>)>, n: int, a: int, b: int)
    requires
        0 <= a < n <= old.len(),
        position(new, old[a].0) == Some(b),
        0 <= b < new.len(),
        old[a].1.len() == 1,
        new[b].1.len() == 1,
    ensures
        structure_pairs(old, new, n).contains(
            Pairing {
                old: Some(old[a].1[0] as usize),
                new: Some(new[b].1[0] as usize),
                grounds: Grounds::Structure,
            },
        ),
    decreases n,
{
    let r = structure_pairs(old, new, n - 1);
    let t = structure_pairs(old, new, n);
    let q = Pairing {
        old: Some(old[a].1[0] as usize),
        new: Some(new[b].1[0] as usize),
        grounds: Grounds::Structure,
    };
    if a < n - 1 {
        lemma_structure_pair(old, new, n - 1, a, b);
        let k = choose|k: int| 0 <= k < r.len() && r[k] == q;
        assert(t[k] == q);
    } else {
        assert(t[r.len() as int] == q);
    }
}

/// A symbol that was renamed is found again by its structure: an old and a new one of
/// one kind and structure, the only ones of it on their sides, are paired where neither
/// has a counterpart by name.
pub proof fn law_same_structure_is_paired(
    old: Seq<SymbolView>,
    new: Seq<SymbolView>,
    o: int,
    n: int,
)
    requires
        old.len() <= usize::MAX,
        new.len() <= usize::MAX,
        0 <= o < old.len(),
        0 <= n < new.len(),
        old[o].identity.kind == new[n].identity.kind,
        old[o].structural_hash == new[n].structural_hash,
        forall|j: int| 0 <= j < new.len() ==> (#[trigger] new[j]).identity != old[o].identity,
        forall|j: int| 0 <= j < old.len() ==> (#[trigger] old[j]).identity != new[n].identity,
        forall|j: int|
            0 <= j < old.len() && j != o ==> (#[trigger] old[j]).structural_hash
                != old[o].structural_hash,
        forall|j: int|
            0 <= j < new.len() && j != n ==> (#[trigger] new[j]).structural_hash
                != new[n].structural_hash,
    ensures
        pairings(old, new).contains(
            Pairing { old: Some(o as usize), new: Some(n as usize), grounds: Grounds::Structure },
        ),
{
    let so = structures(old);
    let sn = structures(new);
    let p1 = first_pairs(old, new);
    lemma_free_of_identity(old, new, o, n);
    assert(so[o] == sn[n]);
    assert forall|j: int| 0 <= j < so.len() && j != o implies #[trigger] so[j] != so[o] by {
        assert(old[j].structural_hash != old[o].structural_hash);
    }
    assert forall|j: int| 0 <= j < sn.len() && j != n implies #[trigger] sn[j] != sn[n] by {
        assert(new[j].structural_hash != new[n].structural_hash);
    }
    let a = lemma_lone_group(so, free_old(p1, old.len() as int), o);
    let b = lemma_lone_group(sn, free_new(p1, new.len() as int), n);
    let go = old_structures(old, new);
    let gn = new_structures(old, new);
    lemma_structure_pair(go, gn, go.len() as int, a, b);
    let t = structure_pairs(go, gn, go.len() as int);
    let q = Pairing { old: Some(o as usize), new: Some(n as usize), grounds: Grounds::Structure };
    let k = choose|k: int| 0 <= k < t.len() && t[k] == q;
    assert(second_pairs(old, new)[p1.len() + k] == q);
    lemma_second_kept(old, new, q);
}

} // verus!
