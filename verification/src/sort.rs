//! Stable sorting by insertion.
use vstd::multiset::*;
use vstd::prelude::*;
use vstd::seq_lib::*;

verus! {

/// The sequence with `x` put after the last element that may precede it.
pub open spec fn insert_sorted<T>(s: Seq<T>, x: T, le: spec_fn(T, T) -> bool) -> Seq<T>
    decreases s.len(),
{
    if s.len() == 0 {
        seq![x]
    } else if le(s.last(), x) {
        s.push(x)
    } else {
        insert_sorted(s.drop_last(), x, le).push(s.last())
    }
}

/// The elements in the order `le`; those that are equal in it keep their order.
pub open spec fn stable_sort<T>(s: Seq<T>, le: spec_fn(T, T) -> bool) -> Seq<T>
    decreases s.len(),
{
    if s.len() == 0 {
        s
    } else {
        insert_sorted(stable_sort(s.drop_last(), le), s.last(), le)
    }
}

/// Each element may precede those after it.
pub open spec fn in_order<T>(s: Seq<T>, le: spec_fn(T, T) -> bool) -> bool {
    forall|i: int, j: int| 0 <= i < j < s.len() ==> le(#[trigger] s[i], #[trigger] s[j])
}

/// Any two elements are ordered one way at least, and the order is transitive.
pub open spec fn is_preorder<T>(le: spec_fn(T, T) -> bool) -> bool {
    &&& forall|a: T, b: T| #[trigger] le(a, b) || le(b, a)
    &&& forall|a: T, b: T, c: T| #[trigger] le(a, b) && #[trigger] le(b, c) ==> le(a, c)
}

proof fn lemma_insert_multiset<T>(s: Seq<T>, x: T, le: spec_fn(T, T) -> bool)
    ensures
        insert_sorted(s, x, le).to_multiset() == s.to_multiset().insert(x),
        insert_sorted(s, x, le).len() == s.len() + 1,
    decreases s.len(),
{
    broadcast use group_to_multiset_ensures;

    if s.len() == 0 {
        assert(seq![x] =~= s.push(x));
    } else if !le(s.last(), x) {
        lemma_insert_multiset(s.drop_last(), x, le);
        assert(s =~= s.drop_last().push(s.last()));
        assert(s.to_multiset().insert(x) =~= s.drop_last().to_multiset().insert(x).insert(
            s.last(),
        ));
    }
}

/// Sorting loses no element and adds none.
pub proof fn law_sort_keeps_elements<T>(s: Seq<T>, le: spec_fn(T, T) -> bool)
    ensures
        stable_sort(s, le).to_multiset() == s.to_multiset(),
        stable_sort(s, le).len() == s.len(),
    decreases s.len(),
{
    broadcast use group_to_multiset_ensures;

    if s.len() > 0 {
        law_sort_keeps_elements(s.drop_last(), le);
        lemma_insert_multiset(stable_sort(s.drop_last(), le), s.last(), le);
        assert(s =~= s.drop_last().push(s.last()));
    }
}

/// Sorting keeps what is in a list, and nothing else.
pub proof fn law_sort_keeps_members<T>(s: Seq<T>, le: spec_fn(T, T) -> bool, x: T)
    ensures
        stable_sort(s, le).contains(x) <==> s.contains(x),
{
    broadcast use group_to_multiset_ensures;

    law_sort_keeps_elements(s, le);
    assert(stable_sort(s, le).to_multiset().count(x) > 0 <==> stable_sort(s, le).contains(x));
    assert(s.to_multiset().count(x) > 0 <==> s.contains(x));
}

proof fn lemma_insert_contains<T>(s: Seq<T>, x: T, le: spec_fn(T, T) -> bool, i: int)
    requires
        0 <= i < insert_sorted(s, x, le).len(),
    ensures
        insert_sorted(s, x, le)[i] == x || s.contains(insert_sorted(s, x, le)[i]),
{
    broadcast use group_to_multiset_ensures;

    lemma_insert_multiset(s, x, le);
    let r = insert_sorted(s, x, le);
    assert(r.contains(r[i]));
    assert(r.to_multiset().count(r[i]) > 0);
    if r[i] != x {
        assert(s.to_multiset().count(r[i]) > 0);
    }
}

proof fn lemma_insert_in_order<T>(s: Seq<T>, x: T, le: spec_fn(T, T) -> bool)
    requires
        is_preorder(le),
        in_order(s, le),
    ensures
        in_order(insert_sorted(s, x, le), le),
    decreases s.len(),
{
    let r = insert_sorted(s, x, le);
    if s.len() == 0 {
    } else if le(s.last(), x) {
        assert forall|i: int, j: int| 0 <= i < j < r.len() implies le(#[trigger] r[i], #[trigger] r[j]) by {
            if j == s.len() && i < s.len() - 1 {
                assert(le(s[i], s.last()));
            }
        }
    } else {
        let t = insert_sorted(s.drop_last(), x, le);
        assert(in_order(s.drop_last(), le)) by {
            assert forall|i: int, j: int| 0 <= i < j < s.drop_last().len() implies le(
                #[trigger] s.drop_last()[i],
                #[trigger] s.drop_last()[j],
            ) by {
                assert(le(s[i], s[j]));
            }
        }
        lemma_insert_in_order(s.drop_last(), x, le);
        lemma_insert_multiset(s.drop_last(), x, le);
        assert forall|i: int, j: int| 0 <= i < j < r.len() implies le(#[trigger] r[i], #[trigger] r[j]) by {
            if j == t.len() {
                lemma_insert_contains(s.drop_last(), x, le, i);
                if t[i] != x {
                    let k = choose|k: int| 0 <= k < s.drop_last().len() && s.drop_last()[k] == t[i];
                    assert(le(s[k], s.last()));
                } else {
                    assert(le(x, s.last()) || le(s.last(), x));
                }
            }
        }
    }
}

/// What sorting gives is in order.
pub proof fn law_sort_orders<T>(s: Seq<T>, le: spec_fn(T, T) -> bool)
    requires
        is_preorder(le),
    ensures
        in_order(stable_sort(s, le), le),
    decreases s.len(),
{
    if s.len() > 0 {
        law_sort_orders(s.drop_last(), le);
        lemma_insert_in_order(stable_sort(s.drop_last(), le), s.last(), le);
    }
}

proof fn lemma_insert_map<T, U>(
    s: Seq<T>,
    x: T,
    f: spec_fn(T) -> U,
    le: spec_fn(T, T) -> bool,
    order: spec_fn(U, U) -> bool,
)
    requires
        forall|a: T, b: T| #[trigger] le(a, b) == order(f(a), f(b)),
    ensures
        insert_sorted(s, x, le).map_values(f) == insert_sorted(s.map_values(f), f(x), order),
    decreases s.len(),
{
    let m = s.map_values(f);
    if s.len() == 0 {
        assert(seq![x].map_values(f) =~= seq![f(x)]);
    } else {
        assert(le(s.last(), x) == order(f(s.last()), f(x)));
        assert(m.last() == f(s.last()));
        if le(s.last(), x) {
            assert(s.push(x).map_values(f) =~= m.push(f(x)));
        } else {
            lemma_insert_map(s.drop_last(), x, f, le, order);
            assert(s.drop_last().map_values(f) =~= m.drop_last());
            let t = insert_sorted(s.drop_last(), x, le);
            assert(t.push(s.last()).map_values(f) =~= t.map_values(f).push(f(s.last())));
        }
    }
}

/// Sorting by what elements say sorts what they say.
pub proof fn lemma_sort_map<T, U>(
    s: Seq<T>,
    f: spec_fn(T) -> U,
    le: spec_fn(T, T) -> bool,
    order: spec_fn(U, U) -> bool,
)
    requires
        forall|a: T, b: T| #[trigger] le(a, b) == order(f(a), f(b)),
    ensures
        stable_sort(s, le).map_values(f) == stable_sort(s.map_values(f), order),
    decreases s.len(),
{
    if s.len() == 0 {
        assert(s.map_values(f) =~= Seq::empty());
        assert(stable_sort(s, le).map_values(f) =~= Seq::empty());
    } else {
        lemma_sort_map(s.drop_last(), f, le, order);
        assert(s.drop_last().map_values(f) =~= s.map_values(f).drop_last());
        lemma_insert_map(stable_sort(s.drop_last(), le), s.last(), f, le, order);
    }
}

/// No two elements of the sequence that differ are equal in the order.
pub open spec fn distinguishes<T>(s: Seq<T>, le: spec_fn(T, T) -> bool) -> bool {
    forall|a: T, b: T|
        s.contains(a) && s.contains(b) && #[trigger] le(a, b) && le(b, a) ==> a == b
}

proof fn lemma_in_order_unique<T>(s: Seq<T>, t: Seq<T>, le: spec_fn(T, T) -> bool)
    requires
        in_order(s, le),
        in_order(t, le),
        is_preorder(le),
        distinguishes(s, le),
        s.to_multiset() == t.to_multiset(),
    ensures
        s == t,
    decreases s.len(),
{
    broadcast use group_to_multiset_ensures;

    assert(s.to_multiset().len() == s.len());
    assert(t.to_multiset().len() == t.len());
    if s.len() > 0 {
        let x = s.last();
        let y = t.last();
        assert(s.to_multiset().count(x) > 0);
        assert(t.to_multiset().count(y) > 0);
        assert(t.contains(x));
        assert(s.contains(y));
        let i = choose|i: int| 0 <= i < t.len() && t[i] == x;
        let j = choose|j: int| 0 <= j < s.len() && s[j] == y;
        assert(le(x, y)) by {
            assert(le(y, y) || le(y, y));
            if i < t.len() - 1 {
                assert(le(t[i], t[t.len() - 1]));
            }
        }
        assert(le(y, x)) by {
            if j < s.len() - 1 {
                assert(le(s[j], s[s.len() - 1]));
            }
        }
        assert(x == y);
        let a = s.drop_last();
        let b = t.drop_last();
        assert(s =~= a.push(x));
        assert(t =~= b.push(x));
        assert(a.to_multiset() =~= s.to_multiset().remove(x));
        assert(b.to_multiset() =~= t.to_multiset().remove(x));
        assert(in_order(a, le)) by {
            assert forall|i: int, j: int| 0 <= i < j < a.len() implies le(
                #[trigger] a[i],
                #[trigger] a[j],
            ) by {
                assert(le(s[i], s[j]));
            }
        }
        assert(in_order(b, le)) by {
            assert forall|i: int, j: int| 0 <= i < j < b.len() implies le(
                #[trigger] b[i],
                #[trigger] b[j],
            ) by {
                assert(le(t[i], t[j]));
            }
        }
        assert(distinguishes(a, le)) by {
            assert forall|p: T, q: T|
                a.contains(p) && a.contains(q) && #[trigger] le(p, q) && le(q, p) implies p == q by {
                let k = choose|k: int| 0 <= k < a.len() && a[k] == p;
                let l = choose|l: int| 0 <= l < a.len() && a[l] == q;
                assert(s[k] == p && s[l] == q);
                assert(s.contains(p) && s.contains(q));
            }
        }
        lemma_in_order_unique(a, b, le);
    } else {
        assert(s =~= t);
    }
}

/// Sorting gives the same for any order of the same elements, where the order
/// tells them apart.
pub proof fn law_sort_ignores_order<T>(s: Seq<T>, t: Seq<T>, le: spec_fn(T, T) -> bool)
    requires
        is_preorder(le),
        distinguishes(s, le),
        s.to_multiset() == t.to_multiset(),
    ensures
        stable_sort(s, le) == stable_sort(t, le),
{
    broadcast use group_to_multiset_ensures;

    law_sort_keeps_elements(s, le);
    law_sort_keeps_elements(t, le);
    law_sort_orders(s, le);
    law_sort_orders(t, le);
    let a = stable_sort(s, le);
    assert(distinguishes(a, le)) by {
        assert forall|p: T, q: T|
            a.contains(p) && a.contains(q) && #[trigger] le(p, q) && le(q, p) implies p == q by {
            assert(a.to_multiset().count(p) > 0);
            assert(a.to_multiset().count(q) > 0);
            assert(s.contains(p));
            assert(s.contains(q));
        }
    }
    lemma_in_order_unique(a, stable_sort(t, le), le);
}

/// The elements that are equal to `x` in the order, as they follow one another.
pub open spec fn ties<T>(s: Seq<T>, x: T, le: spec_fn(T, T) -> bool) -> Seq<T> {
    s.filter(|y: T| le(x, y) && le(y, x))
}

/// Elements that are equal in the order follow one another in both the same way.
pub open spec fn same_ties<T>(s: Seq<T>, t: Seq<T>, le: spec_fn(T, T) -> bool) -> bool {
    forall|x: T| #[trigger] ties(s, x, le) == ties(t, x, le)
}

proof fn lemma_ties_push<T>(s: Seq<T>, y: T, x: T, le: spec_fn(T, T) -> bool)
    ensures
        ties(s.push(y), x, le) == if le(x, y) && le(y, x) {
            ties(s, x, le).push(y)
        } else {
            ties(s, x, le)
        },
{
    reveal(Seq::filter);
    assert(s.push(y).drop_last() =~= s);
}

proof fn lemma_ties_last<T>(s: Seq<T>, x: T, le: spec_fn(T, T) -> bool)
    requires
        s.len() > 0,
    ensures
        ties(s, x, le) == if le(x, s.last()) && le(s.last(), x) {
            ties(s.drop_last(), x, le).push(s.last())
        } else {
            ties(s.drop_last(), x, le)
        },
{
    assert(s =~= s.drop_last().push(s.last()));
    lemma_ties_push(s.drop_last(), s.last(), x, le);
}

proof fn lemma_ties_found<T>(s: Seq<T>, x: T, le: spec_fn(T, T) -> bool) -> (i: int)
    requires
        ties(s, x, le).len() > 0,
    ensures
        0 <= i < s.len(),
        le(x, s[i]) && le(s[i], x),
    decreases s.len(),
{
    reveal(Seq::filter);
    if s.len() > 0 {
        lemma_ties_last(s, x, le);
        if le(x, s.last()) && le(s.last(), x) {
            s.len() - 1
        } else {
            lemma_ties_found(s.drop_last(), x, le)
        }
    } else {
        0
    }
}

proof fn lemma_insert_ties<T>(s: Seq<T>, y: T, x: T, le: spec_fn(T, T) -> bool)
    requires
        is_preorder(le),
    ensures
        ties(insert_sorted(s, y, le), x, le) == ties(s.push(y), x, le),
    decreases s.len(),
{
    if s.len() == 0 {
        assert(seq![y] =~= s.push(y));
    } else if !le(s.last(), y) {
        let front = s.drop_last();
        let z = s.last();
        lemma_insert_ties(front, y, x, le);
        lemma_ties_push(insert_sorted(front, y, le), z, x, le);
        lemma_ties_push(front, y, x, le);
        lemma_ties_push(s, y, x, le);
        lemma_ties_last(s, x, le);
        if le(z, x) && le(x, y) {
            assert(le(z, y));
        }
    }
}

/// Sorting keeps elements that are equal in the order as they follow one another.
pub proof fn law_sort_is_stable<T>(s: Seq<T>, x: T, le: spec_fn(T, T) -> bool)
    requires
        is_preorder(le),
    ensures
        ties(stable_sort(s, le), x, le) == ties(s, x, le),
    decreases s.len(),
{
    if s.len() > 0 {
        let front = stable_sort(s.drop_last(), le);
        law_sort_is_stable(s.drop_last(), x, le);
        lemma_insert_ties(front, s.last(), x, le);
        lemma_ties_push(front, s.last(), x, le);
        lemma_ties_last(s, x, le);
    }
}

proof fn lemma_in_order_by_ties<T>(s: Seq<T>, t: Seq<T>, le: spec_fn(T, T) -> bool)
    requires
        is_preorder(le),
        in_order(s, le),
        in_order(t, le),
        same_ties(s, t, le),
    ensures
        s == t,
    decreases s.len(),
{
    if s.len() == 0 {
        if t.len() > 0 {
            let y = t.last();
            assert(le(y, y) || le(y, y));
            lemma_ties_last(t, y, le);
            assert(ties(s, y, le) == ties(t, y, le));
            let i = lemma_ties_found(s, y, le);
        }
        assert(s =~= t);
    } else {
        let x = s.last();
        assert(le(x, x) || le(x, x));
        lemma_ties_last(s, x, le);
        assert(ties(s, x, le) == ties(t, x, le));
        let i = lemma_ties_found(t, x, le);
        let y = t.last();
        assert(le(y, y) || le(y, y));
        lemma_ties_last(t, y, le);
        assert(ties(s, y, le) == ties(t, y, le));
        let j = lemma_ties_found(s, y, le);
        assert(le(x, y)) by {
            if i < t.len() - 1 {
                assert(le(t[i], t[t.len() - 1]));
            }
        }
        assert(le(y, x)) by {
            if j < s.len() - 1 {
                assert(le(s[j], s[s.len() - 1]));
            }
        }
        lemma_ties_last(t, x, le);
        assert(ties(s, x, le).last() == x);
        assert(ties(t, x, le).last() == y);
        let a = s.drop_last();
        let b = t.drop_last();
        assert(in_order(a, le)) by {
            assert forall|i: int, j: int| 0 <= i < j < a.len() implies le(
                #[trigger] a[i],
                #[trigger] a[j],
            ) by {
                assert(le(s[i], s[j]));
            }
        }
        assert(in_order(b, le)) by {
            assert forall|i: int, j: int| 0 <= i < j < b.len() implies le(
                #[trigger] b[i],
                #[trigger] b[j],
            ) by {
                assert(le(t[i], t[j]));
            }
        }
        assert forall|z: T| #[trigger] ties(a, z, le) == ties(b, z, le) by {
            lemma_ties_last(s, z, le);
            lemma_ties_last(t, z, le);
            assert(ties(s, z, le) == ties(t, z, le));
            if le(z, x) && le(x, z) {
                assert(ties(a, z, le) =~= ties(s, z, le).drop_last());
                assert(ties(b, z, le) =~= ties(t, z, le).drop_last());
            }
        }
        lemma_in_order_by_ties(a, b, le);
        assert(s =~= a.push(x));
        assert(t =~= b.push(x));
    }
}

/// Sorting gives the same for two orders of the same elements where those that are
/// equal in the order follow one another in both the same way.
pub proof fn law_sort_ignores_the_rest<T>(s: Seq<T>, t: Seq<T>, le: spec_fn(T, T) -> bool)
    requires
        is_preorder(le),
        same_ties(s, t, le),
    ensures
        stable_sort(s, le) == stable_sort(t, le),
{
    law_sort_orders(s, le);
    law_sort_orders(t, le);
    assert forall|x: T| #[trigger]
        ties(stable_sort(s, le), x, le) == ties(stable_sort(t, le), x, le) by {
        law_sort_is_stable(s, x, le);
        law_sort_is_stable(t, x, le);
        assert(ties(s, x, le) == ties(t, x, le));
    }
    lemma_in_order_by_ties(stable_sort(s, le), stable_sort(t, le), le);
}

proof fn lemma_insert_picked<T>(
    s: Seq<T>,
    x: T,
    le: spec_fn(T, T) -> bool,
    p: spec_fn(T) -> bool,
)
    requires
        is_preorder(le),
        in_order(s, le),
    ensures
        insert_sorted(s, x, le).filter(p) == if p(x) {
            insert_sorted(s.filter(p), x, le)
        } else {
            s.filter(p)
        },
    decreases s.len(),
{
    reveal(Seq::filter);
    if s.len() == 0 {
        assert(seq![x].drop_last() =~= s);
    } else if le(s.last(), x) {
        assert(s.push(x).drop_last() =~= s);
        let f = s.filter(p);
        if f.len() > 0 {
            let i = lemma_filtered(s, p);
            assert(s[i] == f.last());
            if i < s.len() - 1 {
                assert(le(s[i], s[s.len() - 1]));
            }
        }
    } else {
        let front = s.drop_last();
        assert(in_order(front, le)) by {
            assert forall|i: int, j: int| 0 <= i < j < front.len() implies le(
                #[trigger] front[i],
                #[trigger] front[j],
            ) by {
                assert(le(s[i], s[j]));
            }
        }
        lemma_insert_picked(front, x, le, p);
        let r = insert_sorted(front, x, le);
        assert(r.push(s.last()).drop_last() =~= r);
        if p(s.last()) {
            assert(front.filter(p).push(s.last()).drop_last() =~= front.filter(p));
        }
    }
}

proof fn lemma_filtered<T>(s: Seq<T>, p: spec_fn(T) -> bool) -> (i: int)
    requires
        s.filter(p).len() > 0,
    ensures
        0 <= i < s.len(),
        s[i] == s.filter(p).last(),
    decreases s.len(),
{
    reveal(Seq::filter);
    if s.len() > 0 {
        if p(s.last()) {
            s.len() - 1
        } else {
            lemma_filtered(s.drop_last(), p)
        }
    } else {
        0
    }
}

/// Picking elements after sorting gives the same as sorting those that are picked.
pub proof fn law_sort_then_pick<T>(s: Seq<T>, le: spec_fn(T, T) -> bool, p: spec_fn(T) -> bool)
    requires
        is_preorder(le),
    ensures
        stable_sort(s, le).filter(p) == stable_sort(s.filter(p), le),
    decreases s.len(),
{
    reveal(Seq::filter);
    if s.len() > 0 {
        law_sort_then_pick(s.drop_last(), le, p);
        law_sort_orders(s.drop_last(), le);
        lemma_insert_picked(stable_sort(s.drop_last(), le), s.last(), le, p);
        if p(s.last()) {
            assert(s.drop_last().filter(p).push(s.last()).drop_last() =~= s.drop_last().filter(p));
        }
    }
}

/// Inserting behind a prefix whose next element may not precede `x`.
proof fn lemma_insert_at<T>(s: Seq<T>, x: T, le: spec_fn(T, T) -> bool, p: int)
    requires
        0 <= p <= s.len(),
        p == 0 || le(s[p - 1], x),
        forall|k: int| p <= k < s.len() ==> !le(#[trigger] s[k], x),
    ensures
        insert_sorted(s, x, le) == s.insert(p, x),
    decreases s.len(),
{
    if s.len() == p {
        assert(s.insert(p, x) =~= s.push(x));
    } else {
        assert(!le(s[s.len() - 1], x));
        lemma_insert_at(s.drop_last(), x, le, p);
        assert(s.insert(p, x) =~= s.drop_last().insert(p, x).push(s.last()));
    }
}

/// Sorts the elements by the order that `f` decides, keeping equal ones in their
/// order.
pub(crate) fn sort_by<T, F: Fn(&T, &T) -> bool>(
    v: &mut Vec<T>,
    f: F,
    Ghost(le): Ghost<spec_fn(T, T) -> bool>,
)
    requires
        forall|a: &T, b: &T| #[trigger] f.requires((a, b)),
        forall|a: &T, b: &T, r: bool| #[trigger] f.ensures((a, b), r) ==> r == le(*a, *b),
    ensures
        final(v)@ == stable_sort(old(v)@, le),
{
    let n: usize = v.len();
    let mut i: usize = 0;
    let ghost s = v@;
    assert(s.take(0) =~= Seq::<T>::empty());
    assert(s =~= stable_sort(s.take(0), le) + s.skip(0));
    while i < n
        invariant
            i <= n,
            n == s.len(),
            stable_sort(s.take(i as int), le).len() == i,
            v@ == stable_sort(s.take(i as int), le) + s.skip(i as int),
            forall|a: &T, b: &T| #[trigger] f.requires((a, b)),
            forall|a: &T, b: &T, r: bool| #[trigger] f.ensures((a, b), r) ==> r == le(*a, *b),
        decreases n - i,
    {
        let x = v.remove(i);
        let ghost front = stable_sort(s.take(i as int), le);
        assert(x == s[i as int]);
        assert(v@ =~= front + s.skip(i + 1));
        let mut p: usize = i;
        while p > 0 && !f(&v[p - 1], &x)
            invariant
                p <= i,
                i < n,
                v@.len() == n - 1,
                v@ == front + s.skip(i + 1),
                front.len() == i,
                n == s.len(),
                forall|k: int| p <= k < i ==> !le(#[trigger] front[k], x),
                forall|a: &T, b: &T| #[trigger] f.requires((a, b)),
                forall|a: &T, b: &T, r: bool| #[trigger] f.ensures((a, b), r) ==> r == le(*a, *b),
            decreases p,
        {
            assert(front[p - 1] == v@[p - 1]);
            p = p - 1;
        }
        proof {
            if p > 0 {
                assert(front[p - 1] == v@[p - 1]);
            }
            lemma_insert_at(front, x, le, p as int);
            assert(s.take(i + 1).drop_last() =~= s.take(i as int));
            assert(v@.insert(p as int, x) =~= front.insert(p as int, x) + s.skip(i + 1));
        }
        v.insert(p, x);
        i = i + 1;
    }
    assert(s.take(n as int) =~= s);
    assert(v@ =~= stable_sort(s, le));
}

} // verus!
