//! Positions of a list grouped by a key, in the order in which the keys first
//! occur.
use vstd::prelude::*;

use crate::types::{ints, lemma_ints_push};

verus! {

/// What items are grouped by.
pub trait Key: Sized {
    type K;

    spec fn key(&self) -> Self::K;

    fn same(&self, other: &Self) -> (r: bool)
        ensures
            r == (self.key() == other.key()),
    ;

    fn copied(&self) -> (r: Self)
        ensures
            r.key() == self.key(),
    ;
}

/// The position of the group with the key `k`.
pub open spec fn position<K>(groups: Seq<(K, Seq<int>)>, k: K) -> Option<int>
    decreases groups.len(),
{
    if groups.len() == 0 {
        None
    } else if groups.last().0 == k {
        Some(groups.len() - 1)
    } else {
        position(groups.drop_last(), k)
    }
}

/// The groups with position `i` added to that of the key `k`.
pub open spec fn group_add<K>(groups: Seq<(K, Seq<int>)>, k: K, i: int) -> Seq<(K, Seq<int>)> {
    match position(groups, k) {
        Some(p) => groups.update(p, (k, groups[p].1.push(i))),
        None => groups.push((k, seq![i])),
    }
}

/// The groups of the first `n` positions that are picked.
pub open spec fn grouped<K>(keys: Seq<K>, picked: Seq<bool>, n: int) -> Seq<(K, Seq<int>)>
    decreases n,
{
    if n <= 0 {
        Seq::empty()
    } else {
        let g = grouped(keys, picked, n - 1);
        if picked[n - 1] {
            group_add(g, keys[n - 1], n - 1)
        } else {
            g
        }
    }
}

/// Each group holds positions of its own key, in rising order; no key has two
/// groups.
pub open spec fn well_grouped<K>(
    g: Seq<(K, Seq<int>)>,
    keys: Seq<K>,
    picked: Seq<bool>,
    n: int,
) -> bool {
    &&& forall|a: int, x: int|
        0 <= a < g.len() && 0 <= x < g[a].1.len() ==> {
            let i = #[trigger] g[a].1[x];
            0 <= i < n && picked[i] && keys[i] == g[a].0
        }
    &&& forall|a: int, b: int|
        0 <= a < b < g.len() ==> (#[trigger] g[a]).0 != (#[trigger] g[b]).0
    &&& forall|a: int, x: int, y: int|
        0 <= a < g.len() && 0 <= x < y < g[a].1.len() ==> #[trigger] g[a].1[x]
            < #[trigger] g[a].1[y]
}

pub proof fn lemma_position<K>(g: Seq<(K, Seq<int>)>, k: K)
    ensures
        position(g, k) matches Some(p) ==> 0 <= p < g.len() && g[p].0 == k,
        position(g, k) is None ==> (forall|a: int| 0 <= a < g.len() ==> (#[trigger] g[a]).0 != k),
    decreases g.len(),
{
    if g.len() > 0 && g.last().0 != k {
        lemma_position(g.drop_last(), k);
        if position(g, k) is None {
            assert forall|a: int| 0 <= a < g.len() implies (#[trigger] g[a]).0 != k by {
                if a < g.len() - 1 {
                    assert(g.drop_last()[a].0 != k);
                }
            }
        }
    }
}

/// What grouping gives is well grouped.
pub proof fn lemma_grouped<K>(keys: Seq<K>, picked: Seq<bool>, n: int)
    requires
        0 <= n <= keys.len(),
        picked.len() == keys.len(),
    ensures
        well_grouped(grouped(keys, picked, n), keys, picked, n),
    decreases n,
{
    if n > 0 {
        lemma_grouped(keys, picked, n - 1);
        let g = grouped(keys, picked, n - 1);
        let k = keys[n - 1];
        lemma_position(g, k);
        if picked[n - 1] {
            let h = group_add(g, k, n - 1);
            match position(g, k) {
                Some(p) => {
                    assert forall|a: int, x: int|
                        0 <= a < h.len() && 0 <= x < h[a].1.len() implies {
                        let i = #[trigger] h[a].1[x];
                        0 <= i < n && picked[i] && keys[i] == h[a].0
                    } by {
                        if a != p || x < g[a].1.len() {
                            assert(h[a].1[x] == g[a].1[x]);
                        }
                    }
                    assert forall|a: int, x: int, y: int|
                        0 <= a < h.len() && 0 <= x < y < h[a].1.len() implies #[trigger] h[a].1[x]
                        < #[trigger] h[a].1[y] by {
                        assert(h[a].1[x] == g[a].1[x]);
                        if a != p || y < g[a].1.len() {
                            assert(h[a].1[y] == g[a].1[y]);
                        }
                    }
                },
                None => {
                    assert forall|a: int, x: int|
                        0 <= a < h.len() && 0 <= x < h[a].1.len() implies {
                        let i = #[trigger] h[a].1[x];
                        0 <= i < n && picked[i] && keys[i] == h[a].0
                    } by {
                        if a < g.len() {
                            assert(h[a].1[x] == g[a].1[x]);
                        }
                    }
                    assert forall|a: int, x: int, y: int|
                        0 <= a < h.len() && 0 <= x < y < h[a].1.len() implies #[trigger] h[a].1[x]
                        < #[trigger] h[a].1[y] by {
                        if a < g.len() {
                            assert(h[a].1[x] == g[a].1[x]);
                            assert(h[a].1[y] == g[a].1[y]);
                        }
                    }
                },
            }
        }
    }
}

/// Every position that is picked stands in the group of its key, and a group holds
/// nothing else.
pub proof fn law_groups_cover<K>(keys: Seq<K>, picked: Seq<bool>, n: int, i: int)
    requires
        0 <= i < n <= keys.len(),
        picked.len() == keys.len(),
        picked[i],
    ensures
        exists|a: int|
            0 <= a < grouped(keys, picked, n).len() && (#[trigger] grouped(keys, picked, n)[a]).0
                == keys[i] && grouped(keys, picked, n)[a].1.contains(i),
        well_grouped(grouped(keys, picked, n), keys, picked, n),
    decreases n,
{
    lemma_grouped(keys, picked, n);
    let g = grouped(keys, picked, n - 1);
    let h = grouped(keys, picked, n);
    lemma_position(g, keys[n - 1]);
    if i < n - 1 {
        law_groups_cover(keys, picked, n - 1, i);
        let a = choose|a: int|
            0 <= a < g.len() && (#[trigger] g[a]).0 == keys[i] && g[a].1.contains(i);
        let x = choose|x: int| 0 <= x < g[a].1.len() && g[a].1[x] == i;
        assert(h[a].0 == keys[i] && h[a].1[x] == i);
    } else {
        match position(g, keys[i]) {
            Some(p) => {
                assert(h[p].1[g[p].1.len() as int] == i);
                assert(h[p].0 == keys[i] && h[p].1.contains(i));
            },
            None => {
                assert(h[g.len() as int].1[0] == i);
                assert(h[g.len() as int].0 == keys[i] && h[g.len() as int].1.contains(i));
            },
        }
    }
}

/// How often the key occurs.
pub open spec fn occurrences<K>(keys: Seq<K>, k: K) -> nat {
    keys.filter(|x: K| x == k).len()
}

/// Where every position is picked, a key has a group exactly if it occurs, and the
/// group has as many members as the key has occurrences.
pub proof fn law_group_sizes<K>(keys: Seq<K>, picked: Seq<bool>, n: int, k: K)
    requires
        0 <= n <= keys.len(),
        picked.len() == keys.len(),
        forall|i: int| 0 <= i < n ==> #[trigger] picked[i],
    ensures
        match position(grouped(keys, picked, n), k) {
            Some(p) => {
                &&& 0 <= p < grouped(keys, picked, n).len()
                &&& grouped(keys, picked, n)[p].0 == k
                &&& grouped(keys, picked, n)[p].1.len() == occurrences(keys.take(n), k)
                &&& grouped(keys, picked, n)[p].1.len() > 0
            },
            None => occurrences(keys.take(n), k) == 0,
        },
    decreases n,
{
    reveal(Seq::filter);
    let is = |x: K| x == k;
    let h = grouped(keys, picked, n);
    lemma_position(h, k);
    if n > 0 {
        law_group_sizes(keys, picked, n - 1, k);
        let g = grouped(keys, picked, n - 1);
        assert(keys.take(n).drop_last() =~= keys.take(n - 1));
        assert(keys.take(n).last() == keys[n - 1]);
        assert(keys.take(n).filter(is) == if is(keys[n - 1]) {
            keys.take(n - 1).filter(is).push(keys[n - 1])
        } else {
            keys.take(n - 1).filter(is)
        });
        lemma_grouped(keys, picked, n);
        lemma_grouped(keys, picked, n - 1);
        lemma_position(g, k);
        lemma_position(g, keys[n - 1]);
        assert(picked[n - 1]);
        assert(h == group_add(g, keys[n - 1], n - 1));
        if keys[n - 1] == k {
            let at = match position(g, k) {
                Some(p) => p,
                None => g.len() as int,
            };
            assert(h[at].0 == k);
            assert(position(h, k) is Some);
            assert(position(h, k)->0 == at);
        } else {
            match position(g, k) {
                Some(p) => {
                    assert(h[p] == g[p]);
                    assert(position(h, k) is Some);
                    assert(position(h, k)->0 == p);
                },
                None => {
                    if position(h, k) is Some {
                        let q = position(h, k)->0;
                        if q < g.len() {
                            assert(g[q].0 == k);
                        }
                    }
                },
            }
        }
    } else {
        assert(keys.take(0) =~= Seq::<K>::empty());
    }
}

/// What the groups hold.
pub open spec fn groups_view<T: Key>(v: Seq<(T, Vec<usize>)>) -> Seq<(T::K, Seq<int>)> {
    v.map_values(|g: (T, Vec<usize>)| (g.0.key(), ints(g.1@)))
}

/// The position of the group with the key of `k`.
pub fn find_group<T: Key>(groups: &Vec<(T, Vec<usize>)>, k: &T) -> (r: Option<usize>)
    ensures
        r matches Some(p) ==> p < groups@.len() && position(groups_view(groups@), k.key()) == Some(
            p as int,
        ),
        r is None ==> position(groups_view(groups@), k.key()) is None,
{
    let ghost g = groups_view(groups@);
    let mut n: usize = groups.len();
    assert(g.take(n as int) =~= g);
    while n > 0
        invariant
            n <= groups@.len(),
            g == groups_view(groups@),
            position(g, k.key()) == position(g.take(n as int), k.key()),
        decreases n,
    {
        assert(g.take(n as int).drop_last() =~= g.take(n - 1));
        assert(g.take(n as int).last() == g[n - 1]);
        if groups[n - 1].0.same(k) {
            return Some(n - 1);
        }
        n = n - 1;
    }
    None
}

/// Adds a position to the group of its key.
pub fn add_to_group<T: Key>(groups: &mut Vec<(T, Vec<usize>)>, k: &T, i: usize)
    ensures
        groups_view(final(groups)@) == group_add(groups_view(old(groups)@), k.key(), i as int),
{
    broadcast use lemma_ints_push;

    let ghost g = groups_view(groups@);
    let found = find_group(groups, k);
    match found {
        Some(p) => {
            let mut members = groups[p].1.clone();
            members.push(i);
            proof {
                lemma_position(g, k.key());
                assert(ints(members@) =~= g[p as int].1.push(i as int));
            }
            groups[p] = (k.copied(), members);
            assert(groups_view(groups@) =~= group_add(g, k.key(), i as int));
        },
        None => {
            let mut members: Vec<usize> = Vec::new();
            members.push(i);
            assert(ints(members@) =~= seq![i as int]);
            groups.push((k.copied(), members));
            assert(groups_view(groups@) =~= group_add(g, k.key(), i as int));
        },
    }
}

/// Where every position is picked, a position stands in the group of its key behind as
/// many members as there are earlier positions of that key.
pub proof fn law_group_places<K>(keys: Seq<K>, picked: Seq<bool>, n: int, i: int)
    requires
        0 <= i < n <= keys.len(),
        picked.len() == keys.len(),
        forall|j: int| 0 <= j < n ==> #[trigger] picked[j],
    ensures
        position(grouped(keys, picked, n), keys[i]) is Some,
        ({
            let p = position(grouped(keys, picked, n), keys[i])->0;
            let x = occurrences(keys.take(i), keys[i]) as int;
            &&& 0 <= p < grouped(keys, picked, n).len()
            &&& grouped(keys, picked, n)[p].0 == keys[i]
            &&& x < grouped(keys, picked, n)[p].1.len()
            &&& grouped(keys, picked, n)[p].1[x] == i
        }),
    decreases n,
{
    let k = keys[i];
    let g = grouped(keys, picked, n - 1);
    let h = grouped(keys, picked, n);
    let x = occurrences(keys.take(i), k) as int;
    assert(picked[n - 1]);
    assert(h == group_add(g, keys[n - 1], n - 1));
    lemma_grouped(keys, picked, n);
    lemma_position(g, keys[n - 1]);
    lemma_position(h, k);
    if i < n - 1 {
        law_group_places(keys, picked, n - 1, i);
        let p = position(g, k)->0;
        assert(h[p].0 == k && h[p].1[x] == i);
        assert(position(h, k) is Some);
        assert(position(h, k)->0 == p);
    } else {
        law_group_sizes(keys, picked, n - 1, k);
        let p = match position(g, k) {
            Some(p) => p,
            None => g.len() as int,
        };
        assert(h[p].0 == k);
        assert(h[p].1[x] == i);
        assert(position(h, k) is Some);
        assert(position(h, k)->0 == p);
    }
}

} // verus!
