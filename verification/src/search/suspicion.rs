//! Hops whose edges lie mostly outside of the directories of the hop before: a
//! sign that unrelated functions share a name.
use vstd::prelude::*;

use crate::paths::{equal_paths, parent, parent_of, same_path};
use crate::text::opt_text;

use super::bfs::{edges_view, BfsEdge, EdgeView};

verus! {

/// A hop of which few edges are related to the hop before.
#[derive(Debug, Clone, Copy)]
pub struct SuspicionInfo {
    pub hop: usize,
    pub total_edges: usize,
    /// Edges that share a directory with an edge of the hop before.
    pub related_edges: usize,
}

/// The number of edges below which a hop is not suspicious.
pub const SUSPICION_MIN_EDGES: usize = 50;

/// The paths lie in the same directory.
pub open spec fn same_dir(a: Seq<char>, b: Seq<char>) -> bool {
    match (parent(a), parent(b)) {
        (Some(x), Some(y)) => same_path(x, y),
        _ => false,
    }
}

/// The number of edges of the hop among the first `n`.
pub open spec fn hop_total(edges: Seq<EdgeView>, hop: int, n: int) -> nat
    decreases n,
{
    if n <= 0 {
        0
    } else {
        hop_total(edges, hop, n - 1) + if edges[n - 1].hop == hop {
            1nat
        } else {
            0
        }
    }
}

/// The path lies in a directory of an edge of the hop.
pub open spec fn near_hop(edges: Seq<EdgeView>, hop: int, path: Seq<char>) -> bool {
    exists|i: int|
        0 <= i < edges.len() && (#[trigger] edges[i]).hop == hop && same_dir(
            edges[i].from_file,
            path,
        )
}

/// The number of edges of the hop among the first `n` that are near the hop before.
pub open spec fn hop_related(edges: Seq<EdgeView>, hop: int, n: int) -> nat
    decreases n,
{
    if n <= 0 {
        0
    } else {
        hop_related(edges, hop, n - 1) + if edges[n - 1].hop == hop && near_hop(
            edges,
            hop - 1,
            edges[n - 1].from_file,
        ) {
            1nat
        } else {
            0
        }
    }
}

/// An edge of the hop lies in a directory.
pub open spec fn has_dir(edges: Seq<EdgeView>, hop: int) -> bool {
    exists|i: int|
        0 <= i < edges.len() && (#[trigger] edges[i]).hop == hop && parent(edges[i].from_file)
            is Some
}

/// The hop is suspicious: not the first, of enough edges, after a hop in some
/// directory, and with fewer than one related edge in five.
pub open spec fn suspicious(edges: Seq<EdgeView>, hop: int) -> bool {
    let n = edges.len() as int;
    &&& hop >= 2
    &&& hop_total(edges, hop, n) >= SUSPICION_MIN_EDGES
    &&& has_dir(edges, hop - 1)
    &&& hop_related(edges, hop, n) * 5 < hop_total(edges, hop, n)
}

/// What there is to tell of a hop.
pub open spec fn suspicion(edges: Seq<EdgeView>, hop: int) -> SuspicionInfo {
    SuspicionInfo {
        hop: hop as usize,
        total_edges: hop_total(edges, hop, edges.len() as int) as usize,
        related_edges: hop_related(edges, hop, edges.len() as int) as usize,
    }
}

/// The suspicious hops below `h`, in rising order.
pub open spec fn suspicions_below(edges: Seq<EdgeView>, h: nat) -> Seq<SuspicionInfo>
    decreases h,
{
    if h == 0 {
        Seq::empty()
    } else {
        let r = suspicions_below(edges, (h - 1) as nat);
        if suspicious(edges, h - 1) {
            r.push(suspicion(edges, h - 1))
        } else {
            r
        }
    }
}

/// The suspicious hops in rising order.
pub open spec fn suspicions(edges: Seq<EdgeView>) -> Seq<SuspicionInfo> {
    suspicions_below(edges, (usize::MAX + 1) as nat)
}

proof fn lemma_none_between(edges: Seq<EdgeView>, a: nat, b: nat)
    requires
        a <= b,
        forall|h: int| a <= h < b ==> !suspicious(edges, h),
    ensures
        suspicions_below(edges, a) == suspicions_below(edges, b),
    decreases b - a,
{
    if a < b {
        lemma_none_between(edges, a, (b - 1) as nat);
    }
}

/// One of the first `n` edges is of the hop.
spec fn hop_occurs(edges: Seq<EdgeView>, hop: int, n: int) -> bool {
    exists|i: int| 0 <= i < n && (#[trigger] edges[i]).hop == hop
}

/// The list holds the hops of the first `n` edges, each once, in rising order.
spec fn hops_listed(v: Seq<usize>, edges: Seq<EdgeView>, n: int) -> bool {
    &&& forall|i: int, j: int| 0 <= i < j < v.len() ==> #[trigger] v[i] < #[trigger] v[j]
    &&& forall|h: usize| #[trigger] v.contains(h) == hop_occurs(edges, h as int, n)
}

/// The hops of the edges in rising order.
fn list_hops(edges: &[BfsEdge]) -> (r: Vec<usize>)
    ensures
        hops_listed(r@, edges_view(edges@), edges@.len() as int),
{
    let ghost e = edges_view(edges@);
    let mut r: Vec<usize> = Vec::new();
    let mut n: usize = 0;
    while n < edges.len()
        invariant
            n <= edges@.len(),
            e == edges_view(edges@),
            hops_listed(r@, e, n as int),
        decreases edges@.len() - n,
    {
        let h: usize = edges[n].hop;
        assert(e[n as int].hop == h);
        let ghost before = r@;
        let mut k: usize = 0;
        while k < r.len() && r[k] < h
            invariant
                k <= r@.len(),
                r@ == before,
                forall|j: int| 0 <= j < k ==> r@[j] < h,
            decreases r@.len() - k,
        {
            k = k + 1;
        }
        let present = k < r.len() && r[k] == h;
        if !present {
            r.insert(k, h);
        }
        proof {
            assert forall|x: usize| #[trigger] r@.contains(x) == hop_occurs(e, x as int, n + 1) by {
                let here = before.contains(x);
                assert(here == hop_occurs(e, x as int, n as int));
                if hop_occurs(e, x as int, n as int) {
                    let i = choose|i: int| 0 <= i < n && (#[trigger] e[i]).hop == x;
                    assert(e[i].hop == x);
                }
                if hop_occurs(e, x as int, n + 1) && x != h {
                    let i = choose|i: int| 0 <= i < n + 1 && (#[trigger] e[i]).hop == x;
                    assert(i < n);
                }
                if x == h {
                    assert(e[n as int].hop == x);
                    assert(r@[k as int] == h);
                }
                if here {
                    let i = choose|i: int| 0 <= i < before.len() && before[i] == x;
                    if present || i < k {
                        assert(r@[i] == x);
                    } else {
                        assert(r@[i + 1] == x);
                    }
                }
                if r@.contains(x) && x != h {
                    let i = choose|i: int| 0 <= i < r@.len() && r@[i] == x;
                    if present || i < k {
                        assert(before[i] == x);
                    } else {
                        assert(before[i - 1] == x);
                    }
                }
            }
            assert forall|i: int, j: int| 0 <= i < j < r@.len() implies #[trigger] r@[i]
                < #[trigger] r@[j] by {
                if !present {
                    if i < k && j > k {
                        assert(before[i] < before[j - 1]);
                    } else if i < k && j < k {
                        assert(before[i] < before[j]);
                    } else if i == k {
                        assert(before[k as int] <= before[j - 1]);
                    } else if i > k {
                        assert(before[i - 1] < before[j - 1]);
                    }
                } else {
                    assert(before[i] < before[j]);
                }
            }
        }
        n = n + 1;
    }
    r
}

/// The directories of the edges.
fn list_dirs(edges: &[BfsEdge]) -> (r: Vec<Option<String>>)
    ensures
        r@.len() == edges@.len(),
        forall|i: int|
            0 <= i < r@.len() ==> opt_text(#[trigger] r@[i]) == parent(edges@[i].from_file@),
{
    let mut r: Vec<Option<String>> = Vec::new();
    let mut i: usize = 0;
    while i < edges.len()
        invariant
            i <= edges@.len(),
            r@.len() == i,
            forall|j: int|
                0 <= j < i ==> opt_text(#[trigger] r@[j]) == parent(edges@[j].from_file@),
        decreases edges@.len() - i,
    {
        r.push(parent_of(edges[i].from_file.as_str()));
        i = i + 1;
    }
    r
}

fn near(edges: &[BfsEdge], dirs: &Vec<Option<String>>, hop: usize, k: usize) -> (r: bool)
    requires
        k < edges@.len(),
        dirs@.len() == edges@.len(),
        forall|i: int|
            0 <= i < dirs@.len() ==> opt_text(#[trigger] dirs@[i]) == parent(
                edges@[i].from_file@,
            ),
    ensures
        r == near_hop(edges_view(edges@), hop as int, edges@[k as int].from_file@),
{
    let ghost e = edges_view(edges@);
    let dir = match &dirs[k] {
        Some(d) => d,
        None => {
            return false;
        },
    };
    assert(opt_text(dirs@[k as int]) == Some(dir@));
    let mut i: usize = 0;
    while i < edges.len()
        invariant
            i <= edges@.len(),
            k < edges@.len(),
            e == edges_view(edges@),
            dirs@.len() == edges@.len(),
            forall|i: int|
                0 <= i < dirs@.len() ==> opt_text(#[trigger] dirs@[i]) == parent(
                    edges@[i].from_file@,
                ),
            parent(edges@[k as int].from_file@) == Some(dir@),
            forall|j: int|
                0 <= j < i ==> !((#[trigger] e[j]).hop == hop && same_dir(
                    e[j].from_file,
                    edges@[k as int].from_file@,
                )),
        decreases edges@.len() - i,
    {
        assert(e[i as int] == edges@[i as int]@);
        assert(opt_text(dirs@[i as int]) == parent(edges@[i as int].from_file@));
        if edges[i].hop == hop {
            if let Some(d) = &dirs[i] {
                if equal_paths(d.as_str(), dir.as_str()) {
                    return true;
                }
            }
        }
        i = i + 1;
    }
    false
}

/// The suspicious hops in rising order.
pub fn compute_suspicious_hops(edges: &[BfsEdge]) -> (r: Vec<SuspicionInfo>)
    ensures
        r@ == suspicions(edges_view(edges@)),
        forall|i: int| 0 <= i < r@.len() ==> (#[trigger] r@[i]).hop >= 2,
{
    let ghost e = edges_view(edges@);
    let n: usize = edges.len();
    let hops = list_hops(edges);
    let dirs = list_dirs(edges);
    let mut r: Vec<SuspicionInfo> = Vec::new();
    let mut k: usize = 0;
    let ghost mut next: nat = 0;
    while k < hops.len()
        invariant
            k <= hops@.len(),
            n == edges@.len(),
            e == edges_view(edges@),
            hops_listed(hops@, e, n as int),
            dirs@.len() == edges@.len(),
            forall|i: int|
                0 <= i < dirs@.len() ==> opt_text(#[trigger] dirs@[i]) == parent(
                    edges@[i].from_file@,
                ),
            next == (if k == 0 {
                0
            } else {
                hops@[k - 1] + 1
            }),
            r@ == suspicions_below(e, next),
            forall|i: int| 0 <= i < r@.len() ==> (#[trigger] r@[i]).hop >= 2,
        decreases hops@.len() - k,
    {
        let hop: usize = hops[k];
        proof {
            if k > 0 {
                assert(hops@[k - 1] < hops@[k as int]);
            }
            lemma_gap(hops@, e, n as int, k as int);
            lemma_none_between(e, next, hop as nat);
        }
        if hop >= 2 {
            let mut total: usize = 0;
            let mut related: usize = 0;
            let mut dir = false;
            let mut i: usize = 0;
            while i < n
                invariant
                    i <= n,
                    hop >= 2,
                    n == edges@.len(),
                    e == edges_view(edges@),
                    dirs@.len() == edges@.len(),
                    forall|i: int|
                        0 <= i < dirs@.len() ==> opt_text(#[trigger] dirs@[i]) == parent(
                            edges@[i].from_file@,
                        ),
                    related <= total <= i,
                    total == hop_total(e, hop as int, i as int),
                    related == hop_related(e, hop as int, i as int),
                    dir == exists|j: int|
                        0 <= j < i && (#[trigger] e[j]).hop == hop - 1 && parent(e[j].from_file)
                            is Some,
                decreases n - i,
            {
                assert(e[i as int] == edges@[i as int]@);
                assert(opt_text(dirs@[i as int]) == parent(edges@[i as int].from_file@));
                if edges[i].hop == hop {
                    total = total + 1;
                    if near(edges, &dirs, hop - 1, i) {
                        related = related + 1;
                    }
                }
                if edges[i].hop == hop - 1 && dirs[i].is_some() {
                    dir = true;
                }
                i = i + 1;
            }
            assert(dir == has_dir(e, hop - 1));
            if total >= SUSPICION_MIN_EDGES && dir && (related as u128) * 5 < total as u128 {
                let s = SuspicionInfo { hop, total_edges: total, related_edges: related };
                assert(suspicious(e, hop as int));
                assert(s == suspicion(e, hop as int));
                r.push(s);
            } else {
                assert(!suspicious(e, hop as int));
            }
        }
        proof {
            next = (hop + 1) as nat;
        }
        k = k + 1;
    }
    proof {
        lemma_gap(hops@, e, n as int, k as int);
        lemma_none_between(e, next, (usize::MAX + 1) as nat);
    }
    r
}

/// Between two hops that follow each other in the list there is none to suspect.
proof fn lemma_gap(hops: Seq<usize>, edges: Seq<EdgeView>, n: int, k: int)
    requires
        n == edges.len(),
        hops_listed(hops, edges, n),
        0 <= k <= hops.len(),
    ensures
        forall|h: int|
            (if k == 0 {
                0
            } else {
                hops[k - 1] + 1
            }) <= h < (if k < hops.len() {
                hops[k] as int
            } else {
                usize::MAX + 1
            }) ==> !suspicious(edges, h),
{
    assert forall|h: int|
        (if k == 0 {
            0
        } else {
            hops[k - 1] + 1
        }) <= h < (if k < hops.len() {
            hops[k] as int
        } else {
            usize::MAX + 1
        }) implies !suspicious(edges, h) by {
        if suspicious(edges, h) {
            lemma_total_occurs(edges, h, n);
            assert(hops.contains(h as usize));
            let j = choose|j: int| 0 <= j < hops.len() && hops[j] == h as usize;
            if j < k - 1 {
                assert(hops[j] < hops[k - 1]);
            }
            if k < j {
                assert(hops[k] < hops[j]);
            }
        }
    }
}

proof fn lemma_total_occurs(edges: Seq<EdgeView>, hop: int, n: int)
    requires
        0 <= n <= edges.len(),
        hop_total(edges, hop, n) > 0,
    ensures
        hop_occurs(edges, hop, n),
    decreases n,
{
    if edges[n - 1].hop == hop {
    } else {
        lemma_total_occurs(edges, hop, n - 1);
        let i = choose|i: int| 0 <= i < n - 1 && (#[trigger] edges[i]).hop == hop;
        assert(edges[i].hop == hop);
    }
}

/// A hop of which at least one edge in five is related is not suspicious, nor is
/// one of few edges, nor the first.
pub proof fn law_no_suspicion(edges: Seq<EdgeView>, hop: int)
    requires
        hop < 2 || hop_total(edges, hop, edges.len() as int) < SUSPICION_MIN_EDGES || hop_related(
            edges,
            hop,
            edges.len() as int,
        ) * 5 >= hop_total(edges, hop, edges.len() as int),
    ensures
        !suspicious(edges, hop),
{
}

/// The number of edges that are such.
spec fn count(edges: Seq<EdgeView>, p: spec_fn(EdgeView) -> bool) -> nat
    decreases edges.len(),
{
    if edges.len() == 0 {
        0
    } else {
        count(edges.drop_last(), p) + if p(edges.last()) {
            1nat
        } else {
            0
        }
    }
}

proof fn lemma_count_remove(edges: Seq<EdgeView>, p: spec_fn(EdgeView) -> bool, j: int)
    requires
        0 <= j < edges.len(),
    ensures
        count(edges, p) == count(edges.remove(j), p) + if p(edges[j]) {
            1nat
        } else {
            0
        },
    decreases edges.len(),
{
    if j == edges.len() - 1 {
        assert(edges.remove(j) =~= edges.drop_last());
    } else {
        lemma_count_remove(edges.drop_last(), p, j);
        assert(edges.remove(j).drop_last() =~= edges.drop_last().remove(j));
        assert(edges.remove(j).last() == edges.last());
    }
}

proof fn lemma_count_order(a: Seq<EdgeView>, b: Seq<EdgeView>, p: spec_fn(EdgeView) -> bool)
    requires
        a.to_multiset() == b.to_multiset(),
    ensures
        count(a, p) == count(b, p),
    decreases a.len(),
{
    broadcast use vstd::seq_lib::group_to_multiset_ensures;

    assert(a.to_multiset().len() == a.len());
    assert(b.to_multiset().len() == b.len());
    if a.len() > 0 {
        let x = a.last();
        assert(a.contains(x));
        assert(b.to_multiset().count(x) > 0);
        assert(b.contains(x));
        let j = choose|j: int| 0 <= j < b.len() && b[j] == x;
        assert(a.remove(a.len() - 1) =~= a.drop_last());
        assert(a.drop_last().to_multiset() == b.remove(j).to_multiset());
        lemma_count_order(a.drop_last(), b.remove(j), p);
        lemma_count_remove(b, p, j);
    }
}

proof fn lemma_counts(edges: Seq<EdgeView>, hop: int, n: int)
    requires
        0 <= n <= edges.len(),
    ensures
        hop_total(edges, hop, n) == count(edges.take(n), |e: EdgeView| e.hop == hop),
        hop_related(edges, hop, n) == count(
            edges.take(n),
            |e: EdgeView| e.hop == hop && near_hop(edges, hop - 1, e.from_file),
        ),
    decreases n,
{
    if n > 0 {
        lemma_counts(edges, hop, n - 1);
        assert(edges.take(n).drop_last() =~= edges.take(n - 1));
        assert(edges.take(n).last() == edges[n - 1]);
    }
}

proof fn lemma_same_edges(a: Seq<EdgeView>, b: Seq<EdgeView>, i: int)
    requires
        a.to_multiset() == b.to_multiset(),
        0 <= i < a.len(),
    ensures
        b.contains(a[i]),
{
    broadcast use vstd::seq_lib::group_to_multiset_ensures;

    assert(a.contains(a[i]));
    assert(b.to_multiset().count(a[i]) > 0);
}

proof fn lemma_near_order(a: Seq<EdgeView>, b: Seq<EdgeView>, hop: int, path: Seq<char>)
    requires
        a.to_multiset() == b.to_multiset(),
        near_hop(a, hop, path),
    ensures
        near_hop(b, hop, path),
{
    let i = choose|i: int|
        0 <= i < a.len() && (#[trigger] a[i]).hop == hop && same_dir(a[i].from_file, path);
    lemma_same_edges(a, b, i);
    let j = choose|j: int| 0 <= j < b.len() && b[j] == a[i];
    assert(b[j].hop == hop);
}

proof fn lemma_dir_order(a: Seq<EdgeView>, b: Seq<EdgeView>, hop: int)
    requires
        a.to_multiset() == b.to_multiset(),
        has_dir(a, hop),
    ensures
        has_dir(b, hop),
{
    let i = choose|i: int|
        0 <= i < a.len() && (#[trigger] a[i]).hop == hop && parent(a[i].from_file) is Some;
    lemma_same_edges(a, b, i);
    let j = choose|j: int| 0 <= j < b.len() && b[j] == a[i];
    assert(b[j].hop == hop);
}

proof fn lemma_hop_order(a: Seq<EdgeView>, b: Seq<EdgeView>, hop: int)
    requires
        a.to_multiset() == b.to_multiset(),
    ensures
        suspicious(a, hop) == suspicious(b, hop),
        suspicion(a, hop) == suspicion(b, hop),
{
    broadcast use vstd::seq_lib::group_to_multiset_ensures;

    let n = a.len() as int;
    assert(a.to_multiset().len() == a.len());
    assert(b.to_multiset().len() == b.len());
    lemma_counts(a, hop, n);
    lemma_counts(b, hop, n);
    assert(a.take(n) =~= a);
    assert(b.take(n) =~= b);
    let at = |e: EdgeView| e.hop == hop;
    let p = |e: EdgeView| e.hop == hop && near_hop(a, hop - 1, e.from_file);
    let q = |e: EdgeView| e.hop == hop && near_hop(b, hop - 1, e.from_file);
    assert forall|e: EdgeView| #[trigger] p(e) == q(e) by {
        if near_hop(a, hop - 1, e.from_file) {
            lemma_near_order(a, b, hop - 1, e.from_file);
        }
        if near_hop(b, hop - 1, e.from_file) {
            lemma_near_order(b, a, hop - 1, e.from_file);
        }
    }
    assert(p =~= q);
    lemma_count_order(a, b, at);
    lemma_count_order(a, b, p);
    if has_dir(a, hop - 1) {
        lemma_dir_order(a, b, hop - 1);
    }
    if has_dir(b, hop - 1) {
        lemma_dir_order(b, a, hop - 1);
    }
}

proof fn lemma_below_order(a: Seq<EdgeView>, b: Seq<EdgeView>, h: nat)
    requires
        a.to_multiset() == b.to_multiset(),
    ensures
        suspicions_below(a, h) == suspicions_below(b, h),
    decreases h,
{
    if h > 0 {
        lemma_below_order(a, b, (h - 1) as nat);
        lemma_hop_order(a, b, h - 1);
    }
}

/// Which hops are suspicious, and what is told of them, does not depend on the order of
/// the edges.
pub proof fn law_suspicion_ignores_order(a: Seq<EdgeView>, b: Seq<EdgeView>)
    requires
        a.to_multiset() == b.to_multiset(),
    ensures
        suspicions(a) == suspicions(b),
{
    lemma_below_order(a, b, (usize::MAX + 1) as nat);
}

proof fn lemma_hop_counts(edges: Seq<EdgeView>, hop: int, n: int)
    requires
        0 <= n <= edges.len(),
    ensures
        hop_total(edges, hop, n) == edges.take(n).filter(|e: EdgeView| e.hop == hop).len(),
        hop_related(edges, hop, n) == edges.take(n).filter(
            |e: EdgeView| e.hop == hop && near_hop(edges, hop - 1, e.from_file),
        ).len(),
    decreases n,
{
    reveal(Seq::filter);
    if n > 0 {
        lemma_hop_counts(edges, hop, n - 1);
        assert(edges.take(n).drop_last() =~= edges.take(n - 1));
        assert(edges.take(n).last() == edges[n - 1]);
    } else {
        assert(edges.take(0) =~= Seq::<EdgeView>::empty());
    }
}

proof fn lemma_listed_below(edges: Seq<EdgeView>, hop: int, h: nat)
    requires
        0 <= hop < h,
        suspicious(edges, hop),
    ensures
        suspicions_below(edges, h).contains(suspicion(edges, hop)),
    decreases h,
{
    let q = suspicions_below(edges, (h - 1) as nat);
    let r = suspicions_below(edges, h);
    let s = suspicion(edges, hop);
    if hop < h - 1 {
        lemma_listed_below(edges, hop, (h - 1) as nat);
        let k = choose|k: int| 0 <= k < q.len() && q[k] == s;
        assert(r[k] == s);
    } else {
        assert(r[q.len() as int] == s);
    }
}

/// A hop is told as suspicious, with its counts, wherever it has fifty edges or more,
/// comes after a hop in some directory, and fewer than one in five of its edges lie in a
/// directory of that hop. The first hop never is.
pub proof fn law_suspicious_hops_are_told(edges: Seq<EdgeView>, hop: int)
    requires
        2 <= hop <= usize::MAX,
        edges.len() <= usize::MAX,
        edges.filter(|e: EdgeView| e.hop == hop).len() >= 50,
        exists|i: int|
            0 <= i < edges.len() && (#[trigger] edges[i]).hop == hop - 1 && parent(
                edges[i].from_file,
            ) is Some,
        edges.filter(
            |e: EdgeView| e.hop == hop && near_hop(edges, hop - 1, e.from_file),
        ).len() * 5 < edges.filter(|e: EdgeView| e.hop == hop).len(),
    ensures
        exists|k: int|
            0 <= k < suspicions(edges).len() && (#[trigger] suspicions(edges)[k]).hop == hop
                && suspicions(edges)[k].total_edges == edges.filter(
                |e: EdgeView| e.hop == hop,
            ).len() && suspicions(edges)[k].related_edges == edges.filter(
                |e: EdgeView| e.hop == hop && near_hop(edges, hop - 1, e.from_file),
            ).len(),
{
    let n = edges.len() as int;
    lemma_hop_counts(edges, hop, n);
    assert(edges.take(n) =~= edges);
    assert(suspicious(edges, hop));
    lemma_listed_below(edges, hop, (usize::MAX + 1) as nat);
    edges.lemma_filter_len(|e: EdgeView| e.hop == hop);
    let s = suspicion(edges, hop);
    let k = choose|k: int| 0 <= k < suspicions(edges).len() && suspicions(edges)[k] == s;
    assert(suspicions(edges)[k].hop == hop);
}

} // verus!
