//! How far two texts are apart.
use vstd::prelude::*;
use vstd::utf8::*;

verus! {

/// The smaller number.
pub open spec fn lesser(a: nat, b: nat) -> nat {
    if a <= b {
        a
    } else {
        b
    }
}

/// How many insertions, removals and replacements turn the first `i` bytes of `a`
/// into the first `j` bytes of `b`, at least.
pub open spec fn distance(a: Seq<u8>, b: Seq<u8>, i: nat, j: nat) -> nat
    decreases i, j,
{
    if i == 0 {
        j
    } else if j == 0 {
        i
    } else {
        let cost: nat = if a[i - 1] != b[j - 1] {
            1
        } else {
            0
        };
        lesser(
            lesser(
                distance(a, b, (i - 1) as nat, (j - 1) as nat) + cost,
                distance(a, b, (i - 1) as nat, j) + 1,
            ),
            distance(a, b, i, (j - 1) as nat) + 1,
        )
    }
}

/// How many insertions, removals and replacements turn `a` into `b`, at least.
pub open spec fn levenshtein(a: Seq<u8>, b: Seq<u8>) -> nat {
    distance(a, b, a.len(), b.len())
}

/// How many bytes the texts are apart.
pub open spec fn text_distance(a: Seq<char>, b: Seq<char>) -> nat {
    levenshtein(encode_utf8(a), encode_utf8(b))
}

proof fn lemma_bound(a: Seq<u8>, b: Seq<u8>, i: nat, j: nat)
    ensures
        distance(a, b, i, j) <= (if i >= j {
            i
        } else {
            j
        }),
    decreases i, j,
{
    if i > 0 && j > 0 {
        lemma_bound(a, b, (i - 1) as nat, (j - 1) as nat);
    }
}

/// The distances from the first `i + 1` bytes of `a`, by those from the first `i`.
fn next_row(a: &[u8], b: &[u8], i: usize, prev: &Vec<u128>) -> (r: Vec<u128>)
    requires
        i < a@.len(),
        prev@.len() == b@.len() + 1,
        forall|j: int| 0 <= j <= b@.len() ==> #[trigger] prev@[j] == distance(a@, b@, i as nat, j as nat),
    ensures
        r@.len() == b@.len() + 1,
        forall|j: int|
            0 <= j <= b@.len() ==> #[trigger] r@[j] == distance(
                a@,
                b@,
                (i + 1) as nat,
                j as nat,
            ),
{
    let m: usize = b.len();
    let mut r: Vec<u128> = Vec::new();
    r.push(i as u128 + 1);
    let mut j: usize = 0;
    while j < m
        invariant
            j <= m,
            m == b@.len(),
            i < a@.len(),
            prev@.len() == b@.len() + 1,
            forall|k: int|
                0 <= k <= b@.len() ==> #[trigger] prev@[k] == distance(
                    a@,
                    b@,
                    i as nat,
                    k as nat,
                ),
            r@.len() == j + 1,
            forall|k: int|
                0 <= k <= j ==> #[trigger] r@[k] == distance(a@, b@, (i + 1) as nat, k as nat),
        decreases m - j,
    {
        let cost: u128 = if a[i] != b[j] {
            1
        } else {
            0
        };
        proof {
            lemma_bound(a@, b@, i as nat, j as nat);
            lemma_bound(a@, b@, i as nat, (j + 1) as nat);
            lemma_bound(a@, b@, (i + 1) as nat, j as nat);
            assert(prev@[j as int] == distance(a@, b@, i as nat, j as nat));
            assert(prev@[j + 1] == distance(a@, b@, i as nat, (j + 1) as nat));
            assert(r@[j as int] == distance(a@, b@, (i + 1) as nat, j as nat));
        }
        let x: u128 = prev[j] + cost;
        let y: u128 = prev[j + 1] + 1;
        let z: u128 = r[j] + 1;
        let xy: u128 = if x <= y {
            x
        } else {
            y
        };
        r.push(
            if xy <= z {
                xy
            } else {
                z
            },
        );
        j = j + 1;
    }
    r
}

/// How many bytes the texts are apart: the least number of insertions, removals and
/// replacements that turn one into the other.
pub fn edit_distance(a: &str, b: &str) -> (r: usize)
    ensures
        r == text_distance(a@, b@),
{
    let x = a.as_bytes();
    let y = b.as_bytes();
    let n: usize = x.len();
    let m: usize = y.len();
    let mut prev: Vec<u128> = Vec::new();
    prev.push(0);
    let mut k: usize = 0;
    while k < m
        invariant
            k <= m,
            prev@.len() == k + 1,
            forall|j: int| 0 <= j <= k ==> #[trigger] prev@[j] == j,
        decreases m - k,
    {
        k = k + 1;
        prev.push(k as u128);
    }
    let mut i: usize = 0;
    while i < n
        invariant
            i <= n,
            n == x@.len(),
            m == y@.len(),
            prev@.len() == m + 1,
            forall|j: int|
                0 <= j <= m ==> #[trigger] prev@[j] == distance(x@, y@, i as nat, j as nat),
        decreases n - i,
    {
        prev = next_row(x, y, i, &prev);
        i = i + 1;
    }
    proof {
        lemma_bound(x@, y@, n as nat, m as nat);
        assert(prev@[m as int] == distance(x@, y@, n as nat, m as nat));
    }
    prev[m] as usize
}

// ---------------------------------------------------------------------------
// Laws
// ---------------------------------------------------------------------------

proof fn lemma_symmetric(a: Seq<u8>, b: Seq<u8>, i: nat, j: nat)
    ensures
        distance(a, b, i, j) == distance(b, a, j, i),
    decreases i, j,
{
    if i > 0 && j > 0 {
        lemma_symmetric(a, b, (i - 1) as nat, (j - 1) as nat);
        lemma_symmetric(a, b, (i - 1) as nat, j);
        lemma_symmetric(a, b, i, (j - 1) as nat);
    }
}

/// The distance is the same in either direction.
pub proof fn law_distance_symmetric(a: Seq<u8>, b: Seq<u8>)
    ensures
        levenshtein(a, b) == levenshtein(b, a),
{
    lemma_symmetric(a, b, a.len(), b.len());
}

proof fn lemma_gap(a: Seq<u8>, b: Seq<u8>, i: nat, j: nat)
    ensures
        distance(a, b, i, j) >= i - j,
        distance(a, b, i, j) >= j - i,
    decreases i, j,
{
    if i > 0 && j > 0 {
        lemma_gap(a, b, (i - 1) as nat, (j - 1) as nat);
        lemma_gap(a, b, (i - 1) as nat, j);
        lemma_gap(a, b, i, (j - 1) as nat);
    }
}

/// The distance is at least the difference of the lengths and at most the greater
/// length.
pub proof fn law_distance_bounds(a: Seq<u8>, b: Seq<u8>)
    ensures
        levenshtein(a, b) >= a.len() - b.len(),
        levenshtein(a, b) >= b.len() - a.len(),
        levenshtein(a, b) <= a.len() || levenshtein(a, b) <= b.len(),
{
    lemma_gap(a, b, a.len(), b.len());
    lemma_bound(a, b, a.len(), b.len());
}

proof fn lemma_zero(a: Seq<u8>, b: Seq<u8>, i: nat)
    requires
        i <= a.len(),
        i <= b.len(),
    ensures
        (distance(a, b, i, i) == 0) == (a.take(i as int) == b.take(i as int)),
    decreases i,
{
    if i > 0 {
        let k = (i - 1) as nat;
        lemma_zero(a, b, k);
        lemma_gap(a, b, k, i);
        lemma_gap(a, b, i, k);
        assert(a.take(i as int) =~= a.take(k as int).push(a[k as int]));
        assert(b.take(i as int) =~= b.take(k as int).push(b[k as int]));
        if a.take(i as int) == b.take(i as int) {
            assert(a.take(i as int)[k as int] == b.take(i as int)[k as int]);
            assert(a.take(k as int) =~= a.take(i as int).take(k as int));
            assert(b.take(k as int) =~= b.take(i as int).take(k as int));
        }
    } else {
        assert(a.take(0) =~= b.take(0));
    }
}

/// Two texts are no distance apart exactly where they are the same.
pub proof fn law_distance_zero(a: Seq<u8>, b: Seq<u8>)
    ensures
        levenshtein(a, b) == 0 <==> a == b,
{
    lemma_gap(a, b, a.len(), b.len());
    if a.len() == b.len() {
        lemma_zero(a, b, a.len());
        assert(a.take(a.len() as int) =~= a);
        assert(b.take(b.len() as int) =~= b);
    }
}

proof fn lemma_step(a: Seq<u8>, b: Seq<u8>, i: nat, j: nat)
    ensures
        i > 0 ==> distance(a, b, i, j) <= distance(a, b, (i - 1) as nat, j) + 1,
        j > 0 ==> distance(a, b, i, j) <= distance(a, b, i, (j - 1) as nat) + 1,
{
}

proof fn lemma_triangle(a: Seq<u8>, b: Seq<u8>, c: Seq<u8>, i: nat, j: nat, k: nat)
    ensures
        distance(a, c, i, k) <= distance(a, b, i, j) + distance(b, c, j, k),
    decreases i + j + k,
{
    lemma_step(a, c, i, k);
    if i == 0 {
        lemma_gap(b, c, j, k);
    } else if k == 0 {
        lemma_gap(a, b, i, j);
    } else if j == 0 {
        lemma_bound(a, c, i, k);
    } else {
        let (x, y, z) = ((i - 1) as nat, (j - 1) as nat, (k - 1) as nat);
        lemma_triangle(a, b, c, x, y, z);
        lemma_triangle(a, b, c, x, j, k);
        lemma_triangle(a, b, c, i, j, z);
        lemma_triangle(a, b, c, i, y, k);
        lemma_triangle(a, b, c, x, y, k);
        lemma_triangle(a, b, c, i, y, z);
    }
}

/// The way over a third text is no shorter.
pub proof fn law_distance_triangle(a: Seq<u8>, b: Seq<u8>, c: Seq<u8>)
    ensures
        levenshtein(a, c) <= levenshtein(a, b) + levenshtein(b, c),
{
    lemma_triangle(a, b, c, a.len(), b.len(), c.len());
}

} // verus!
