//! What was shown already.
//!
//! A session records which places were inlined, so that the same body is not shown
//! twice.
use vstd::prelude::*;
use vstd::string::*;

use crate::text::{dec, has_string, is_digit, lemma_dec_value, push_dec, strs};

verus! {

/// The places that were inlined.
pub struct Session {
    expanded: Vec<String>,
}

/// What a place is known by.
pub open spec fn place_key(path: Seq<char>, line: u32) -> Seq<char> {
    path + ":"@ + dec(line as nat)
}

fn key_of(path: &str, line: u32) -> (r: String)
    ensures
        r@ == place_key(path@, line),
{
    let mut r = path.to_owned();
    r.append(":");
    push_dec(&mut r, line as usize);
    r
}

impl View for Session {
    type V = Set<Seq<char>>;

    closed spec fn view(&self) -> Set<Seq<char>> {
        strs(self.expanded@).to_set()
    }
}

impl Session {
    /// A session in which nothing was shown.
    pub fn new() -> (r: Self)
        ensures
            r@ == Set::<Seq<char>>::empty(),
    {
        let r = Session { expanded: Vec::new() };
        assert(r@ =~= Set::<Seq<char>>::empty());
        r
    }

    /// Whether the place was inlined.
    pub fn is_expanded(&self, path: &str, line: u32) -> (r: bool)
        ensures
            r == self@.contains(place_key(path@, line)),
    {
        let key = key_of(path, line);
        has_string(self.expanded.as_slice(), key.as_str())
    }

    /// Records that the place was inlined.
    pub fn record_expand(&mut self, path: &str, line: u32)
        ensures
            final(self)@ == old(self)@.insert(place_key(path@, line)),
    {
        let key = key_of(path, line);
        let ghost was = strs(self.expanded@);
        if !has_string(self.expanded.as_slice(), key.as_str()) {
            let ghost k = key@;
            self.expanded.push(key);
            proof {
                let now = strs(self.expanded@);
                assert(now =~= was.push(k));
                assert forall|x: Seq<char>| now.contains(x) == (was.contains(x) || x == k) by {
                    if was.contains(x) {
                        let i = choose|i: int| 0 <= i < was.len() && was[i] == x;
                        assert(now[i] == x);
                    }
                    if x == k {
                        assert(now[was.len() as int] == x);
                    }
                }
                assert(now.to_set() =~= was.to_set().insert(k));
            }
        } else {
            assert(was.to_set() =~= was.to_set().insert(key@));
        }
    }
}

impl Default for Session {
    fn default() -> (r: Self)
        ensures
            r@ == Set::<Seq<char>>::empty(),
    {
        Session::new()
    }
}

/// Two places that differ are told apart.
pub proof fn law_places_told_apart(p: Seq<char>, l: u32, q: Seq<char>, m: u32)
    requires
        place_key(p, l) == place_key(q, m),
    ensures
        p == q,
        l == m,
{
    reveal_strlit(":");
    let a = dec(l as nat);
    let b = dec(m as nat);
    let k = place_key(p, l);
    lemma_dec_value(l as nat);
    lemma_dec_value(m as nat);
    assert(k.len() == p.len() + 1 + a.len());
    assert(k.len() == q.len() + 1 + b.len());
    assert(k[p.len() as int] == ':');
    assert(k[q.len() as int] == ':') by {
        assert(place_key(q, m)[q.len() as int] == ':');
    }
    if p.len() < q.len() {
        let i = q.len() - p.len() - 1;
        assert(k[q.len() as int] == a[i]);
        assert(is_digit(a[i]));
    }
    if q.len() < p.len() {
        let i = p.len() - q.len() - 1;
        assert(place_key(q, m)[p.len() as int] == b[i]);
        assert(is_digit(b[i]));
    }
    assert(p =~= q) by {
        assert forall|i: int| 0 <= i < p.len() implies p[i] == q[i] by {
            assert(k[i] == p[i]);
            assert(place_key(q, m)[i] == q[i]);
        }
    }
    assert(a =~= b) by {
        assert forall|i: int| 0 <= i < a.len() implies a[i] == b[i] by {
            assert(k[p.len() + 1 + i] == a[i]);
            assert(place_key(q, m)[q.len() + 1 + i] == b[i]);
        }
    }
}

} // verus!
