//! Search results grouped by what they are and where they stand.
use vstd::prelude::*;

use crate::lang::{first_with_manifest, package_root};
use crate::paths::{ancestors, equal_paths, parent, parent_of, same_path};
use crate::text::{chars_of, has, has_text, opt_text, strs};
use crate::types::{found_view, ints, lemma_found_push, lemma_ints_push, Match, MatchView};

verus! {

/// Search results grouped by what they are and where they stand.
pub struct FacetedResult {
    pub definitions: Vec<Match>,
    pub implementations: Vec<Match>,
    pub tests: Vec<Match>,
    pub usages_local: Vec<Match>,
    pub usages_cross: Vec<Match>,
}

/// One of the groups.
#[derive(Clone, Copy, Debug, PartialEq, Eq, Structural)]
pub enum Facet {
    Definition,
    Implementation,
    Test,
    LocalUsage,
    OtherUsage,
}

/// The match is in a test file, or its line is one of a test.
pub open spec fn in_test(m: MatchView) -> bool {
    ||| has(m.path, "_test."@)
    ||| has(m.path, "/test/"@)
    ||| has(m.path, "/tests/"@)
    ||| has(m.path, "_spec."@)
    ||| has(m.path, "/spec/"@)
    ||| has(m.text, "#[test]"@)
    ||| has(m.text, "#[cfg(test)]"@)
    ||| has(m.text, "@Test"@)
    ||| has(m.text, "def test_"@)
    ||| has(m.text, "it(\""@)
    ||| has(m.text, "it('"@)
    ||| has(m.text, "describe(\""@)
    ||| has(m.text, "describe('"@)
    ||| has(m.text, "func Test"@)
}

/// Whether the match is in a test file, or its line is one of a test.
pub fn is_test_match(m: &Match) -> (r: bool)
    ensures
        r == in_test(m@),
{
    let p = chars_of(m.path.as_str());
    let p = p.as_slice();
    if has_text(p, "_test.") || has_text(p, "/test/") || has_text(p, "/tests/") || has_text(
        p,
        "_spec.",
    ) || has_text(p, "/spec/") {
        return true;
    }
    let t = chars_of(m.text.as_str());
    let t = t.as_slice();
    has_text(t, "#[test]") || has_text(t, "#[cfg(test)]") || has_text(t, "@Test") || has_text(
        t,
        "def test_",
    ) || has_text(t, "it(\"") || has_text(t, "it('") || has_text(t, "describe(\"") || has_text(
        t,
        "describe('",
    ) || has_text(t, "func Test")
}

/// The root of the package that the file is in, by the manifests that exist.
pub open spec fn package_of(path: Seq<char>, manifests: Seq<Seq<char>>) -> Option<Seq<char>> {
    match parent(path) {
        Some(d) => first_with_manifest(ancestors(d), manifests, 0),
        None => None,
    }
}

/// The root of the package that the file is in.
pub fn file_package(path: &str, manifests: &[String]) -> (r: Option<String>)
    ensures
        opt_text(r) == package_of(path@, strs(manifests@)),
{
    match parent_of(path) {
        Some(d) => package_root(d.as_str(), manifests),
        None => None,
    }
}

/// The file is in the package whose root is given.
pub open spec fn in_package(path: Seq<char>, primary: Option<Seq<char>>, manifests: Seq<Seq<char>>) -> bool {
    &&& primary is Some
    &&& package_of(path, manifests) is Some
    &&& same_path(package_of(path, manifests)->0, primary->0)
}

/// Whether the file is in the package whose root is given.
pub fn is_same_package(path: &str, primary: &Option<String>, manifests: &[String]) -> (r: bool)
    ensures
        r == in_package(path@, opt_text(*primary), strs(manifests@)),
{
    match primary {
        Some(root) => match file_package(path, manifests) {
            Some(p) => equal_paths(p.as_str(), root.as_str()),
            None => false,
        },
        None => false,
    }
}

/// The package of the first definition, from position `i` on.
pub open spec fn primary_package(ms: Seq<MatchView>, manifests: Seq<Seq<char>>, i: int) -> Option<Seq<char>>
    decreases ms.len() - i,
{
    if i < 0 || i >= ms.len() {
        None
    } else if ms[i].is_definition {
        package_of(ms[i].path, manifests)
    } else {
        primary_package(ms, manifests, i + 1)
    }
}

fn find_primary(ms: &Vec<Match>, manifests: &[String]) -> (r: Option<String>)
    ensures
        opt_text(r) == primary_package(found_view(ms@), strs(manifests@), 0),
{
    let ghost v = found_view(ms@);
    let mut i: usize = 0;
    while i < ms.len()
        invariant
            i <= ms@.len(),
            v == found_view(ms@),
            primary_package(v, strs(manifests@), 0) == primary_package(
                v,
                strs(manifests@),
                i as int,
            ),
        decreases ms@.len() - i,
    {
        assert(v[i as int] == ms@[i as int]@);
        if ms[i].is_definition {
            return file_package(ms[i].path.as_str(), manifests);
        }
        i = i + 1;
    }
    None
}

/// The group that a match belongs to.
pub open spec fn facet_of(m: MatchView, primary: Option<Seq<char>>, manifests: Seq<Seq<char>>) -> Facet {
    if m.is_definition && m.impl_target is Some {
        Facet::Implementation
    } else if m.is_definition {
        Facet::Definition
    } else if in_test(m) {
        Facet::Test
    } else if in_package(m.path, primary, manifests) {
        Facet::LocalUsage
    } else {
        Facet::OtherUsage
    }
}

/// Those of the first `n` matches that belong to the group, in their order.
pub open spec fn of_facet(
    ms: Seq<MatchView>,
    f: Facet,
    primary: Option<Seq<char>>,
    manifests: Seq<Seq<char>>,
    n: int,
) -> Seq<MatchView>
    decreases n,
{
    if n <= 0 {
        Seq::empty()
    } else {
        let r = of_facet(ms, f, primary, manifests, n - 1);
        if facet_of(ms[n - 1], primary, manifests) == f {
            r.push(ms[n - 1])
        } else {
            r
        }
    }
}

/// Those of the matches that belong to the group, where the first definition tells
/// which package is the local one.
pub open spec fn facet(ms: Seq<MatchView>, f: Facet, manifests: Seq<Seq<char>>) -> Seq<MatchView> {
    of_facet(ms, f, primary_package(ms, manifests, 0), manifests, ms.len() as int)
}

/// Groups the matches. The manifests are those that exist in the directories of the
/// matches and above.
pub fn facet_matches(matches: Vec<Match>, manifests: &[String]) -> (r: FacetedResult)
    ensures
        found_view(r.definitions@) == facet(
            found_view(matches@),
            Facet::Definition,
            strs(manifests@),
        ),
        found_view(r.implementations@) == facet(
            found_view(matches@),
            Facet::Implementation,
            strs(manifests@),
        ),
        found_view(r.tests@) == facet(found_view(matches@), Facet::Test, strs(manifests@)),
        found_view(r.usages_local@) == facet(
            found_view(matches@),
            Facet::LocalUsage,
            strs(manifests@),
        ),
        found_view(r.usages_cross@) == facet(
            found_view(matches@),
            Facet::OtherUsage,
            strs(manifests@),
        ),
{
    broadcast use lemma_found_push;

    let ghost all = found_view(matches@);
    let ghost mf = strs(manifests@);
    let primary = find_primary(&matches, manifests);
    let ghost p = opt_text(primary);
    let n: usize = matches.len();
    let mut left = matches;
    let mut definitions: Vec<Match> = Vec::new();
    let mut implementations: Vec<Match> = Vec::new();
    let mut tests: Vec<Match> = Vec::new();
    let mut usages_local: Vec<Match> = Vec::new();
    let mut usages_cross: Vec<Match> = Vec::new();
    let mut i: usize = 0;
    assert(all.skip(0) =~= all);
    assert(found_view(definitions@) =~= Seq::<MatchView>::empty());
    while i < n
        invariant
            i <= n,
            n == all.len(),
            mf == strs(manifests@),
            p == opt_text(primary),
            left@.len() == n - i,
            found_view(left@) == all.skip(i as int),
            found_view(definitions@) == of_facet(all, Facet::Definition, p, mf, i as int),
            found_view(implementations@) == of_facet(
                all,
                Facet::Implementation,
                p,
                mf,
                i as int,
            ),
            found_view(tests@) == of_facet(all, Facet::Test, p, mf, i as int),
            found_view(usages_local@) == of_facet(all, Facet::LocalUsage, p, mf, i as int),
            found_view(usages_cross@) == of_facet(all, Facet::OtherUsage, p, mf, i as int),
        decreases n - i,
    {
        let ghost was = left@;
        let m = left.remove(0);
        proof {
            assert(found_view(was)[0] == m@);
            assert(all.skip(i as int)[0] == all[i as int]);
            assert(found_view(left@) =~= found_view(was).skip(1));
            assert(all.skip(i as int).skip(1) =~= all.skip(i + 1));
        }
        if m.is_definition && m.impl_target.is_some() {
            implementations.push(m);
        } else if m.is_definition {
            definitions.push(m);
        } else if is_test_match(&m) {
            tests.push(m);
        } else if is_same_package(m.path.as_str(), &primary, manifests) {
            usages_local.push(m);
        } else {
            usages_cross.push(m);
        }
        i = i + 1;
    }
    FacetedResult { definitions, implementations, tests, usages_local, usages_cross }
}

/// The group that a match belongs to.
fn classify_match(m: &Match, primary: &Option<String>, manifests: &[String]) -> (r: Facet)
    ensures
        r == facet_of(m@, opt_text(*primary), strs(manifests@)),
{
    if m.is_definition && m.impl_target.is_some() {
        Facet::Implementation
    } else if m.is_definition {
        Facet::Definition
    } else if is_test_match(m) {
        Facet::Test
    } else if is_same_package(m.path.as_str(), primary, manifests) {
        Facet::LocalUsage
    } else {
        Facet::OtherUsage
    }
}

/// The groups that the matches belong to.
pub fn facets_of(matches: &Vec<Match>, manifests: &[String]) -> (r: Vec<Facet>)
    ensures
        r@.len() == matches@.len(),
        forall|i: int|
            0 <= i < r@.len() ==> #[trigger] r@[i] == facet_of(
                found_view(matches@)[i],
                primary_package(found_view(matches@), strs(manifests@), 0),
                strs(manifests@),
            ),
{
    let ghost v = found_view(matches@);
    let primary = find_primary(matches, manifests);
    let mut r: Vec<Facet> = Vec::new();
    let mut i: usize = 0;
    while i < matches.len()
        invariant
            i <= matches@.len(),
            v == found_view(matches@),
            opt_text(primary) == primary_package(v, strs(manifests@), 0),
            r@.len() == i,
            forall|k: int|
                0 <= k < i ==> #[trigger] r@[k] == facet_of(
                    v[k],
                    primary_package(v, strs(manifests@), 0),
                    strs(manifests@),
                ),
        decreases matches@.len() - i,
    {
        assert(v[i as int] == matches@[i as int]@);
        r.push(classify_match(&matches[i], &primary, manifests));
        i = i + 1;
    }
    r
}

/// The positions among the first `n` of the matches that belong to the group.
pub open spec fn positions_of(
    ms: Seq<MatchView>,
    f: Facet,
    primary: Option<Seq<char>>,
    manifests: Seq<Seq<char>>,
    n: int,
) -> Seq<int>
    decreases n,
{
    if n <= 0 {
        Seq::empty()
    } else {
        let r = positions_of(ms, f, primary, manifests, n - 1);
        if facet_of(ms[n - 1], primary, manifests) == f {
            r.push(n - 1)
        } else {
            r
        }
    }
}

/// The positions of the matches that belong to the group.
pub open spec fn facet_positions(ms: Seq<MatchView>, f: Facet, manifests: Seq<Seq<char>>) -> Seq<int> {
    positions_of(ms, f, primary_package(ms, manifests, 0), manifests, ms.len() as int)
}

/// The positions of the matches that belong to the group, by the groups of all.
pub(crate) fn positions_in(facets: &Vec<Facet>, f: Facet, Ghost(ms): Ghost<Seq<MatchView>>, Ghost(mf): Ghost<Seq<Seq<char>>>) -> (r: Vec<usize>)
    requires
        facets@.len() == ms.len(),
        forall|i: int|
            0 <= i < facets@.len() ==> #[trigger] facets@[i] == facet_of(
                ms[i],
                primary_package(ms, mf, 0),
                mf,
            ),
    ensures
        ints(r@) == facet_positions(ms, f, mf),
        forall|k: int| 0 <= k < r@.len() ==> #[trigger] r@[k] < facets@.len(),
{
    broadcast use lemma_ints_push;

    let ghost p = primary_package(ms, mf, 0);
    let mut r: Vec<usize> = Vec::new();
    let mut i: usize = 0;
    assert(ints(r@) =~= Seq::<int>::empty());
    while i < facets.len()
        invariant
            i <= facets@.len(),
            facets@.len() == ms.len(),
            p == primary_package(ms, mf, 0),
            forall|i: int|
                0 <= i < facets@.len() ==> #[trigger] facets@[i] == facet_of(ms[i], p, mf),
            ints(r@) == positions_of(ms, f, p, mf, i as int),
            forall|k: int| 0 <= k < r@.len() ==> #[trigger] r@[k] < facets@.len(),
        decreases facets@.len() - i,
    {
        if facets[i] == f {
            r.push(i);
        }
        i = i + 1;
    }
    r
}

/// What stands at the positions of a group are its members.
pub proof fn law_positions_are_members(ms: Seq<MatchView>, f: Facet, manifests: Seq<Seq<char>>)
    ensures
        facet_positions(ms, f, manifests).map_values(|i: int| ms[i]) == facet(ms, f, manifests),
{
    lemma_positions(ms, f, primary_package(ms, manifests, 0), manifests, ms.len() as int);
}

proof fn lemma_positions(
    ms: Seq<MatchView>,
    f: Facet,
    primary: Option<Seq<char>>,
    manifests: Seq<Seq<char>>,
    n: int,
)
    ensures
        positions_of(ms, f, primary, manifests, n).map_values(|i: int| ms[i]) == of_facet(
            ms,
            f,
            primary,
            manifests,
            n,
        ),
    decreases n,
{
    let g = |i: int| ms[i];
    if n > 0 {
        lemma_positions(ms, f, primary, manifests, n - 1);
        let r = positions_of(ms, f, primary, manifests, n - 1);
        assert(r.push(n - 1).map_values(g) =~= r.map_values(g).push(ms[n - 1]));
    } else {
        assert(Seq::<int>::empty().map_values(g) =~= Seq::<MatchView>::empty());
    }
}

proof fn lemma_facet_contains(
    ms: Seq<MatchView>,
    f: Facet,
    primary: Option<Seq<char>>,
    manifests: Seq<Seq<char>>,
    n: int,
    i: int,
)
    requires
        0 <= i < n <= ms.len(),
        facet_of(ms[i], primary, manifests) == f,
    ensures
        of_facet(ms, f, primary, manifests, n).contains(ms[i]),
    decreases n,
{
    let r = of_facet(ms, f, primary, manifests, n - 1);
    let t = of_facet(ms, f, primary, manifests, n);
    if i < n - 1 {
        lemma_facet_contains(ms, f, primary, manifests, n - 1, i);
        let k = choose|k: int| 0 <= k < r.len() && r[k] == ms[i];
        assert(t[k] == ms[i]);
    } else {
        assert(t[r.len() as int] == ms[i]);
    }
}

proof fn lemma_facet_members(
    ms: Seq<MatchView>,
    f: Facet,
    primary: Option<Seq<char>>,
    manifests: Seq<Seq<char>>,
    n: int,
)
    requires
        0 <= n <= ms.len(),
    ensures
        forall|k: int|
            0 <= k < of_facet(ms, f, primary, manifests, n).len() ==> facet_of(
                #[trigger] of_facet(ms, f, primary, manifests, n)[k],
                primary,
                manifests,
            ) == f && ms.contains(of_facet(ms, f, primary, manifests, n)[k]),
    decreases n,
{
    if n > 0 {
        lemma_facet_members(ms, f, primary, manifests, n - 1);
        let r = of_facet(ms, f, primary, manifests, n - 1);
        let t = of_facet(ms, f, primary, manifests, n);
        assert forall|k: int| 0 <= k < t.len() implies facet_of(#[trigger] t[k], primary, manifests)
            == f && ms.contains(t[k]) by {
            if k < r.len() {
                assert(t[k] == r[k]);
            } else {
                assert(t[k] == ms[n - 1]);
            }
        }
    }
}

proof fn lemma_facet_lengths(
    ms: Seq<MatchView>,
    primary: Option<Seq<char>>,
    manifests: Seq<Seq<char>>,
    n: int,
)
    requires
        0 <= n <= ms.len(),
    ensures
        of_facet(ms, Facet::Definition, primary, manifests, n).len() + of_facet(
            ms,
            Facet::Implementation,
            primary,
            manifests,
            n,
        ).len() + of_facet(ms, Facet::Test, primary, manifests, n).len() + of_facet(
            ms,
            Facet::LocalUsage,
            primary,
            manifests,
            n,
        ).len() + of_facet(ms, Facet::OtherUsage, primary, manifests, n).len() == n,
    decreases n,
{
    if n > 0 {
        lemma_facet_lengths(ms, primary, manifests, n - 1);
    }
}

/// Grouping loses no match and repeats none: each match is in the group that it
/// belongs to, a group holds only matches that belong to it, and the groups have as
/// many members together as there are matches.
pub proof fn law_facets_partition(ms: Seq<MatchView>, manifests: Seq<Seq<char>>)
    ensures
        forall|i: int|
            0 <= i < ms.len() ==> facet(
                ms,
                facet_of(#[trigger] ms[i], primary_package(ms, manifests, 0), manifests),
                manifests,
            ).contains(ms[i]),
        forall|f: Facet, k: int|
            0 <= k < facet(ms, f, manifests).len() ==> facet_of(
                #[trigger] facet(ms, f, manifests)[k],
                primary_package(ms, manifests, 0),
                manifests,
            ) == f && ms.contains(facet(ms, f, manifests)[k]),
        facet(ms, Facet::Definition, manifests).len() + facet(
            ms,
            Facet::Implementation,
            manifests,
        ).len() + facet(ms, Facet::Test, manifests).len() + facet(
            ms,
            Facet::LocalUsage,
            manifests,
        ).len() + facet(ms, Facet::OtherUsage, manifests).len() == ms.len(),
{
    let p = primary_package(ms, manifests, 0);
    let n = ms.len() as int;
    assert forall|i: int| 0 <= i < ms.len() implies facet(
        ms,
        facet_of(#[trigger] ms[i], p, manifests),
        manifests,
    ).contains(ms[i]) by {
        lemma_facet_contains(ms, facet_of(ms[i], p, manifests), p, manifests, n, i);
    }
    assert forall|f: Facet, k: int| 0 <= k < facet(ms, f, manifests).len() implies facet_of(
        #[trigger] facet(ms, f, manifests)[k],
        p,
        manifests,
    ) == f && ms.contains(facet(ms, f, manifests)[k]) by {
        lemma_facet_members(ms, f, p, manifests, n);
    }
    lemma_facet_lengths(ms, p, manifests, n);
}

/// A match is among the definitions or implementations exactly if it is a definition,
/// among the implementations exactly if it implements something, and among the tests
/// exactly if it is a use in a test; other uses are told apart by their package.
pub proof fn law_groups_tell_definitions_from_uses(
    m: MatchView,
    primary: Option<Seq<char>>,
    manifests: Seq<Seq<char>>,
)
    ensures
        m.is_definition <==> facet_of(m, primary, manifests) == Facet::Definition || facet_of(
            m,
            primary,
            manifests,
        ) == Facet::Implementation,
        m.is_definition ==> (m.impl_target is Some <==> facet_of(m, primary, manifests)
            == Facet::Implementation),
        !m.is_definition ==> (in_test(m) <==> facet_of(m, primary, manifests) == Facet::Test),
        !m.is_definition && !in_test(m) ==> (in_package(m.path, primary, manifests) <==> facet_of(
            m,
            primary,
            manifests,
        ) == Facet::LocalUsage),
{
}

/// The local package is that of the first definition.
pub proof fn law_first_definition_sets_the_package(
    ms: Seq<MatchView>,
    manifests: Seq<Seq<char>>,
    i: int,
    k: int,
)
    requires
        0 <= i <= k < ms.len(),
        ms[k].is_definition,
        forall|j: int| i <= j < k ==> !(#[trigger] ms[j]).is_definition,
    ensures
        primary_package(ms, manifests, i) == package_of(ms[k].path, manifests),
    decreases k - i,
{
    if i < k {
        law_first_definition_sets_the_package(ms, manifests, i + 1, k);
    }
}

} // verus!
