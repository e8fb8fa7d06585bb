//! What was computed for a file, kept as long as the file does not change.
//!
//! An entry is known by the path and the time of the last change, so that what was
//! computed before a change is never found again.
use vstd::prelude::*;

use crate::paths::{file_key, key_of};
use crate::syntax::{grammar_name, parse, parsed, tree_source};

verus! {

/// How many trees are kept at most. Beyond it all are dropped at once.
pub const PARSE_CACHE_LIMIT: usize = 2000;

/// What a table of outlines holds.
pub uninterp spec fn outline_table(m: dashmap::DashMap<(String, u64), String>) -> Map<
    (Seq<char>, u64),
    Seq<char>,
>;

/// What a table of trees holds: the grammar and the content of each.
pub uninterp spec fn tree_table(m: dashmap::DashMap<(String, u64), tree_sitter::Tree>) -> Map<
    (Seq<char>, u64),
    (Seq<char>, Seq<char>),
>;

/// `dashmap::DashMap::new`: a table of outlines that holds nothing.
#[verifier::external_body]
fn new_outlines() -> (r: dashmap::DashMap<(String, u64), String>)
    ensures
        forall|k: (Seq<char>, u64)| !#[trigger] outline_table(r).contains_key(k),
{
    dashmap::DashMap::new()
}

/// `dashmap::DashMap::get`: a copy of what the table holds for the key.
#[verifier::external_body]
fn get_outline(m: &dashmap::DashMap<(String, u64), String>, key: &(String, u64)) -> (r: Option<String>)
    ensures
        r is Some <==> outline_table(*m).contains_key((key.0@, key.1)),
        r matches Some(s) ==> s@ == outline_table(*m)[(key.0@, key.1)],
{
    m.get(key).map(|v| v.value().clone())
}

/// `dashmap::DashMap::insert`: the table holds the outline for the key, and for every
/// other key what it held before.
#[verifier::external_body]
fn put_outline(m: &mut dashmap::DashMap<(String, u64), String>, key: (String, u64), outline: String)
    ensures
        outline_table(*final(m)) == outline_table(*old(m)).insert((key.0@, key.1), outline@),
{
    m.insert(key, outline);
}

/// `dashmap::DashMap::new`: a table of trees that holds nothing.
#[verifier::external_body]
fn new_trees() -> (r: dashmap::DashMap<(String, u64), tree_sitter::Tree>)
    ensures
        forall|k: (Seq<char>, u64)| !#[trigger] tree_table(r).contains_key(k),
{
    dashmap::DashMap::new()
}

/// `dashmap::DashMap::get`: a copy of the tree that the table holds for the key.
#[verifier::external_body]
fn get_tree(m: &dashmap::DashMap<(String, u64), tree_sitter::Tree>, key: &(String, u64)) -> (r: Option<
    tree_sitter::Tree,
>)
    ensures
        r is Some <==> tree_table(*m).contains_key((key.0@, key.1)),
        r matches Some(t) ==> tree_source(t) == tree_table(*m)[(key.0@, key.1)],
{
    m.get(key).map(|v| v.value().clone())
}

/// `dashmap::DashMap::insert`: the table holds the tree for the key, and for every
/// other key what it held before. What comes back is a copy of the tree.
#[verifier::external_body]
fn put_tree(
    m: &mut dashmap::DashMap<(String, u64), tree_sitter::Tree>,
    key: (String, u64),
    tree: tree_sitter::Tree,
) -> (r: tree_sitter::Tree)
    ensures
        tree_table(*final(m)) == tree_table(*old(m)).insert((key.0@, key.1), tree_source(tree)),
        tree_source(r) == tree_source(tree),
{
    m.insert(key, tree.clone());
    tree
}

/// `dashmap::DashMap::clear`: the table holds nothing.
#[verifier::external_body]
fn clear_trees(m: &mut dashmap::DashMap<(String, u64), tree_sitter::Tree>)
    ensures
        forall|k: (Seq<char>, u64)| !#[trigger] tree_table(*final(m)).contains_key(k),
{
    m.clear();
}

/// The outlines and trees that were computed.
pub struct OutlineCache {
    entries: dashmap::DashMap<(String, u64), String>,
    trees: dashmap::DashMap<(String, u64), tree_sitter::Tree>,
    tree_count: usize,
}

/// What a cache holds.
pub struct CacheView {
    pub outlines: Map<(Seq<char>, u64), Seq<char>>,
    pub trees: Map<(Seq<char>, u64), (Seq<char>, Seq<char>)>,
    pub tree_count: nat,
}

impl View for OutlineCache {
    type V = CacheView;

    closed spec fn view(&self) -> CacheView {
        CacheView {
            outlines: outline_table(self.entries),
            trees: tree_table(self.trees),
            tree_count: self.tree_count as nat,
        }
    }
}

impl CacheView {
    /// The count is that of the trees, which are not too many.
    pub open spec fn well_formed(self) -> bool {
        &&& self.trees.dom().finite()
        &&& self.tree_count == self.trees.dom().len()
        &&& self.tree_count <= PARSE_CACHE_LIMIT
    }
}

/// The trees after the one for the key was kept as well: where there are as many as
/// may be, the others are dropped first.
pub open spec fn with_tree(
    v: CacheView,
    key: (Seq<char>, u64),
    source: (Seq<char>, Seq<char>),
) -> Map<(Seq<char>, u64), (Seq<char>, Seq<char>)> {
    if v.tree_count >= PARSE_CACHE_LIMIT {
        Map::<(Seq<char>, u64), (Seq<char>, Seq<char>)>::empty().insert(key, source)
    } else {
        v.trees.insert(key, source)
    }
}

impl OutlineCache {
    /// A cache that holds nothing.
    pub fn new() -> (r: Self)
        ensures
            r@.well_formed(),
            r@.outlines == Map::<(Seq<char>, u64), Seq<char>>::empty(),
            r@.trees == Map::<(Seq<char>, u64), (Seq<char>, Seq<char>)>::empty(),
    {
        let r = OutlineCache { entries: new_outlines(), trees: new_trees(), tree_count: 0 };
        assert(r@.outlines =~= Map::<(Seq<char>, u64), Seq<char>>::empty());
        assert(r@.trees =~= Map::<(Seq<char>, u64), (Seq<char>, Seq<char>)>::empty());
        r
    }

    /// The outline of the file, computed and kept where it is not known.
    pub fn get_or_compute<F: FnOnce() -> String>(&mut self, path: &str, mtime: u64, compute: F) -> (r: String)
        requires
            call_requires(compute, ()),
        ensures
            old(self)@.outlines.contains_key((file_key(path@), mtime)) ==> r@ == old(self)@.outlines[(
                file_key(path@),
                mtime,
            )] && final(self)@ == old(self)@,
            !old(self)@.outlines.contains_key((file_key(path@), mtime)) ==> call_ensures(compute, (), r)
                && final(self)@.outlines == old(self)@.outlines.insert((file_key(path@), mtime), r@),
            final(self)@.trees == old(self)@.trees,
            final(self)@.tree_count == old(self)@.tree_count,
    {
        let key = (key_of(path), mtime);
        if let Some(o) = get_outline(&self.entries, &key) {
            return o;
        }
        let o = compute();
        put_outline(&mut self.entries, key, o.clone());
        o
    }

    /// The syntax tree of the content, parsed and kept where it is not known. The
    /// content must be that of the file at that time.
    pub fn get_or_parse(
        &mut self,
        path: &str,
        mtime: u64,
        content: &str,
        language: &tree_sitter::Language,
    ) -> (r: Option<tree_sitter::Tree>)
        requires
            old(self)@.well_formed(),
        ensures
            final(self)@.well_formed(),
            final(self)@.outlines == old(self)@.outlines,
            old(self)@.trees.contains_key((file_key(path@), mtime)) ==> (r matches Some(t) && tree_source(t)
                == old(self)@.trees[(file_key(path@), mtime)]) && final(self)@.trees == old(self)@.trees,
            !old(self)@.trees.contains_key((file_key(path@), mtime)) ==> (match r {
                Some(t) => parsed(grammar_name(*language), content@) is Some && tree_source(t) == (
                    grammar_name(*language),
                    content@,
                ) && final(self)@.trees == with_tree(
                    old(self)@,
                    (file_key(path@), mtime),
                    (grammar_name(*language), content@),
                ),
                None => parsed(grammar_name(*language), content@) is None && final(self)@.trees
                    == old(self)@.trees,
            }),
    {
        let key = (key_of(path), mtime);
        if let Some(t) = get_tree(&self.trees, &key) {
            return Some(t);
        }
        let tree = match parse(language, content) {
            Some(t) => t,
            None => {
                return None;
            },
        };
        if self.tree_count >= PARSE_CACHE_LIMIT {
            clear_trees(&mut self.trees);
            self.tree_count = 0;
            assert(tree_table(self.trees) =~= Map::<
                (Seq<char>, u64),
                (Seq<char>, Seq<char>),
            >::empty());
        }
        let ghost before = tree_table(self.trees);
        let r = put_tree(&mut self.trees, key, tree);
        self.tree_count = self.tree_count + 1;
        proof {
            let k = (file_key(path@), mtime);
            assert(!before.contains_key(k));
            assert(tree_table(self.trees).dom() =~= before.dom().insert(k));
        }
        Some(r)
    }
}

/// An outline that was kept is found again for the same file at the same time, and is
/// not found for the file at another time.
pub proof fn law_outline_until_changed(
    known: Map<(Seq<char>, u64), Seq<char>>,
    path: Seq<char>,
    mtime: u64,
    later: u64,
    outline: Seq<char>,
)
    requires
        mtime != later,
        !known.contains_key((file_key(path), later)),
    ensures
        known.insert((file_key(path), mtime), outline)[(file_key(path), mtime)] == outline,
        !known.insert((file_key(path), mtime), outline).contains_key((file_key(path), later)),
{
}

/// However many trees are kept, there are never more than the limit.
pub proof fn law_trees_bounded(
    v: CacheView,
    key: (Seq<char>, u64),
    source: (Seq<char>, Seq<char>),
)
    requires
        v.well_formed(),
        !v.trees.contains_key(key),
    ensures
        with_tree(v, key, source).dom().finite(),
        with_tree(v, key, source).dom().len() <= PARSE_CACHE_LIMIT,
        with_tree(v, key, source).contains_key(key),
{
    if v.tree_count >= PARSE_CACHE_LIMIT {
        let none = Map::<(Seq<char>, u64), (Seq<char>, Seq<char>)>::empty();
        assert(with_tree(v, key, source).dom() =~= none.dom().insert(key));
    } else {
        assert(with_tree(v, key, source).dom() =~= v.trees.dom().insert(key));
    }
}

impl Default for OutlineCache {
    fn default() -> (r: Self)
        ensures
            r@.well_formed(),
            r@.outlines == Map::<(Seq<char>, u64), Seq<char>>::empty(),
            r@.trees == Map::<(Seq<char>, u64), (Seq<char>, Seq<char>)>::empty(),
    {
        OutlineCache::new()
    }
}

} // verus!
