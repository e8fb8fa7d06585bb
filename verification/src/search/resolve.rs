//! Resolving the functions that a definition calls: in its own file, in those that it
//! imports and in those of its package, and once more for what they call in turn.
use vstd::prelude::*;

use crate::lang::outline::outline_of;
use crate::lang::{detect_file_type, file_type};
use crate::paths::same_path;
use crate::text::{has_string, lemma_strs_push, strs};
use crate::types::{EntryView, FileType, Lang};

use super::callees::{
    callees_view, children_within, law_children_within_budget, law_resolved_or_remaining, listed,
    places_of, places_view, resolve_entries, resolve_in_content, trees_view, CalleeTreeView,
    CalleeView, PlaceView, ResolveView, ResolvedCallee, ResolvedCalleeNode, SecondHop,
};

verus! {

/// A file that was read.
#[derive(Debug)]
pub struct SourceFile {
    pub path: String,
    pub content: String,
}

/// What a file that was read says.
pub struct SourceView {
    pub path: Seq<char>,
    pub content: Seq<char>,
}

impl View for SourceFile {
    type V = SourceView;

    open spec fn view(&self) -> SourceView {
        SourceView { path: self.path@, content: self.content@ }
    }
}

/// What the files of a list say.
pub open spec fn sources_view(v: Seq<SourceFile>) -> Seq<SourceView> {
    v.map_values(|f: SourceFile| f@)
}

/// The first `n` names, each once.
pub open spec fn each_once(names: Seq<Seq<char>>, n: int) -> Seq<Seq<char>>
    decreases n,
{
    if n <= 0 {
        Seq::empty()
    } else if each_once(names, n - 1).contains(names[n - 1]) {
        each_once(names, n - 1)
    } else {
        each_once(names, n - 1).push(names[n - 1])
    }
}

/// What is resolved after looking into a file that is imported.
pub open spec fn with_import(s: ResolveView, f: SourceView) -> ResolveView {
    match file_type(f.path) {
        FileType::Code(lang) => resolve_entries(s, outline_of(f.content, lang), f.path),
        _ => s,
    }
}

/// What is resolved after looking into the first `n` files that are imported, as long
/// as anything remains.
pub open spec fn with_imports(s: ResolveView, files: Seq<SourceView>, n: int) -> ResolveView
    decreases n,
{
    if n <= 0 {
        s
    } else {
        let r = with_imports(s, files, n - 1);
        if r.remaining.len() == 0 {
            r
        } else {
            with_import(r, files[n - 1])
        }
    }
}

/// What is resolved after looking into the first `n` files of a Go package, as long as
/// anything remains.
pub open spec fn with_package(s: ResolveView, files: Seq<SourceView>, n: int) -> ResolveView
    decreases n,
{
    if n <= 0 {
        s
    } else {
        let r = with_package(s, files, n - 1);
        if r.remaining.len() == 0 {
            r
        } else {
            resolve_entries(r, outline_of(files[n - 1].content, Lang::Go), files[n - 1].path)
        }
    }
}

/// What is resolved of the names that are called in a file.
pub open spec fn resolution(
    names: Seq<Seq<char>>,
    path: Seq<char>,
    content: Seq<char>,
    imported: Seq<SourceView>,
    package: Seq<SourceView>,
) -> Seq<CalleeView> {
    match file_type(path) {
        FileType::Code(lang) => {
            let start = ResolveView {
                remaining: each_once(names, names.len() as int),
                resolved: Seq::empty(),
            };
            let own = resolve_entries(start, outline_of(content, lang), path);
            let near = with_imports(own, imported, imported.len() as int);
            if lang == Lang::Go {
                with_package(near, package, package.len() as int).resolved
            } else {
                near.resolved
            }
        },
        _ => Seq::empty(),
    }
}

fn collect_once(names: &[String]) -> (r: Vec<String>)
    ensures
        strs(r@) == each_once(strs(names@), names@.len() as int),
{
    broadcast use lemma_strs_push;

    let ghost v = strs(names@);
    let mut r: Vec<String> = Vec::new();
    let mut i: usize = 0;
    assert(strs(r@) =~= Seq::<Seq<char>>::empty());
    while i < names.len()
        invariant
            i <= names@.len(),
            v == strs(names@),
            strs(r@) == each_once(v, i as int),
        decreases names@.len() - i,
    {
        assert(v[i as int] == names@[i as int]@);
        if !has_string(r.as_slice(), names[i].as_str()) {
            r.push(names[i].clone());
        }
        i = i + 1;
    }
    r
}

fn resolve_imports(files: &[SourceFile], remaining: &mut Vec<String>, resolved: &mut Vec<ResolvedCallee>)
    ensures
        (ResolveView {
            remaining: strs(final(remaining)@),
            resolved: callees_view(final(resolved)@),
        }) == with_imports(
            ResolveView {
                remaining: strs(old(remaining)@),
                resolved: callees_view(old(resolved)@),
            },
            sources_view(files@),
            files@.len() as int,
        ),
{
    let ghost fs = sources_view(files@);
    let ghost start = ResolveView {
        remaining: strs(remaining@),
        resolved: callees_view(resolved@),
    };
    let mut i: usize = 0;
    while i < files.len()
        invariant
            i <= files@.len(),
            fs == sources_view(files@),
            (ResolveView {
                remaining: strs(remaining@),
                resolved: callees_view(resolved@),
            }) == with_imports(start, fs, i as int),
        decreases files@.len() - i,
    {
        let f = &files[i];
        assert(fs[i as int] == f@);
        assert(strs(remaining@).len() == remaining@.len());
        if remaining.len() > 0 {
            match detect_file_type(f.path.as_str()) {
                FileType::Code(lang) => {
                    resolve_in_content(
                        f.content.as_str(),
                        lang,
                        f.path.as_str(),
                        remaining,
                        resolved,
                    );
                },
                _ => {},
            }
        }
        i = i + 1;
    }
}

fn resolve_same_package(
    files: &[SourceFile],
    remaining: &mut Vec<String>,
    resolved: &mut Vec<ResolvedCallee>,
)
    ensures
        (ResolveView {
            remaining: strs(final(remaining)@),
            resolved: callees_view(final(resolved)@),
        }) == with_package(
            ResolveView {
                remaining: strs(old(remaining)@),
                resolved: callees_view(old(resolved)@),
            },
            sources_view(files@),
            files@.len() as int,
        ),
{
    let ghost fs = sources_view(files@);
    let ghost start = ResolveView {
        remaining: strs(remaining@),
        resolved: callees_view(resolved@),
    };
    let mut i: usize = 0;
    while i < files.len()
        invariant
            i <= files@.len(),
            fs == sources_view(files@),
            (ResolveView {
                remaining: strs(remaining@),
                resolved: callees_view(resolved@),
            }) == with_package(start, fs, i as int),
        decreases files@.len() - i,
    {
        let f = &files[i];
        assert(fs[i as int] == f@);
        assert(strs(remaining@).len() == remaining@.len());
        if remaining.len() > 0 {
            resolve_in_content(
                f.content.as_str(),
                Lang::Go,
                f.path.as_str(),
                remaining,
                resolved,
            );
        }
        i = i + 1;
    }
}

/// The definitions of the functions that are called in a file: those of the file
/// itself, then those of the files that it imports, then, for Go, those of the other
/// files of its package.
pub fn resolve_callees(
    callee_names: &[String],
    source_path: &str,
    source_content: &str,
    imported: &[SourceFile],
    package: &[SourceFile],
) -> (r: Vec<ResolvedCallee>)
    ensures
        callees_view(r@) == resolution(
            strs(callee_names@),
            source_path@,
            source_content@,
            sources_view(imported@),
            sources_view(package@),
        ),
{
    let mut resolved: Vec<ResolvedCallee> = Vec::new();
    assert(callees_view(resolved@) =~= Seq::<CalleeView>::empty());
    match detect_file_type(source_path) {
        FileType::Code(lang) => {
            let mut remaining = collect_once(callee_names);
            resolve_in_content(source_content, lang, source_path, &mut remaining, &mut resolved);
            resolve_imports(imported, &mut remaining, &mut resolved);
            if lang == Lang::Go {
                resolve_same_package(package, &mut remaining, &mut resolved);
            }
        },
        _ => {},
    }
    resolved
}

proof fn lemma_resolve_grows(
    s: ResolveView,
    imported: Seq<SourceView>,
    n: int,
)
    ensures
        with_imports(s, imported, n).remaining.len() + with_imports(s, imported, n).resolved.len()
            == s.remaining.len() + s.resolved.len(),
    decreases n,
{
    if n > 0 {
        lemma_resolve_grows(s, imported, n - 1);
        let r = with_imports(s, imported, n - 1);
        match file_type(imported[n - 1].path) {
            FileType::Code(lang) => {
                law_resolved_or_remaining(
                    r,
                    outline_of(imported[n - 1].content, lang),
                    imported[n - 1].path,
                );
            },
            _ => {},
        }
    }
}

proof fn lemma_package_grows(s: ResolveView, package: Seq<SourceView>, n: int)
    ensures
        with_package(s, package, n).remaining.len() + with_package(s, package, n).resolved.len()
            == s.remaining.len() + s.resolved.len(),
    decreases n,
{
    if n > 0 {
        lemma_package_grows(s, package, n - 1);
        law_resolved_or_remaining(
            with_package(s, package, n - 1),
            outline_of(package[n - 1].content, Lang::Go),
            package[n - 1].path,
        );
    }
}

proof fn lemma_each_once(names: Seq<Seq<char>>, n: int)
    requires
        n <= names.len(),
    ensures
        0 <= n ==> each_once(names, n).len() <= n,
        n < 0 ==> each_once(names, n).len() == 0,
    decreases n,
{
    if n > 0 {
        lemma_each_once(names, n - 1);
    }
}

/// No name is resolved twice: there are never more definitions than names.
pub proof fn law_each_name_once(
    names: Seq<Seq<char>>,
    path: Seq<char>,
    content: Seq<char>,
    imported: Seq<SourceView>,
    package: Seq<SourceView>,
)
    ensures
        resolution(names, path, content, imported, package).len() <= names.len(),
{
    match file_type(path) {
        FileType::Code(lang) => {
            let start = ResolveView {
                remaining: each_once(names, names.len() as int),
                resolved: Seq::empty(),
            };
            lemma_each_once(names, names.len() as int);
            law_resolved_or_remaining(start, outline_of(content, lang), path);
            let own = resolve_entries(start, outline_of(content, lang), path);
            lemma_resolve_grows(own, imported, imported.len() as int);
            let near = with_imports(own, imported, imported.len() as int);
            lemma_package_grows(near, package, package.len() as int);
        },
        _ => {},
    }
}

// ---------------------------------------------------------------------------
// Two hops
// ---------------------------------------------------------------------------

/// The functions that are called, with those that they call in turn, so far.
pub struct HopsView {
    pub trees: Seq<CalleeTreeView>,
    pub known: Seq<PlaceView>,
    pub budget: int,
}

/// What the `i`-th function calls in turn.
pub open spec fn called_by(second: Seq<Seq<CalleeView>>, i: int) -> Seq<CalleeView> {
    if 0 <= i < second.len() {
        second[i]
    } else {
        Seq::empty()
    }
}

/// The first `n` functions with those that they call in turn: a function that is known
/// already is left out, and there are no more of them than the budget allows.
pub open spec fn two_hops(
    first: Seq<CalleeView>,
    second: Seq<Seq<CalleeView>>,
    budget: int,
    n: int,
) -> HopsView
    decreases n,
{
    if n <= 0 {
        HopsView { trees: Seq::empty(), known: places_of(first), budget }
    } else {
        let s = two_hops(first, second, budget, n - 1);
        let children = children_within(called_by(second, n - 1), first[n - 1], s.known, s.budget);
        HopsView {
            trees: s.trees.push(CalleeTreeView { callee: first[n - 1], children }),
            known: s.known + places_of(children),
            budget: s.budget - children.len(),
        }
    }
}

/// The functions that are called, with those that they call in turn where two hops are
/// asked for.
pub open spec fn transitive(
    first: Seq<CalleeView>,
    second: Seq<Seq<CalleeView>>,
    depth_limit: u32,
    budget: int,
) -> Seq<CalleeTreeView> {
    if depth_limit < 2 {
        first.map_values(|c: CalleeView| CalleeTreeView { callee: c, children: Seq::empty() })
    } else {
        two_hops(first, second, budget, first.len() as int).trees
    }
}

/// What the lists of a list say.
pub open spec fn lists_view(v: Seq<Vec<ResolvedCallee>>) -> Seq<Seq<CalleeView>> {
    v.map_values(|x: Vec<ResolvedCallee>| callees_view(x@))
}

/// The functions that are called, with those that they call in turn: `second` gives for
/// each what was resolved of the names that it calls.
pub fn resolve_callees_transitive(
    first_hop: Vec<ResolvedCallee>,
    second: Vec<Vec<ResolvedCallee>>,
    depth_limit: u32,
    budget: usize,
) -> (r: Vec<ResolvedCalleeNode>)
    ensures
        trees_view(r@) == transitive(
            callees_view(first_hop@),
            lists_view(second@),
            depth_limit,
            budget as int,
        ),
{
    let ghost first = callees_view(first_hop@);
    let ghost lists = lists_view(second@);
    let ghost bare = first.map_values(
        |c: CalleeView| CalleeTreeView { callee: c, children: Seq::empty() },
    );
    let n: usize = first_hop.len();
    let m: usize = second.len();
    let mut hop = SecondHop::new(&first_hop, budget);
    let mut left = first_hop;
    let mut rest = second;
    let mut out: Vec<ResolvedCalleeNode> = Vec::new();
    let mut i: usize = 0;
    assert(trees_view(out@) =~= Seq::<CalleeTreeView>::empty());
    assert(first.skip(0) =~= first);
    assert(lists.skip(0) =~= lists);
    assert(bare.take(0) =~= Seq::<CalleeTreeView>::empty());
    assert(places_view(hop.known@) == two_hops(first, lists, budget as int, 0).known);
    while i < n
        invariant
            i <= n,
            n == first.len(),
            m == lists.len(),
            left@.len() == n - i,
            callees_view(left@) == first.skip(i as int),
            rest@.len() == (if i < m {
                m - i
            } else {
                0
            }),
            i < m ==> lists_view(rest@) == lists.skip(i as int),
            bare == first.map_values(
                |c: CalleeView| CalleeTreeView { callee: c, children: Seq::empty() },
            ),
            depth_limit < 2 ==> trees_view(out@) == bare.take(i as int),
            depth_limit >= 2 ==> trees_view(out@) == two_hops(
                first,
                lists,
                budget as int,
                i as int,
            ).trees && places_view(hop.known@) == two_hops(first, lists, budget as int, i as int).known
                && hop.budget == two_hops(first, lists, budget as int, i as int).budget,
        decreases n - i,
    {
        let ghost was = left@;
        let ghost had = rest@;
        let parent = left.remove(0);
        let given: Vec<ResolvedCallee> = if rest.len() > 0 {
            rest.remove(0)
        } else {
            Vec::new()
        };
        proof {
            assert(callees_view(was)[0] == parent@);
            assert(first.skip(i as int)[0] == first[i as int]);
            assert(callees_view(left@) =~= callees_view(was).skip(1));
            assert(first.skip(i as int).skip(1) =~= first.skip(i + 1));
            if i < m {
                assert(lists_view(had)[0] == callees_view(given@));
                assert(lists.skip(i as int)[0] == lists[i as int]);
                assert(lists_view(rest@) =~= lists_view(had).skip(1));
                assert(lists.skip(i as int).skip(1) =~= lists.skip(i + 1));
            } else {
                assert(callees_view(given@) =~= Seq::<CalleeView>::empty());
            }
            assert(callees_view(given@) == called_by(lists, i as int));
        }
        let ghost before = trees_view(out@);
        let children: Vec<ResolvedCallee> = if depth_limit < 2 {
            Vec::new()
        } else {
            hop.resolve_second_hop(&parent, given)
        };
        let node = ResolvedCalleeNode { callee: parent, children };
        let ghost nv = node@;
        out.push(node);
        proof {
            assert(trees_view(out@) =~= before.push(nv));
            if depth_limit < 2 {
                assert(callees_view(children@) =~= Seq::<CalleeView>::empty());
                assert(bare[i as int] == nv);
                assert(bare.take(i as int).push(nv) =~= bare.take(i + 1));
            }
        }
        i = i + 1;
    }
    assert(bare.take(n as int) =~= bare);
    out
}

/// How many functions are called in turn, in all.
pub open spec fn children_count(trees: Seq<CalleeTreeView>) -> nat
    decreases trees.len(),
{
    if trees.len() == 0 {
        0
    } else {
        children_count(trees.drop_last()) + trees.last().children.len()
    }
}

proof fn lemma_two_hops(first: Seq<CalleeView>, second: Seq<Seq<CalleeView>>, budget: int, n: int)
    requires
        0 <= budget,
        n <= first.len(),
    ensures
        two_hops(first, second, budget, n).budget >= 0,
        children_count(two_hops(first, second, budget, n).trees) + two_hops(
            first,
            second,
            budget,
            n,
        ).budget == budget,
    decreases n,
{
    if n > 0 {
        lemma_two_hops(first, second, budget, n - 1);
        let s = two_hops(first, second, budget, n - 1);
        law_children_within_budget(called_by(second, n - 1), first[n - 1], s.known, s.budget);
        assert(two_hops(first, second, budget, n).trees.drop_last() =~= s.trees);
    }
}

/// However many functions are called in turn, all together there are no more than the
/// budget allows.
pub proof fn law_transitive_budget(
    first: Seq<CalleeView>,
    second: Seq<Seq<CalleeView>>,
    depth_limit: u32,
    budget: int,
)
    requires
        0 <= budget,
    ensures
        children_count(transitive(first, second, depth_limit, budget)) <= budget,
{
    if depth_limit < 2 {
        lemma_no_children(transitive(first, second, depth_limit, budget));
    } else {
        lemma_two_hops(first, second, budget, first.len() as int);
    }
}

proof fn lemma_no_children(trees: Seq<CalleeTreeView>)
    requires
        forall|i: int| 0 <= i < trees.len() ==> (#[trigger] trees[i]).children.len() == 0,
    ensures
        children_count(trees) == 0,
    decreases trees.len(),
{
    if trees.len() > 0 {
        lemma_no_children(trees.drop_last());
    }
}

/// What remains gets less and what is resolved gets more: no name is lost between them.
pub open spec fn advances(s: ResolveView, r: ResolveView) -> bool {
    &&& r.remaining.no_duplicates()
    &&& s.resolved.is_prefix_of(r.resolved)
    &&& forall|y: Seq<char>| #[trigger] r.remaining.contains(y) ==> s.remaining.contains(y)
    &&& forall|y: Seq<char>| #[trigger]
        s.remaining.contains(y) ==> r.remaining.contains(y) || exists|k: int|
            s.resolved.len() <= k < r.resolved.len() && (#[trigger] r.resolved[k]).name == y
    &&& forall|k: int|
        s.resolved.len() <= k < r.resolved.len() ==> s.remaining.contains(
            (#[trigger] r.resolved[k]).name,
        )
}

proof fn lemma_advances_entries(s: ResolveView, entries: Seq<EntryView>, file: Seq<char>)
    requires
        s.remaining.no_duplicates(),
    ensures
        advances(s, resolve_entries(s, entries, file)),
        forall|e: EntryView| #[trigger]
            listed(entries, e) ==> !resolve_entries(s, entries, file).remaining.contains(e.name),
{
    super::callees::lemma_resolves_names(s, entries, file);
}

proof fn lemma_advances_trans(a: ResolveView, b: ResolveView, c: ResolveView)
    requires
        advances(a, b),
        advances(b, c),
    ensures
        advances(a, c),
{
    assert forall|k: int| 0 <= k < a.resolved.len() implies a.resolved[k] == c.resolved[k] by {
        assert(b.resolved.subrange(0, a.resolved.len() as int)[k] == b.resolved[k]);
        assert(c.resolved.subrange(0, b.resolved.len() as int)[k] == c.resolved[k]);
    }
    assert(a.resolved =~= c.resolved.subrange(0, a.resolved.len() as int));
    assert forall|k: int| 0 <= k < b.resolved.len() implies b.resolved[k] == c.resolved[k] by {
        assert(c.resolved.subrange(0, b.resolved.len() as int)[k] == c.resolved[k]);
    }
    assert forall|y: Seq<char>| #[trigger] c.remaining.contains(y) implies a.remaining.contains(y) by {
        assert(b.remaining.contains(y));
    }
    assert forall|y: Seq<char>| #[trigger] a.remaining.contains(y) implies c.remaining.contains(y)
        || exists|k: int|
        a.resolved.len() <= k < c.resolved.len() && (#[trigger] c.resolved[k]).name == y by {
        if b.remaining.contains(y) {
            if !c.remaining.contains(y) {
                let k = choose|k: int|
                    b.resolved.len() <= k < c.resolved.len() && (#[trigger] c.resolved[k]).name == y;
                assert(c.resolved[k].name == y);
            }
        } else {
            let k = choose|k: int|
                a.resolved.len() <= k < b.resolved.len() && (#[trigger] b.resolved[k]).name == y;
            assert(c.resolved[k].name == y);
        }
    }
    assert forall|k: int| a.resolved.len() <= k < c.resolved.len() implies a.remaining.contains(
        (#[trigger] c.resolved[k]).name,
    ) by {
        if k < b.resolved.len() {
            assert(c.resolved[k] == b.resolved[k]);
        } else {
            assert(b.remaining.contains(c.resolved[k].name));
        }
    }
}

proof fn lemma_advances_self(s: ResolveView)
    requires
        s.remaining.no_duplicates(),
    ensures
        advances(s, s),
{
    assert(s.resolved =~= s.resolved.subrange(0, s.resolved.len() as int));
}

proof fn lemma_imports_advance(s: ResolveView, files: Seq<SourceView>, n: int)
    requires
        s.remaining.no_duplicates(),
        0 <= n <= files.len(),
    ensures
        advances(s, with_imports(s, files, n)),
        forall|i: int, lang: Lang, e: EntryView|
            0 <= i < n && file_type(files[i].path) == FileType::Code(lang) && #[trigger] listed(
                outline_of(files[i].content, lang),
                e,
            ) ==> !with_imports(s, files, n).remaining.contains(e.name),
    decreases n,
{
    if n <= 0 {
        lemma_advances_self(s);
    } else {
        lemma_imports_advance(s, files, n - 1);
        let q = with_imports(s, files, n - 1);
        let r = with_imports(s, files, n);
        if q.remaining.len() > 0 {
            match file_type(files[n - 1].path) {
                FileType::Code(lang) => {
                    lemma_advances_entries(
                        q,
                        outline_of(files[n - 1].content, lang),
                        files[n - 1].path,
                    );
                    lemma_advances_trans(s, q, r);
                },
                _ => {},
            }
        }
        assert forall|i: int, lang: Lang, e: EntryView|
            0 <= i < n && file_type(files[i].path) == FileType::Code(lang) && #[trigger] listed(
                outline_of(files[i].content, lang),
                e,
            ) implies !r.remaining.contains(e.name) by {
            if q.remaining.len() > 0 && i < n - 1 {
                if r.remaining.contains(e.name) {
                    match file_type(files[n - 1].path) {
                        FileType::Code(l) => {
                            assert(q.remaining.contains(e.name));
                        },
                        _ => {},
                    }
                }
            }
        }
    }
}

proof fn lemma_package_advances(s: ResolveView, files: Seq<SourceView>, n: int)
    requires
        s.remaining.no_duplicates(),
        0 <= n <= files.len(),
    ensures
        advances(s, with_package(s, files, n)),
        forall|i: int, e: EntryView|
            0 <= i < n && #[trigger] listed(outline_of(files[i].content, Lang::Go), e)
                ==> !with_package(s, files, n).remaining.contains(e.name),
    decreases n,
{
    if n <= 0 {
        lemma_advances_self(s);
    } else {
        lemma_package_advances(s, files, n - 1);
        let q = with_package(s, files, n - 1);
        let r = with_package(s, files, n);
        if q.remaining.len() > 0 {
            lemma_advances_entries(
                q,
                outline_of(files[n - 1].content, Lang::Go),
                files[n - 1].path,
            );
            lemma_advances_trans(s, q, r);
        }
        assert forall|i: int, e: EntryView|
            0 <= i < n && #[trigger] listed(outline_of(files[i].content, Lang::Go), e)
            implies !r.remaining.contains(e.name) by {
            if q.remaining.len() > 0 && i < n - 1 && r.remaining.contains(e.name) {
                assert(q.remaining.contains(e.name));
            }
        }
    }
}

proof fn lemma_once_members(names: Seq<Seq<char>>, n: int)
    requires
        0 <= n <= names.len(),
    ensures
        each_once(names, n).no_duplicates(),
        forall|i: int| 0 <= i < n ==> each_once(names, n).contains(#[trigger] names[i]),
        forall|y: Seq<char>| #[trigger] each_once(names, n).contains(y) ==> names.contains(y),
    decreases n,
{
    if n > 0 {
        lemma_once_members(names, n - 1);
        let q = each_once(names, n - 1);
        let r = each_once(names, n);
        assert forall|i: int| 0 <= i < n implies r.contains(#[trigger] names[i]) by {
            if q.contains(names[i]) {
                let a = choose|a: int| 0 <= a < q.len() && q[a] == names[i];
                assert(r[a] == names[i]);
            } else {
                assert(r[q.len() as int] == names[n - 1]);
            }
        }
        assert forall|y: Seq<char>| #[trigger] r.contains(y) implies names.contains(y) by {
            let a = choose|a: int| 0 <= a < r.len() && r[a] == y;
            if a < q.len() {
                assert(q[a] == y);
                assert(q.contains(y));
            } else {
                assert(names[n - 1] == y);
            }
        }
        if !q.contains(names[n - 1]) {
            assert forall|i: int, j: int| 0 <= i < r.len() && 0 <= j < r.len() && i != j implies r[i]
                != r[j] by {
                if i < q.len() && j < q.len() {
                    assert(q[i] != q[j]);
                } else if i < q.len() {
                    assert(q.contains(q[i]));
                } else {
                    assert(q.contains(q[j]));
                }
            }
        }
    }
}

/// A name that is called is resolved wherever it can be: if an entry of the file's own
/// outline bears it, or a child of one, or if one of a file that is imported does, or,
/// in Go, one of another file of the package.
pub proof fn law_names_are_resolved(
    names: Seq<Seq<char>>,
    path: Seq<char>,
    content: Seq<char>,
    imported: Seq<SourceView>,
    package: Seq<SourceView>,
    lang: Lang,
    e: EntryView,
)
    requires
        file_type(path) == FileType::Code(lang),
        names.contains(e.name),
        listed(outline_of(content, lang), e) || (exists|i: int, l: Lang|
            0 <= i < imported.len() && file_type(imported[i].path) == FileType::Code(l)
                && #[trigger] listed(outline_of(imported[i].content, l), e)) || (lang == Lang::Go
            && exists|i: int|
            0 <= i < package.len() && #[trigger] listed(
                outline_of(package[i].content, Lang::Go),
                e,
            )),
    ensures
        exists|k: int|
            0 <= k < resolution(names, path, content, imported, package).len() && (
            #[trigger] resolution(names, path, content, imported, package)[k]).name == e.name,
{
    let start = ResolveView {
        remaining: each_once(names, names.len() as int),
        resolved: Seq::empty(),
    };
    lemma_once_members(names, names.len() as int);
    let i = choose|i: int| 0 <= i < names.len() && names[i] == e.name;
    assert(start.remaining.contains(names[i]));
    lemma_advances_entries(start, outline_of(content, lang), path);
    let own = resolve_entries(start, outline_of(content, lang), path);
    lemma_imports_advance(own, imported, imported.len() as int);
    let near = with_imports(own, imported, imported.len() as int);
    lemma_advances_trans(start, own, near);
    if lang == Lang::Go {
        lemma_package_advances(near, package, package.len() as int);
        let all = with_package(near, package, package.len() as int);
        lemma_advances_trans(start, near, all);
        if all.remaining.contains(e.name) {
            assert(near.remaining.contains(e.name));
            assert(own.remaining.contains(e.name));
        }
        assert(!all.remaining.contains(e.name));
        let k = choose|k: int|
            0 <= k < all.resolved.len() && (#[trigger] all.resolved[k]).name == e.name;
        assert(resolution(names, path, content, imported, package)[k].name == e.name);
    } else {
        if near.remaining.contains(e.name) {
            assert(own.remaining.contains(e.name));
        }
        assert(!near.remaining.contains(e.name));
        let k = choose|k: int|
            0 <= k < near.resolved.len() && (#[trigger] near.resolved[k]).name == e.name;
        assert(resolution(names, path, content, imported, package)[k].name == e.name);
    }
}

/// Only names that are called are resolved.
pub proof fn law_resolved_are_called(
    names: Seq<Seq<char>>,
    path: Seq<char>,
    content: Seq<char>,
    imported: Seq<SourceView>,
    package: Seq<SourceView>,
    k: int,
)
    requires
        0 <= k < resolution(names, path, content, imported, package).len(),
    ensures
        names.contains(resolution(names, path, content, imported, package)[k].name),
{
    match file_type(path) {
        FileType::Code(lang) => {
            let start = ResolveView {
                remaining: each_once(names, names.len() as int),
                resolved: Seq::empty(),
            };
            lemma_once_members(names, names.len() as int);
            lemma_advances_entries(start, outline_of(content, lang), path);
            let own = resolve_entries(start, outline_of(content, lang), path);
            lemma_imports_advance(own, imported, imported.len() as int);
            let near = with_imports(own, imported, imported.len() as int);
            lemma_advances_trans(start, own, near);
            if lang == Lang::Go {
                lemma_package_advances(near, package, package.len() as int);
                let all = with_package(near, package, package.len() as int);
                lemma_advances_trans(start, near, all);
                assert(start.remaining.contains(all.resolved[k].name));
            } else {
                assert(start.remaining.contains(near.resolved[k].name));
            }
        },
        _ => {},
    }
}

/// A definition in the file itself is preferred to one elsewhere: what the own outline
/// lists is resolved to the own file.
pub proof fn law_own_definitions_first(
    names: Seq<Seq<char>>,
    path: Seq<char>,
    content: Seq<char>,
    imported: Seq<SourceView>,
    package: Seq<SourceView>,
    lang: Lang,
    k: int,
)
    requires
        file_type(path) == FileType::Code(lang),
        0 <= k < resolution(names, path, content, imported, package).len(),
        exists|e: EntryView| #[trigger]
            listed(outline_of(content, lang), e) && e.name == resolution(
                names,
                path,
                content,
                imported,
                package,
            )[k].name,
    ensures
        resolution(names, path, content, imported, package)[k].file == path,
{
    let start = ResolveView {
        remaining: each_once(names, names.len() as int),
        resolved: Seq::empty(),
    };
    lemma_once_members(names, names.len() as int);
    let entries = outline_of(content, lang);
    lemma_advances_entries(start, entries, path);
    let own = resolve_entries(start, entries, path);
    lemma_imports_advance(own, imported, imported.len() as int);
    let near = with_imports(own, imported, imported.len() as int);
    let all = if lang == Lang::Go {
        lemma_package_advances(near, package, package.len() as int);
        lemma_advances_trans(
            own,
            near,
            with_package(near, package, package.len() as int),
        );
        with_package(near, package, package.len() as int)
    } else {
        near
    };
    assert(advances(own, all));
    let e = choose|e: EntryView| #[trigger] listed(entries, e) && e.name == all.resolved[k].name;
    assert(!own.remaining.contains(e.name));
    if k >= own.resolved.len() {
        assert(own.remaining.contains(all.resolved[k].name));
    }
    assert(all.resolved.subrange(0, own.resolved.len() as int)[k] == all.resolved[k]);
    assert(own.resolved[k] == all.resolved[k]);
    super::callees::law_only_listed_names_are_resolved(start, entries, path);
}

/// Each function of the first hop keeps its place, with or without a second hop.
pub proof fn law_first_hop_is_kept(
    first: Seq<CalleeView>,
    second: Seq<Seq<CalleeView>>,
    depth_limit: u32,
    budget: int,
)
    ensures
        transitive(first, second, depth_limit, budget).len() == first.len(),
        forall|i: int|
            0 <= i < first.len() ==> (#[trigger] transitive(
                first,
                second,
                depth_limit,
                budget,
            )[i]).callee == first[i],
{
    if depth_limit >= 2 {
        lemma_trees(first, second, budget, first.len() as int);
    }
}

proof fn lemma_trees(first: Seq<CalleeView>, second: Seq<Seq<CalleeView>>, budget: int, n: int)
    requires
        0 <= n <= first.len(),
    ensures
        two_hops(first, second, budget, n).trees.len() == n,
        forall|i: int|
            0 <= i < n ==> (#[trigger] two_hops(first, second, budget, n).trees[i]).callee
                == first[i],
    decreases n,
{
    if n > 0 {
        lemma_trees(first, second, budget, n - 1);
        let q = two_hops(first, second, budget, n - 1).trees;
        let r = two_hops(first, second, budget, n).trees;
        assert forall|i: int| 0 <= i < n implies (#[trigger] r[i]).callee == first[i] by {
            if i < n - 1 {
                assert(r[i] == q[i]);
            }
        }
    }
}

/// The place is that of one of the callees.
pub open spec fn at_place(cs: Seq<CalleeView>, c: CalleeView) -> bool {
    exists|i: int|
        0 <= i < cs.len() && (#[trigger] cs[i]).start_line == c.start_line && same_path(
            cs[i].file,
            c.file,
        )
}

proof fn lemma_known(first: Seq<CalleeView>, second: Seq<Seq<CalleeView>>, budget: int, n: int, c: CalleeView)
    requires
        0 <= n <= first.len(),
        super::callees::is_known(
            two_hops(first, second, budget, n).known,
            c.file,
            c.start_line,
        ),
    ensures
        at_place(first, c) || exists|j: int|
            0 <= j < n && at_place(
                (#[trigger] two_hops(first, second, budget, n).trees[j]).children,
                c,
            ),
    decreases n,
{
    let s = two_hops(first, second, budget, n);
    let k = choose|k: int|
        0 <= k < s.known.len() && (#[trigger] s.known[k]).line == c.start_line && same_path(
            s.known[k].file,
            c.file,
        );
    if n <= 0 {
        assert(first[k].start_line == c.start_line);
    } else {
        let q = two_hops(first, second, budget, n - 1);
        lemma_trees(first, second, budget, n - 1);
        lemma_trees(first, second, budget, n);
        if k < q.known.len() {
            assert(q.known[k] == s.known[k]);
            lemma_known(first, second, budget, n - 1, c);
            if !at_place(first, c) {
                let j = choose|j: int|
                    0 <= j < n - 1 && at_place((#[trigger] q.trees[j]).children, c);
                assert(s.trees[j] == q.trees[j]);
            }
        } else {
            let kids = s.trees[n - 1].children;
            assert(places_of(kids)[k - q.known.len()] == s.known[k]);
            assert(kids[k - q.known.len()].start_line == c.start_line);
            assert(at_place(s.trees[n - 1].children, c));
        }
    }
}

/// What a function calls in turn is listed with it, unless it is the function itself, is
/// called directly, was listed with an earlier function, or the budget is used up.
pub proof fn law_second_hop_is_complete(
    first: Seq<CalleeView>,
    second: Seq<Seq<CalleeView>>,
    budget: int,
    n: int,
    i: int,
    c: CalleeView,
)
    requires
        0 <= budget,
        0 <= i < n <= first.len(),
        i < second.len(),
        second[i].contains(c),
        !(same_path(c.file, first[i].file) && c.start_line == first[i].start_line),
        !at_place(first, c),
        forall|j: int|
            0 <= j < i ==> !at_place(
                (#[trigger] two_hops(first, second, budget, n).trees[j]).children,
                c,
            ),
    ensures
        two_hops(first, second, budget, n).trees[i].children.contains(c) || children_count(
            two_hops(first, second, budget, n).trees,
        ) == budget,
    decreases n,
{
    lemma_two_hops(first, second, budget, n);
    lemma_trees(first, second, budget, n);
    lemma_trees(first, second, budget, n - 1);
    let q = two_hops(first, second, budget, n - 1);
    let s = two_hops(first, second, budget, n);
    lemma_two_hops(first, second, budget, n - 1);
    law_children_within_budget(called_by(second, n - 1), first[n - 1], q.known, q.budget);
    assert(s.trees.drop_last() =~= q.trees);
    if i < n - 1 {
        assert forall|j: int| 0 <= j < i implies !at_place((#[trigger] q.trees[j]).children, c) by {
            assert(s.trees[j] == q.trees[j]);
        }
        law_second_hop_is_complete(first, second, budget, n - 1, i, c);
        assert(s.trees[i] == q.trees[i]);
    } else {
        assert forall|k: int| 0 <= k < q.known.len() implies !((#[trigger] q.known[k]).line
            == c.start_line && same_path(q.known[k].file, c.file)) by {
            if q.known[k].line == c.start_line && same_path(q.known[k].file, c.file) {
                assert(super::callees::is_known(q.known, c.file, c.start_line));
                lemma_known(first, second, budget, n - 1, c);
                let j = choose|j: int|
                    0 <= j < n - 1 && at_place((#[trigger] q.trees[j]).children, c);
                assert(s.trees[j] == q.trees[j]);
                assert(!at_place(s.trees[j].children, c));
            }
        }
        super::callees::law_children_are_complete(second[i], first[i], q.known, q.budget, c);
    }
}

} // verus!
