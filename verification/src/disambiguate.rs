//! Which file a bare name stands for where a part of it is to be read.
//!
//! Files that are ignored, and those in directories for tests or for code of others,
//! stand back behind the primary ones; of those the one that lies least deep is meant.
use vstd::prelude::*;
use vstd::string::*;

use crate::paths::{components, components_of};
use crate::text::{dec, decimal, join, join_strings, lemma_strs_push, same_text, strs};

verus! {

/// A file of that name.
#[derive(Debug)]
pub struct NamedFile {
    pub path: String,
    /// Whether the rules of the repository leave it out.
    pub ignored: bool,
}

/// What a file of that name says.
pub struct NamedView {
    pub path: Seq<char>,
    pub ignored: bool,
}

impl View for NamedFile {
    type V = NamedView;

    open spec fn view(&self) -> NamedView {
        NamedView { path: self.path@, ignored: self.ignored }
    }
}

/// What the files of a list say.
pub open spec fn named_view(v: Seq<NamedFile>) -> Seq<NamedView> {
    v.map_values(|f: NamedFile| f@)
}

/// Whether a directory of that name holds tests or code of others.
pub open spec fn secondary_dir(name: Seq<char>) -> bool {
    name == "test"@ || name == "tests"@ || name == "spec"@ || name == "vendor"@
}

/// Whether the file is a primary one.
pub open spec fn is_primary(f: NamedView) -> bool {
    let c = components(f.path);
    !f.ignored && forall|i: int| 0 <= i < c.len() - 1 ==> !secondary_dir(#[trigger] c[i])
}

/// How deep the file lies.
pub open spec fn depth(f: NamedView) -> nat {
    components(f.path).len()
}

/// The paths of the primary files among the first `n`.
pub open spec fn primary_paths(files: Seq<NamedView>, n: int) -> Seq<Seq<char>>
    decreases n,
{
    if n <= 0 {
        Seq::empty()
    } else if is_primary(files[n - 1]) {
        primary_paths(files, n - 1).push(files[n - 1].path)
    } else {
        primary_paths(files, n - 1)
    }
}

/// The `i`-th file is primary, and every other primary file lies deeper.
pub open spec fn stands_out(files: Seq<NamedView>, i: int) -> bool {
    &&& 0 <= i < files.len()
    &&& is_primary(files[i])
    &&& forall|j: int|
        0 <= j < files.len() && j != i && is_primary(#[trigger] files[j]) ==> depth(files[j]) > depth(
            files[i],
        )
}

/// Why no file can be told.
pub open spec fn ambiguity(name: Seq<char>, files: Seq<NamedView>) -> Seq<char> {
    let p = primary_paths(files, files.len() as int);
    "section needs exactly one file, but '"@ + name + "' matches "@ + dec(p.len()) + ":\n  "@ + join(
        p,
        "\n  "@,
    )
}

fn is_secondary(name: &str) -> (r: bool)
    ensures
        r == secondary_dir(name@),
{
    same_text(name, "test") || same_text(name, "tests") || same_text(name, "spec") || same_text(
        name,
        "vendor",
    )
}

fn primary(f: &NamedFile) -> (r: bool)
    ensures
        r == is_primary(f@),
{
    if f.ignored {
        return false;
    }
    let c = components_of(f.path.as_str());
    let ghost v = components(f.path@);
    assert(strs(c@) == v);
    assert(v.len() == c@.len());
    if c.len() == 0 {
        return true;
    }
    let mut i: usize = 0;
    while i < c.len() - 1
        invariant
            i <= c@.len() - 1,
            v == strs(c@),
            v == components(f.path@),
            v.len() == c@.len(),
            forall|k: int| 0 <= k < i ==> !secondary_dir(#[trigger] v[k]),
        decreases c@.len() - i,
    {
        assert(v[i as int] == c@[i as int]@);
        if is_secondary(c[i].as_str()) {
            assert(secondary_dir(components(f@.path)[i as int]));
            return false;
        }
        i = i + 1;
    }
    true
}

fn depth_of(f: &NamedFile) -> (r: usize)
    ensures
        r == depth(f@),
{
    let c = components_of(f.path.as_str());
    assert(strs(c@).len() == c@.len());
    c.len()
}

fn outstanding(files: &[NamedFile], i: usize) -> (r: bool)
    requires
        i < files@.len(),
    ensures
        r == stands_out(named_view(files@), i as int),
{
    let ghost v = named_view(files@);
    assert(v[i as int] == files@[i as int]@);
    if !primary(&files[i]) {
        return false;
    }
    let d: usize = depth_of(&files[i]);
    let mut j: usize = 0;
    while j < files.len()
        invariant
            j <= files@.len(),
            i < files@.len(),
            v == named_view(files@),
            d == depth(v[i as int]),
            forall|k: int|
                0 <= k < j && k != i && is_primary(#[trigger] v[k]) ==> depth(v[k]) > d,
        decreases files@.len() - j,
    {
        assert(v[j as int] == files@[j as int]@);
        if j != i && primary(&files[j]) && depth_of(&files[j]) <= d {
            return false;
        }
        j = j + 1;
    }
    true
}

fn list_primary(files: &[NamedFile]) -> (r: Vec<String>)
    ensures
        strs(r@) == primary_paths(named_view(files@), files@.len() as int),
{
    broadcast use lemma_strs_push;

    let ghost v = named_view(files@);
    let mut r: Vec<String> = Vec::new();
    let mut i: usize = 0;
    assert(strs(r@) =~= Seq::<Seq<char>>::empty());
    while i < files.len()
        invariant
            i <= files@.len(),
            v == named_view(files@),
            strs(r@) == primary_paths(v, i as int),
        decreases files@.len() - i,
    {
        assert(v[i as int] == files@[i as int]@);
        if primary(&files[i]) {
            r.push(files[i].path.clone());
        }
        i = i + 1;
    }
    r
}

/// The file that the name stands for: the primary one that lies less deep than all
/// others, or why there is none.
pub fn resolve_bare_filename(name: &str, files: &[NamedFile]) -> (r: Result<usize, String>)
    ensures
        match r {
            Ok(i) => stands_out(named_view(files@), i as int),
            Err(e) => (forall|i: int| !stands_out(named_view(files@), i)) && e@ == ambiguity(
                name@,
                named_view(files@),
            ),
        },
{
    let ghost v = named_view(files@);
    let mut i: usize = 0;
    while i < files.len()
        invariant
            i <= files@.len(),
            v == named_view(files@),
            forall|k: int| 0 <= k < i ==> !stands_out(v, k),
        decreases files@.len() - i,
    {
        if outstanding(files, i) {
            return Ok(i);
        }
        i = i + 1;
    }
    let p = list_primary(files);
    assert(strs(p@).len() == p@.len());
    assert(v.len() == files@.len());
    let mut e = "section needs exactly one file, but '".to_owned();
    e.append(name);
    e.append("' matches ");
    e.append(decimal(p.len() as u128).as_str());
    e.append(":\n  ");
    e.append(join_strings(p.as_slice(), "\n  ").as_str());
    Err(e)
}

/// What is told where a name was resolved.
pub open spec fn resolved_note(name: Seq<char>, path: Seq<char>, others: nat) -> Seq<char> {
    "Resolved '"@ + name + "' → "@ + path + " ("@ + dec(others) + " non-primary)"@
}

/// What is told where a name was resolved: the file, and how many others there are.
pub fn resolution_note(name: &str, path: &str, others: usize) -> (r: String)
    ensures
        r@ == resolved_note(name@, path@, others as nat),
{
    let mut s = "Resolved '".to_owned();
    s.append(name);
    s.append("' → ");
    s.append(path);
    s.append(" (");
    s.append(decimal(others as u128).as_str());
    s.append(" non-primary)");
    s
}

/// A name stands for at most one file.
pub proof fn law_one_file(files: Seq<NamedView>, i: int, j: int)
    requires
        stands_out(files, i),
        stands_out(files, j),
    ensures
        i == j,
{
    if i != j {
        assert(depth(files[j]) > depth(files[i]));
        assert(depth(files[i]) > depth(files[j]));
    }
}

/// The only primary file of that name is the one that is meant.
pub proof fn law_only_primary_file(files: Seq<NamedView>, i: int)
    requires
        0 <= i < files.len(),
        is_primary(files[i]),
        forall|j: int| 0 <= j < files.len() && j != i ==> !is_primary(#[trigger] files[j]),
    ensures
        stands_out(files, i),
{
}

/// A file that is ignored or lies in a directory for tests or for code of others is not
/// the one that is meant.
pub proof fn law_tests_stand_back(files: Seq<NamedView>, i: int, k: int)
    requires
        0 <= i < files.len(),
        files[i].ignored || (0 <= k < components(files[i].path).len() - 1 && (components(
            files[i].path,
        )[k] == "test"@ || components(files[i].path)[k] == "tests"@ || components(files[i].path)[k]
            == "spec"@ || components(files[i].path)[k] == "vendor"@)),
    ensures
        !stands_out(files, i),
        !is_primary(files[i]),
{
    if !files[i].ignored {
        assert(secondary_dir(components(files[i].path)[k]));
    }
}

/// Every primary file is told where none stands out, and no other.
pub proof fn law_primary_files_are_told(files: Seq<NamedView>, n: int, path: Seq<char>)
    requires
        0 <= n <= files.len(),
    ensures
        primary_paths(files, n).contains(path) <==> exists|i: int|
            0 <= i < n && is_primary(#[trigger] files[i]) && files[i].path == path,
    decreases n,
{
    if n > 0 {
        law_primary_files_are_told(files, n - 1, path);
        let q = primary_paths(files, n - 1);
        let r = primary_paths(files, n);
        if q.contains(path) {
            let k = choose|k: int| 0 <= k < q.len() && q[k] == path;
            assert(r[k] == path);
        }
        if r.contains(path) {
            let k = choose|k: int| 0 <= k < r.len() && r[k] == path;
            if k < q.len() {
                assert(q[k] == path);
            } else {
                assert(is_primary(files[n - 1]));
            }
        }
        if exists|i: int| 0 <= i < n && is_primary(#[trigger] files[i]) && files[i].path == path {
            let i = choose|i: int|
                0 <= i < n && is_primary(#[trigger] files[i]) && files[i].path == path;
            if i == n - 1 {
                assert(r[q.len() as int] == path);
            }
        }
    }
}

} // verus!
