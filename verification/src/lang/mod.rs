//! Languages: detection, grammars and outlines.
use vstd::prelude::*;

use crate::paths::{
    ancestors, ancestors_of, extension, extension_of, file_name, file_name_of, join_path, joined,
};
use crate::text::{chars_of, has_prefix, has_string, lemma_strs_push, opt_text, same_text, strs};
use crate::types::{FileType, Lang};

pub mod detection;
pub mod outline;
pub mod treesitter;

verus! {

/// What files with the extension hold.
pub open spec fn extension_type(e: Seq<char>) -> FileType {
    if e == "ts"@ {
        FileType::Code(Lang::TypeScript)
    } else if e == "tsx"@ {
        FileType::Code(Lang::Tsx)
    } else if e == "js"@ || e == "jsx"@ {
        FileType::Code(Lang::JavaScript)
    } else if e == "py"@ || e == "pyi"@ {
        FileType::Code(Lang::Python)
    } else if e == "rs"@ {
        FileType::Code(Lang::Rust)
    } else if e == "go"@ {
        FileType::Code(Lang::Go)
    } else if e == "java"@ {
        FileType::Code(Lang::Java)
    } else if e == "scala"@ || e == "sc"@ {
        FileType::Code(Lang::Scala)
    } else if e == "c"@ || e == "h"@ {
        FileType::Code(Lang::C)
    } else if e == "cpp"@ || e == "hpp"@ || e == "cc"@ || e == "cxx"@ {
        FileType::Code(Lang::Cpp)
    } else if e == "rb"@ {
        FileType::Code(Lang::Ruby)
    } else if e == "php"@ || e == "phtml"@ {
        FileType::Code(Lang::Php)
    } else if e == "swift"@ {
        FileType::Code(Lang::Swift)
    } else if e == "kt"@ || e == "kts"@ {
        FileType::Code(Lang::Kotlin)
    } else if e == "cs"@ {
        FileType::Code(Lang::CSharp)
    } else if e == "md"@ || e == "mdx"@ || e == "rst"@ {
        FileType::Markdown
    } else if e == "json"@ || e == "yaml"@ || e == "yml"@ || e == "toml"@ || e == "xml"@ || e == "ini"@ {
        FileType::StructuredData
    } else if e == "csv"@ || e == "tsv"@ {
        FileType::Tabular
    } else if e == "log"@ {
        FileType::Log
    } else {
        FileType::Other
    }
}

/// What a file of the name holds, where it has no extension.
pub open spec fn name_type(n: Seq<char>) -> FileType {
    if n == "Dockerfile"@ || n == "Containerfile"@ {
        FileType::Code(Lang::Dockerfile)
    } else if n == "Makefile"@ || n == "GNUmakefile"@ {
        FileType::Code(Lang::Make)
    } else if n == "Vagrantfile"@ || n == "Rakefile"@ {
        FileType::Code(Lang::Ruby)
    } else if ".env"@.is_prefix_of(n) {
        FileType::StructuredData
    } else {
        FileType::Other
    }
}

/// What the file holds, by its extension, else by its name.
pub open spec fn file_type(path: Seq<char>) -> FileType {
    match extension(path) {
        Some(e) => extension_type(e),
        None => match file_name(path) {
            Some(n) => name_type(n),
            None => FileType::Other,
        },
    }
}

fn type_of_extension(e: &str) -> (r: FileType)
    ensures
        r == extension_type(e@),
{
    if same_text(e, "ts") {
        FileType::Code(Lang::TypeScript)
    } else if same_text(e, "tsx") {
        FileType::Code(Lang::Tsx)
    } else if same_text(e, "js") || same_text(e, "jsx") {
        FileType::Code(Lang::JavaScript)
    } else if same_text(e, "py") || same_text(e, "pyi") {
        FileType::Code(Lang::Python)
    } else if same_text(e, "rs") {
        FileType::Code(Lang::Rust)
    } else if same_text(e, "go") {
        FileType::Code(Lang::Go)
    } else if same_text(e, "java") {
        FileType::Code(Lang::Java)
    } else if same_text(e, "scala") || same_text(e, "sc") {
        FileType::Code(Lang::Scala)
    } else if same_text(e, "c") || same_text(e, "h") {
        FileType::Code(Lang::C)
    } else if same_text(e, "cpp") || same_text(e, "hpp") || same_text(e, "cc") || same_text(e, "cxx") {
        FileType::Code(Lang::Cpp)
    } else if same_text(e, "rb") {
        FileType::Code(Lang::Ruby)
    } else if same_text(e, "php") || same_text(e, "phtml") {
        FileType::Code(Lang::Php)
    } else if same_text(e, "swift") {
        FileType::Code(Lang::Swift)
    } else if same_text(e, "kt") || same_text(e, "kts") {
        FileType::Code(Lang::Kotlin)
    } else if same_text(e, "cs") {
        FileType::Code(Lang::CSharp)
    } else if same_text(e, "md") || same_text(e, "mdx") || same_text(e, "rst") {
        FileType::Markdown
    } else if same_text(e, "json") || same_text(e, "yaml") || same_text(e, "yml") || same_text(e, "toml") || same_text(e, "xml") || same_text(e, "ini") {
        FileType::StructuredData
    } else if same_text(e, "csv") || same_text(e, "tsv") {
        FileType::Tabular
    } else if same_text(e, "log") {
        FileType::Log
    } else {
        FileType::Other
    }
}

/// Files with the extension are common, though nothing is known of what they hold.
pub open spec fn common_extension(e: Seq<char>) -> bool {
    e == "txt"@ || e == "html"@ || e == "htm"@ || e == "css"@ || e == "scss"@ || e == "sass"@
        || e == "less"@ || e == "vue"@ || e == "sh"@ || e == "bash"@ || e == "zsh"@ || e == "fish"@
        || e == "ps1"@ || e == "bat"@ || e == "cmd"@ || e == "sql"@ || e == "lua"@ || e == "pl"@
        || e == "pm"@ || e == "r"@ || e == "m"@ || e == "mm"@ || e == "dart"@ || e == "ex"@
        || e == "exs"@ || e == "erl"@ || e == "hs"@ || e == "ml"@ || e == "clj"@ || e == "zig"@
        || e == "nim"@ || e == "jl"@ || e == "tf"@ || e == "hcl"@ || e == "nix"@ || e == "conf"@
        || e == "cfg"@ || e == "env"@ || e == "lock"@ || e == "sum"@ || e == "mod"@ || e == "sbt"@
        || e == "mjs"@ || e == "cjs"@ || e == "diff"@ || e == "tex"@ || e == "adoc"@ || e == "ipp"@
        || e == "inc"@ || e == "asm"@ || e == "s"@ || e == "f90"@ || e == "proj"@ || e == "sln"@
        || e == "png"@ || e == "jpg"@ || e == "jpeg"@ || e == "gif"@ || e == "svg"@ || e == "webp"@
        || e == "ico"@ || e == "pdf"@ || e == "zip"@ || e == "gz"@ || e == "tgz"@ || e == "tar"@
        || e == "wasm"@ || e == "woff"@ || e == "ttf"@ || e == "otf"@ || e == "mp3"@ || e == "mp4"@
}

/// The text is an extension of files.
pub open spec fn known_extension(e: Seq<char>) -> bool {
    extension_type(e) != FileType::Other || common_extension(e)
}

fn is_common_extension(e: &str) -> (r: bool)
    ensures
        r == common_extension(e@),
{
    same_text(e, "txt") || same_text(e, "html") || same_text(e, "htm") || same_text(e, "css")
        || same_text(e, "scss") || same_text(e, "sass") || same_text(e, "less")
        || same_text(e, "vue") || same_text(e, "sh") || same_text(e, "bash") || same_text(e, "zsh")
        || same_text(e, "fish") || same_text(e, "ps1") || same_text(e, "bat") || same_text(e, "cmd")
        || same_text(e, "sql") || same_text(e, "lua") || same_text(e, "pl") || same_text(e, "pm")
        || same_text(e, "r") || same_text(e, "m") || same_text(e, "mm") || same_text(e, "dart")
        || same_text(e, "ex") || same_text(e, "exs") || same_text(e, "erl") || same_text(e, "hs")
        || same_text(e, "ml") || same_text(e, "clj") || same_text(e, "zig") || same_text(e, "nim")
        || same_text(e, "jl") || same_text(e, "tf") || same_text(e, "hcl") || same_text(e, "nix")
        || same_text(e, "conf") || same_text(e, "cfg") || same_text(e, "env")
        || same_text(e, "lock") || same_text(e, "sum") || same_text(e, "mod") || same_text(e, "sbt")
        || same_text(e, "mjs") || same_text(e, "cjs") || same_text(e, "diff") || same_text(e, "tex")
        || same_text(e, "adoc") || same_text(e, "ipp") || same_text(e, "inc") || same_text(e, "asm")
        || same_text(e, "s") || same_text(e, "f90") || same_text(e, "proj") || same_text(e, "sln")
        || same_text(e, "png") || same_text(e, "jpg") || same_text(e, "jpeg") || same_text(e, "gif")
        || same_text(e, "svg") || same_text(e, "webp") || same_text(e, "ico") || same_text(e, "pdf")
        || same_text(e, "zip") || same_text(e, "gz") || same_text(e, "tgz") || same_text(e, "tar")
        || same_text(e, "wasm") || same_text(e, "woff") || same_text(e, "ttf")
        || same_text(e, "otf") || same_text(e, "mp3") || same_text(e, "mp4")
}

/// Whether the text is an extension of files.
pub fn is_known_extension(e: &str) -> (r: bool)
    ensures
        r == known_extension(e@),
{
    type_of_extension(e) != FileType::Other || is_common_extension(e)
}

/// What a file without an extension holds.
pub fn file_type_from_name(path: &str) -> (r: FileType)
    ensures
        r == match file_name(path@) {
            Some(n) => name_type(n),
            None => FileType::Other,
        },
{
    let n = match file_name_of(path) {
        Some(n) => n,
        None => {
            return FileType::Other;
        },
    };
    let n = n.as_str();
    let s = chars_of(n);
    if same_text(n, "Dockerfile") || same_text(n, "Containerfile") {
        FileType::Code(Lang::Dockerfile)
    } else if same_text(n, "Makefile") || same_text(n, "GNUmakefile") {
        FileType::Code(Lang::Make)
    } else if same_text(n, "Vagrantfile") || same_text(n, "Rakefile") {
        FileType::Code(Lang::Ruby)
    } else if has_prefix(s.as_slice(), ".env") {
        FileType::StructuredData
    } else {
        FileType::Other
    }
}

/// What the file holds, by its extension, else by its name.
pub fn detect_file_type(path: &str) -> (r: FileType)
    ensures
        r == file_type(path@),
{
    match extension_of(path) {
        Some(e) => type_of_extension(e.as_str()),
        None => file_type_from_name(path),
    }
}

/// The names of the files that mark the root of a package.
pub open spec fn manifests() -> Seq<Seq<char>> {
    seq![
        "Cargo.toml"@,
        "package.json"@,
        "pyproject.toml"@,
        "setup.py"@,
        "go.mod"@,
        "pom.xml"@,
        "build.gradle"@,
        "build.sbt"@,
    ]
}

/// A manifest of the directory is among the files.
pub open spec fn has_manifest(dir: Seq<char>, files: Seq<Seq<char>>) -> bool {
    exists|k: int|
        0 <= k < manifests().len() && files.contains(joined(dir, #[trigger] manifests()[k]))
}

/// The first of the directories, from position `i` on, that has a manifest among the
/// files.
pub open spec fn first_with_manifest(dirs: Seq<Seq<char>>, files: Seq<Seq<char>>, i: int) -> Option<
    Seq<char>,
>
    decreases dirs.len() - i,
{
    if i < 0 || i >= dirs.len() {
        None
    } else if has_manifest(dirs[i], files) {
        Some(dirs[i])
    } else {
        first_with_manifest(dirs, files, i + 1)
    }
}

/// Where each of the first `n` directories would have its manifests.
pub open spec fn manifest_paths(dirs: Seq<Seq<char>>, n: int) -> Seq<Seq<char>>
    decreases n,
{
    if n <= 0 {
        Seq::empty()
    } else {
        manifest_paths(dirs, n - 1) + manifests().map_values(|m: Seq<char>| joined(dirs[n - 1], m))
    }
}

fn manifest_names() -> (r: Vec<String>)
    ensures
        strs(r@) == manifests(),
{
    broadcast use lemma_strs_push;

    let mut r: Vec<String> = Vec::new();
    r.push("Cargo.toml".to_owned());
    r.push("package.json".to_owned());
    r.push("pyproject.toml".to_owned());
    r.push("setup.py".to_owned());
    r.push("go.mod".to_owned());
    r.push("pom.xml".to_owned());
    r.push("build.gradle".to_owned());
    r.push("build.sbt".to_owned());
    assert(strs(r@) =~= manifests());
    r
}

/// The files whose presence tells where the package of the directory starts: the
/// manifests of the directory and of each one above it.
pub fn manifest_candidates(dir: &str) -> (r: Vec<String>)
    ensures
        strs(r@) == manifest_paths(ancestors(dir@), ancestors(dir@).len() as int),
{
    let names = manifest_names();
    let dirs = ancestors_of(dir);
    let ghost d = strs(dirs@);
    let mut r: Vec<String> = Vec::new();
    let mut i: usize = 0;
    assert(strs(r@) =~= Seq::<Seq<char>>::empty());
    while i < dirs.len()
        invariant
            i <= dirs@.len(),
            d == strs(dirs@),
            strs(names@) == manifests(),
            strs(r@) == manifest_paths(d, i as int),
        decreases dirs@.len() - i,
    {
        let ghost before = strs(r@);
        let ghost own = manifests().map_values(|m: Seq<char>| joined(d[i as int], m));
        let mut k: usize = 0;
        assert(before + own.take(0) =~= before);
        while k < names.len()
            invariant
                k <= names@.len(),
                i < dirs@.len(),
                d == strs(dirs@),
                strs(names@) == manifests(),
                own == manifests().map_values(|m: Seq<char>| joined(d[i as int], m)),
                strs(r@) == before + own.take(k as int),
            decreases names@.len() - k,
        {
            assert(manifests()[k as int] == names@[k as int]@);
            assert(d[i as int] == dirs@[i as int]@);
            let ghost was = r@;
            r.push(join_path(dirs[i].as_str(), names[k].as_str()));
            assert(strs(r@) =~= strs(was).push(own[k as int]));
            assert(before + own.take(k + 1) =~= (before + own.take(k as int)).push(own[k as int]));
            k = k + 1;
        }
        assert(own.take(names@.len() as int) =~= own);
        i = i + 1;
    }
    r
}

/// The closest directory at or above `dir` that has a manifest among the files that
/// exist.
pub fn package_root(dir: &str, existing: &[String]) -> (r: Option<String>)
    ensures
        opt_text(r) == first_with_manifest(ancestors(dir@), strs(existing@), 0),
{
    let names = manifest_names();
    let dirs = ancestors_of(dir);
    let ghost files = strs(existing@);
    let ghost d = strs(dirs@);
    let mut i: usize = 0;
    while i < dirs.len()
        invariant
            i <= dirs@.len(),
            d == strs(dirs@),
            d == ancestors(dir@),
            files == strs(existing@),
            strs(names@) == manifests(),
            first_with_manifest(d, files, 0) == first_with_manifest(d, files, i as int),
        decreases dirs@.len() - i,
    {
        assert(d[i as int] == dirs@[i as int]@);
        let mut k: usize = 0;
        while k < names.len()
            invariant
                k <= names@.len(),
                i < dirs@.len(),
                d == strs(dirs@),
                d == ancestors(dir@),
                d[i as int] == dirs@[i as int]@,
                files == strs(existing@),
                strs(names@) == manifests(),
                first_with_manifest(d, files, 0) == first_with_manifest(d, files, i as int),
                forall|j: int|
                    0 <= j < k ==> !files.contains(joined(d[i as int], #[trigger] manifests()[j])),
            decreases names@.len() - k,
        {
            assert(manifests()[k as int] == names@[k as int]@);
            let candidate = join_path(dirs[i].as_str(), names[k].as_str());
            if has_string(existing, candidate.as_str()) {
                assert(has_manifest(d[i as int], files));
                return Some(dirs[i].clone());
            }
            k = k + 1;
        }
        assert(!has_manifest(d[i as int], files));
        i = i + 1;
    }
    None
}

/// The root of a package is the closest directory that has a manifest, and there is one
/// wherever a directory has.
pub proof fn law_closest_manifest_is_the_root(dirs: Seq<Seq<char>>, files: Seq<Seq<char>>, i: int)
    requires
        0 <= i <= dirs.len(),
    ensures
        match first_with_manifest(dirs, files, i) {
            Some(d) => exists|k: int|
                i <= k < dirs.len() && #[trigger] dirs[k] == d && has_manifest(d, files) && forall|
                    j: int,
                |
                    i <= j < k ==> !has_manifest(#[trigger] dirs[j], files),
            None => forall|k: int| i <= k < dirs.len() ==> !has_manifest(#[trigger] dirs[k], files),
        },
    decreases dirs.len() - i,
{
    if i < dirs.len() && !has_manifest(dirs[i], files) {
        law_closest_manifest_is_the_root(dirs, files, i + 1);
        match first_with_manifest(dirs, files, i + 1) {
            Some(d) => {
                let k = choose|k: int|
                    i + 1 <= k < dirs.len() && #[trigger] dirs[k] == d && forall|j: int|
                        i + 1 <= j < k ==> !has_manifest(#[trigger] dirs[j], files);
                assert(dirs[k] == d);
            },
            None => {},
        }
    }
}

/// Each of the eight manifests marks the directory that it lies in.
pub proof fn law_each_manifest_marks_a_package(
    dir: Seq<char>,
    files: Seq<Seq<char>>,
    name: Seq<char>,
)
    requires
        name == "Cargo.toml"@ || name == "package.json"@ || name == "pyproject.toml"@ || name
            == "setup.py"@ || name == "go.mod"@ || name == "pom.xml"@ || name == "build.gradle"@
            || name == "build.sbt"@,
        files.contains(joined(dir, name)),
    ensures
        has_manifest(dir, files),
        manifest_paths(seq![dir], 1).contains(joined(dir, name)),
{
    let m = manifests();
    let k: int = if name == m[0] {
        0
    } else if name == m[1] {
        1
    } else if name == m[2] {
        2
    } else if name == m[3] {
        3
    } else if name == m[4] {
        4
    } else if name == m[5] {
        5
    } else if name == m[6] {
        6
    } else {
        7
    };
    assert(m[k] == name);
    law_manifests_are_looked_for(seq![dir], 1, 0, k);
}

/// The manifests of every directory are looked for.
pub proof fn law_manifests_are_looked_for(dirs: Seq<Seq<char>>, n: int, i: int, k: int)
    requires
        0 <= i < n <= dirs.len(),
        0 <= k < manifests().len(),
    ensures
        manifest_paths(dirs, n).contains(joined(dirs[i], manifests()[k])),
    decreases n,
{
    let q = manifest_paths(dirs, n - 1);
    let own = manifests().map_values(|m: Seq<char>| joined(dirs[n - 1], m));
    let r = manifest_paths(dirs, n);
    if i < n - 1 {
        law_manifests_are_looked_for(dirs, n - 1, i, k);
        let x = choose|x: int| 0 <= x < q.len() && q[x] == joined(dirs[i], manifests()[k]);
        assert(r[x] == q[x]);
    } else {
        assert(own[k] == joined(dirs[i], manifests()[k]));
        assert(r[q.len() + k] == own[k]);
    }
}

} // verus!
