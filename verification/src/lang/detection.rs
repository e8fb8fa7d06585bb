//! Recognising generated files by name.
use vstd::prelude::*;

use crate::text::{chars_of, has_suffix, same_text};

verus! {

/// The name is that of a lock file or of minified code.
pub open spec fn generated_name(name: Seq<char>) -> bool {
    ||| name == "package-lock.json"@
    ||| name == "yarn.lock"@
    ||| name == "pnpm-lock.yaml"@
    ||| name == "Cargo.lock"@
    ||| name == "Gemfile.lock"@
    ||| name == "poetry.lock"@
    ||| name == "composer.lock"@
    ||| name == "go.sum"@
    ||| ".min.js"@.is_suffix_of(name)
    ||| ".min.css"@.is_suffix_of(name)
}

/// Whether the name is that of a generated file.
pub fn is_generated_by_name(name: &str) -> (r: bool)
    ensures
        r == generated_name(name@),
{
    let s = chars_of(name);
    same_text(name, "package-lock.json") || same_text(name, "yarn.lock") || same_text(name, "pnpm-lock.yaml") || same_text(name, "Cargo.lock") || same_text(name, "Gemfile.lock") || same_text(name, "poetry.lock") || same_text(name, "composer.lock") || same_text(name, "go.sum") || has_suffix(s.as_slice(), ".min.js") || has_suffix(s.as_slice(), ".min.css")
}

} // verus!
