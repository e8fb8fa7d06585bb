//! Reading and searching source code by its structure: outlines, sections,
//! definitions and usages, callers and callees, dependencies, and what a change
//! did to the symbols of a file.
//!
//! The library computes on texts, bytes and paths; whoever calls it walks the
//! directories and reads the files.
use vstd::prelude::*;

pub mod cache;
pub mod classify;
pub mod cli;
pub mod diff;
pub mod disambiguate;
pub mod groups;
pub mod index;
pub mod json;
pub mod lang;
pub mod mcp;
pub mod paths;
pub mod read;
pub mod run;
pub mod search;
pub mod session;
pub mod sort;
pub mod syntax;
pub mod text;
pub mod types;

verus! {

} // verus!
