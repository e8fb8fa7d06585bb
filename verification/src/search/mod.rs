//! Searching code.
use vstd::prelude::*;

pub mod bfs;
pub mod bfs_format;
pub mod callees;
pub mod callers;
pub mod callers_format;
pub mod deps;
pub mod deps_format;
pub mod expand;
pub mod facets;
pub mod format;
pub mod io;
pub mod pagination;
pub mod resolve;
pub mod result;
pub mod siblings;
pub mod suspicion;
pub mod symbol;
pub mod usages;

verus! {

} // verus!
