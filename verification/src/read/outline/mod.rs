//! Outlines of files.
use vstd::prelude::*;

pub mod code;

verus! {

} // verus!
