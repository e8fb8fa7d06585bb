//! Where symbols are defined.
use vstd::prelude::*;

pub mod symbol;

verus! {

} // verus!
