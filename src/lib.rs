use vstd::prelude::*;

pub mod json;
pub mod laws;
pub mod path;
pub mod storage;

verus! {

} // verus!
