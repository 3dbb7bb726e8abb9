use vstd::prelude::*;

pub mod context;
pub mod greeting;
pub mod request;
pub mod tracer;

verus! {

} // verus!
