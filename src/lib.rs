use vstd::prelude::*;

pub mod channels;
pub mod gateway;
pub mod lemmas;

verus! {

} // verus!
