use vstd::prelude::*;

pub mod chart;
pub mod controller;
pub mod counts;
pub mod grouping;
pub mod keys;
pub mod palette;
pub mod passage;
pub mod prompts;
pub mod releases;
pub mod roster;
pub mod store;
pub mod typing;

verus! {

} // verus!
