use vstd::prelude::*;

pub mod breaks;
pub mod breaks_model;
pub mod text;
pub mod trace;
pub mod plugin;
pub mod rpc;

verus! {
} // verus!
