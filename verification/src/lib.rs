use vstd::prelude::*;

pub mod direct_flow;
pub mod flow;
pub mod geometry;
pub mod id_set;
pub mod simple_algoritm;
pub mod state;
pub mod structs;

verus! {

/// Number of turns a game can last; the timeline ledger holds one slot per
/// absolute turn index.
pub const MAX_TURNS: usize = 500;

} // verus!
