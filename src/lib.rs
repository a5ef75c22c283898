use vstd::prelude::*;

pub mod driver;
pub mod framing;
pub mod grid;
pub mod map;
pub mod matches;
pub mod resolve;
pub mod rng;
pub mod state;
pub mod turns;
pub mod types;
pub mod world;

verus! {

} // verus!
