use vstd::prelude::*;

pub mod job;
pub mod cluster;
pub mod algos;
pub mod engine;

verus! {

/// Simulation time, in whole seconds. All time accounting is integral.
pub type Clock = u64;

} // verus!
