//! The systems that run while the simulation is in its running phase.

pub mod spawn_airplane;
pub mod flight;
