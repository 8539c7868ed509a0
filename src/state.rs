//! The phases of the simulation that this library drives.

pub mod running;
