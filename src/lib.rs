//! Core of a simplified air-traffic-control simulation: a bounded tile grid,
//! a router, flight plans, an event bus, the spawn scheduler and the
//! movement and despawn passes of a running phase.

pub mod map;
pub mod components;
pub mod event;
pub mod systems;
pub mod state;
