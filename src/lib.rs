//! A tick-driven simulation core for a small tower-defence game: interval
//! timers, an entity store with deferred creation and cascading destruction,
//! and the two per-tick systems (tower firing and projectile expiry).
//!
//! Time is measured in whole nanoseconds; positions in millimetres.

pub mod timer;
pub mod components;
pub mod world;
pub mod systems;
