//! A countdown timer library for a work-interval technique: a circular
//! progress rasterizer for character-cell terminals, a phase scheduler over
//! the day's history of completed phases, and the encoding that persists
//! that history one byte per phase.

pub mod phase;
pub mod pie;
pub mod scheduler;
pub mod store;
