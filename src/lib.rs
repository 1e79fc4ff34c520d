//! Consistency layer for a sports-facility booking store: conflict-free time
//! slot reservations and reference-counted group tags on teams.

pub mod conflict;
pub mod error;
pub mod input;
pub mod schedule;
pub mod instant;
pub mod laws;
pub mod store;
pub mod tags;
