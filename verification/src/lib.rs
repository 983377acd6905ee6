//! An in-memory transit-schedule store: two tables (trips and stop-times),
//! a one-to-many position index over each, and a two-hop join that answers
//! "every stop-time entry for every trip on route R" by count or in full.

pub mod records;
pub mod index;
pub mod loader;
pub mod data;
pub mod query;
pub mod laws;
