//! Keeps a growing, day-by-day history of repository traffic (clones and
//! views) out of the short rolling windows that the hosting service reports.
//!
//! `merge` folds a fetched window into an ordered series; `stats` holds the
//! series of every repository; `sync` decides the steps of a sync cycle;
//! `store` and `server` decide what a load of the persisted history yields.
pub mod merge;
pub mod order;
pub mod server;
pub mod stats;
pub mod store;
pub mod sync;
pub mod traffic;
