//! A host-resource anomaly detector: a baseline of per-metric means and
//! one-sided deviations is built from a warm-up window of snapshots, and
//! each later snapshot is classified against it.
pub mod config;
pub mod logging;
pub mod monitor;
pub mod polling;
pub mod stats;
