//! Settings fixed at startup.
use vstd::prelude::*;

verus! {

/// The run's settings: warm-up length, polling cadence, the sensitivity
/// multiplier of the detector, and the names of the sinks to feed.
pub struct Config {
    /// Seconds of warm-up sampling, one snapshot per second.
    pub baseline_duration: u64,
    /// Seconds between two steady-state samples.
    pub polling_interval: u64,
    /// Total run length in seconds; accepted, not enforced.
    pub polling_duration: u64,
    pub log_directory: String,
    /// Multiplier of the one-sided deviation above which a reading is anomalous.
    pub standard_deviation_threshold: u64,
    /// Names of the sinks that receive each result, in order.
    pub logger_list: Vec<String>,
}

} // verus!
