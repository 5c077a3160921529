//! The sampling loop's decisions: a warm-up phase that collects one snapshot
//! per second until the baseline can be built, then a steady state that
//! classifies each snapshot. The caller sleeps, samples and dispatches.
use vstd::prelude::*;
use crate::config::Config;
use crate::polling::{
    Baseline, MissingBaselineSensor, PollResult, ResourceUsage, compare, detected, get_baseline,
};
use crate::stats::MAX_SAMPLES;

verus! {

/// What the loop learns from one snapshot.
#[derive(Debug, PartialEq, Eq)]
pub enum Step {
    /// The warm-up goes on.
    WarmingUp,
    /// The warm-up is over and the baseline is fixed from now on.
    BaselineReady,
    /// The snapshot was classified; the result goes to every sink in order.
    Detected(PollResult, Vec<MissingBaselineSensor>),
}

/// The state of the sampling loop.
pub struct Monitor {
    pub config: Config,
    /// The snapshots taken during the warm-up, in order.
    pub warmup: Vec<ResourceUsage>,
    /// The baseline, once the warm-up is over.
    pub baseline: Option<Baseline>,
}

impl Monitor {
    pub open spec fn wf(&self) -> bool {
        &&& 1 <= self.config.baseline_duration <= MAX_SAMPLES
        &&& forall|i: int| 0 <= i < self.warmup.len() ==> (#[trigger] self.warmup@[i]).wf()
        &&& match self.baseline {
            None => self.warmup.len() < self.config.baseline_duration,
            Some(b) => self.warmup.len() == self.config.baseline_duration && b.wf()
                && b.summarizes(self.warmup@),
        }
    }

    /// A loop in its warm-up phase, with no snapshot taken yet.
    pub fn new(config: Config) -> (r: Monitor)
        requires
            1 <= config.baseline_duration <= MAX_SAMPLES,
        ensures
            r.wf(),
            r.config == config,
            r.warmup.len() == 0,
            r.baseline is None,
    {
        Monitor { config, warmup: Vec::new(), baseline: None }
    }

    /// Seconds to sleep before the next snapshot: one during the warm-up,
    /// the polling interval afterwards.
    pub fn pause_secs(&self) -> (r: u64)
        ensures
            r == if self.baseline is None {
                1
            } else {
                self.config.polling_interval
            },
    {
        match &self.baseline {
            None => 1,
            Some(_) => self.config.polling_interval,
        }
    }

    /// Takes in one snapshot. During the warm-up it is kept, and the last
    /// one of the warm-up builds the baseline; afterwards it is classified
    /// against the baseline with the configured multiplier.
    pub fn on_sample(&mut self, usage: ResourceUsage) -> (r: Step)
        requires
            old(self).wf(),
            usage.wf(),
        ensures
            final(self).wf(),
            final(self).config == old(self).config,
            old(self).baseline is None ==> {
                &&& final(self).warmup@ == old(self).warmup@.push(usage)
                &&& if final(self).warmup.len() == old(self).config.baseline_duration {
                    r is BaselineReady && final(self).baseline is Some
                } else {
                    r is WarmingUp && final(self).baseline is None
                }
            },
            old(self).baseline is Some ==> {
                &&& final(self).warmup@ == old(self).warmup@
                &&& final(self).baseline == old(self).baseline
                &&& r matches Step::Detected(p, ms) && detected(
                    (p, ms),
                    usage,
                    old(self).baseline->Some_0,
                    old(self).config.standard_deviation_threshold as int,
                )
            },
    {
        match &self.baseline {
            Some(b) => {
                let (p, ms) = compare(usage, b, &self.config);
                Step::Detected(p, ms)
            },
            None => {
                self.warmup.push(usage);
                if self.warmup.len() as u64 == self.config.baseline_duration {
                    let b = get_baseline(&self.warmup);
                    self.baseline = Some(b);
                    Step::BaselineReady
                } else {
                    Step::WarmingUp
                }
            },
        }
    }
}

} // verus!
