//! Snapshots of resource usage, the baseline built from a warm-up window,
//! and the classification of live snapshots against it.
//!
//! Readings are fixed-point integers in a unit the caller chooses (for
//! example millionths of a fraction for CPU, memory and swap, and
//! millidegrees for temperatures); the statistics over them are exact.
use vstd::prelude::*;
use crate::config::Config;
use crate::stats::{
    Stat, summarize, ints, reading_ok, lemma_constant_series, lemma_mean_not_exceeded,
    lemma_zero_multiplier, MAX_SAMPLES,
};

verus! {

/// Fractions (CPU, memory, swap) are expressed in millionths.
pub const FRACTION_SCALE: u64 = 1_000_000;

/// `part / whole` in millionths, rounded down and capped at `u32::MAX`;
/// zero when `whole` is zero, as for the swap of a host without swap.
pub fn fraction_millionths(part: u64, whole: u64) -> (r: u32)
    ensures
        r == if whole == 0 {
            0
        } else if (part * FRACTION_SCALE) as int / whole as int > u32::MAX {
            u32::MAX as int
        } else {
            (part * FRACTION_SCALE) as int / whole as int
        },
{
    if whole == 0 {
        return 0;
    }
    let q: u128 = (part as u128) * (FRACTION_SCALE as u128) / (whole as u128);
    if q > u32::MAX as u128 {
        u32::MAX
    } else {
        q as u32
    }
}

/// One temperature reading, named by the sensor that produced it.
#[derive(Clone, Debug, PartialEq, Eq)]
pub struct SensorReading {
    pub label: String,
    pub value: i32,
}

/// A point-in-time snapshot of the host.
#[derive(Clone, Debug, PartialEq, Eq)]
pub struct ResourceUsage {
    pub mem: u32,
    pub cpu: u32,
    pub swap: u32,
    pub temps: Vec<SensorReading>,
}

/// No sensor label occurs twice among the readings.
pub open spec fn labels_distinct(t: Seq<SensorReading>) -> bool {
    forall|i: int, j: int| 0 <= i < j < t.len() ==> t[i].label@ != t[j].label@
}

/// Some reading of `t` carries the label `label`.
pub open spec fn has_label(t: Seq<SensorReading>, label: Seq<char>) -> bool {
    exists|j: int| 0 <= j < t.len() && t[j].label@ == label
}

/// The values of the readings of `t` that carry `label`, in order.
pub open spec fn readings_for(t: Seq<SensorReading>, label: Seq<char>) -> Seq<int>
    decreases t.len(),
{
    if t.len() == 0 {
        Seq::empty()
    } else {
        let rest = readings_for(t.drop_last(), label);
        if t.last().label@ == label {
            rest.push(t.last().value as int)
        } else {
            rest
        }
    }
}

/// Some snapshot of `snaps` reports the sensor `label`.
pub open spec fn seen(snaps: Seq<ResourceUsage>, label: Seq<char>) -> bool {
    exists|i: int| 0 <= i < snaps.len() && has_label(snaps[i].temps@, label)
}

/// All readings of the sensor `label` over `snaps`, in order.
pub open spec fn sensor_series(snaps: Seq<ResourceUsage>, label: Seq<char>) -> Seq<int>
    decreases snaps.len(),
{
    if snaps.len() == 0 {
        Seq::empty()
    } else {
        sensor_series(snaps.drop_last(), label) + readings_for(snaps.last().temps@, label)
    }
}

pub open spec fn cpu_series(snaps: Seq<ResourceUsage>) -> Seq<int> {
    snaps.map_values(|u: ResourceUsage| u.cpu as int)
}

pub open spec fn mem_series(snaps: Seq<ResourceUsage>) -> Seq<int> {
    snaps.map_values(|u: ResourceUsage| u.mem as int)
}

pub open spec fn swap_series(snaps: Seq<ResourceUsage>) -> Seq<int> {
    snaps.map_values(|u: ResourceUsage| u.swap as int)
}

impl ResourceUsage {
    /// Sensor labels are unique within a snapshot, as in a mapping.
    pub open spec fn wf(&self) -> bool {
        labels_distinct(self.temps@)
    }
}

/// Baseline statistics of one sensor.
#[derive(Clone, Debug, PartialEq, Eq)]
pub struct SensorStat {
    pub label: String,
    pub stat: Stat,
}

/// Per-metric statistics computed once from the warm-up snapshots.
#[derive(Clone, Debug, PartialEq, Eq)]
pub struct Baseline {
    pub cpu: Stat,
    pub mem: Stat,
    pub swap: Stat,
    pub temps: Vec<SensorStat>,
}

impl Baseline {
    pub open spec fn wf(&self) -> bool {
        &&& self.cpu.wf()
        &&& self.mem.wf()
        &&& self.swap.wf()
        &&& forall|i: int| 0 <= i < self.temps.len() ==> (#[trigger] self.temps@[i]).stat.wf()
        &&& forall|i: int, j: int|
            0 <= i < j < self.temps.len() ==> self.temps@[i].label@ != self.temps@[j].label@
    }

    /// The baseline has statistics for the sensor `label`.
    pub open spec fn knows(&self, label: Seq<char>) -> bool {
        exists|i: int| 0 <= i < self.temps.len() && self.temps@[i].label@ == label
    }

    /// The statistics kept for the sensor `label`, which the baseline knows.
    pub open spec fn stat_for(&self, label: Seq<char>) -> Stat {
        self.temps@[choose|i: int| 0 <= i < self.temps.len() && self.temps@[i].label@ == label].stat
    }

    /// `self` is the baseline of the warm-up snapshots `snaps`: each metric's
    /// statistics describe its series, and the sensors it keeps are exactly
    /// those seen during the warm-up.
    pub open spec fn summarizes(&self, snaps: Seq<ResourceUsage>) -> bool {
        &&& self.cpu.describes(cpu_series(snaps))
        &&& self.mem.describes(mem_series(snaps))
        &&& self.swap.describes(swap_series(snaps))
        &&& forall|i: int|
            0 <= i < self.temps.len() ==> (#[trigger] self.temps@[i]).stat.describes(
                sensor_series(snaps, self.temps@[i].label@),
            )
        &&& forall|label: Seq<char>| seen(snaps, label) <==> self.knows(label)
    }
}

proof fn lemma_readings_for_len(t: Seq<SensorReading>, label: Seq<char>)
    requires
        labels_distinct(t),
    ensures
        readings_for(t, label).len() == if has_label(t, label) {
            1int
        } else {
            0int
        },
    decreases t.len(),
{
    if t.len() > 0 {
        let p = t.drop_last();
        lemma_readings_for_len(p, label);
        if has_label(t, label) {
            let j = choose|j: int| 0 <= j < t.len() && t[j].label@ == label;
            if j == t.len() - 1 {
                assert(!has_label(p, label));
            } else {
                assert(p[j].label@ == label);
            }
        } else {
            assert(!has_label(p, label));
        }
    }
}

proof fn lemma_series_len(snaps: Seq<ResourceUsage>, label: Seq<char>)
    requires
        forall|i: int| 0 <= i < snaps.len() ==> (#[trigger] snaps[i]).wf(),
    ensures
        sensor_series(snaps, label).len() <= snaps.len(),
        seen(snaps, label) ==> sensor_series(snaps, label).len() >= 1,
    decreases snaps.len(),
{
    if snaps.len() > 0 {
        let p = snaps.drop_last();
        assert(forall|i: int| 0 <= i < p.len() ==> p[i] == snaps[i]);
        lemma_series_len(p, label);
        assert(snaps.last().wf());
        lemma_readings_for_len(snaps.last().temps@, label);
        if seen(snaps, label) {
            let i = choose|i: int| 0 <= i < snaps.len() && has_label(snaps[i].temps@, label);
            if i < snaps.len() - 1 {
                assert(has_label(p[i].temps@, label));
            }
        }
    }
}

/// Some entry of `labels` reads `label`.
pub open spec fn in_labels(labels: Seq<String>, label: Seq<char>) -> bool {
    exists|k: int| 0 <= k < labels.len() && labels[k]@ == label
}

/// Whether `labels` holds `label`.
fn contains_label(labels: &Vec<String>, label: &String) -> (r: bool)
    ensures
        r == in_labels(labels@, label@),
{
    let mut k: usize = 0;
    while k < labels.len()
        invariant
            0 <= k <= labels.len(),
            forall|q: int| 0 <= q < k ==> labels@[q]@ != label@,
        decreases labels.len() - k,
    {
        if labels[k] == *label {
            return true;
        }
        k = k + 1;
    }
    false
}

/// The distinct sensor labels reported over `snaps`.
fn sensor_labels(snaps: &Vec<ResourceUsage>) -> (labels: Vec<String>)
    ensures
        forall|p: int, q: int| 0 <= p < q < labels.len() ==> labels@[p]@ != labels@[q]@,
        forall|label: Seq<char>| seen(snaps@, label) <==> in_labels(labels@, label),
{
    let mut labels: Vec<String> = Vec::new();
    let mut i: usize = 0;
    while i < snaps.len()
        invariant
            0 <= i <= snaps.len(),
            forall|p: int, q: int| 0 <= p < q < labels.len() ==> labels@[p]@ != labels@[q]@,
            forall|k: int| 0 <= k < labels.len() ==> seen(snaps@, #[trigger] labels@[k]@),
            forall|a: int, b: int|
                0 <= a < i && 0 <= b < snaps@[a].temps.len() ==> in_labels(
                    labels@,
                    (#[trigger] snaps@[a].temps@[b]).label@,
                ),
        decreases snaps.len() - i,
    {
        let temps = &snaps[i].temps;
        let mut j: usize = 0;
        while j < temps.len()
            invariant
                0 <= i < snaps.len(),
                temps@ == snaps@[i as int].temps@,
                0 <= j <= temps.len(),
                forall|p: int, q: int| 0 <= p < q < labels.len() ==> labels@[p]@ != labels@[q]@,
                forall|k: int| 0 <= k < labels.len() ==> seen(snaps@, #[trigger] labels@[k]@),
                forall|a: int, b: int|
                    0 <= a < i && 0 <= b < snaps@[a].temps.len() ==> in_labels(
                        labels@,
                        (#[trigger] snaps@[a].temps@[b]).label@,
                    ),
                forall|b: int| 0 <= b < j ==> in_labels(labels@, (#[trigger] temps@[b]).label@),
            decreases temps.len() - j,
        {
            let label = &temps[j].label;
            assert(has_label(snaps@[i as int].temps@, label@));
            if !contains_label(&labels, label) {
                let ghost before = labels@;
                labels.push(label.clone());
                assert forall|l: Seq<char>| in_labels(before, l) implies in_labels(labels@, l) by {
                    let k = choose|k: int| 0 <= k < before.len() && before[k]@ == l;
                    assert(labels@[k] == before[k]);
                }
                assert(labels@[labels.len() - 1]@ == label@);
            }
            j = j + 1;
        }
        i = i + 1;
    }
    assert forall|label: Seq<char>| seen(snaps@, label) implies in_labels(labels@, label) by {
        let a = choose|a: int| 0 <= a < snaps.len() && has_label(snaps@[a].temps@, label);
        let b = choose|b: int|
            0 <= b < snaps@[a].temps.len() && snaps@[a].temps@[b].label@ == label;
        assert(in_labels(labels@, snaps@[a].temps@[b].label@));
    }
    labels
}

/// All readings of the sensor `label` over `snaps`.
fn series_of(snaps: &Vec<ResourceUsage>, label: &String) -> (v: Vec<i64>)
    ensures
        ints(v@) == sensor_series(snaps@, label@),
        forall|q: int| 0 <= q < v.len() ==> reading_ok(#[trigger] v@[q] as int),
{
    let mut v: Vec<i64> = Vec::new();
    let mut i: usize = 0;
    while i < snaps.len()
        invariant
            0 <= i <= snaps.len(),
            ints(v@) == sensor_series(snaps@.take(i as int), label@),
            forall|q: int| 0 <= q < v.len() ==> reading_ok(#[trigger] v@[q] as int),
        decreases snaps.len() - i,
    {
        let temps = &snaps[i].temps;
        let ghost prefix = ints(v@);
        let mut j: usize = 0;
        while j < temps.len()
            invariant
                0 <= i < snaps.len(),
                temps@ == snaps@[i as int].temps@,
                0 <= j <= temps.len(),
                ints(v@) == prefix + readings_for(temps@.take(j as int), label@),
                forall|q: int| 0 <= q < v.len() ==> reading_ok(#[trigger] v@[q] as int),
            decreases temps.len() - j,
        {
            assert(temps@.take(j + 1).drop_last() =~= temps@.take(j as int));
            if temps[j].label == *label {
                let ghost old_v = v@;
                v.push(temps[j].value as i64);
                assert(ints(v@) =~= ints(old_v).push(temps@[j as int].value as int));
                assert(ints(v@) =~= prefix + readings_for(temps@.take(j + 1), label@));
            }
            j = j + 1;
        }
        assert(temps@.take(j as int) =~= temps@);
        assert(snaps@.take(i + 1).drop_last() =~= snaps@.take(i as int));
        i = i + 1;
    }
    assert(snaps@.take(i as int) =~= snaps@);
    v
}

/// Builds the baseline from the warm-up snapshots: for CPU, memory, swap and
/// every sensor seen, the mean and the one-sided deviation of its readings.
pub fn get_baseline(snapshots: &Vec<ResourceUsage>) -> (b: Baseline)
    requires
        1 <= snapshots.len() <= MAX_SAMPLES,
        forall|i: int| 0 <= i < snapshots.len() ==> (#[trigger] snapshots@[i]).wf(),
    ensures
        b.wf(),
        b.summarizes(snapshots@),
{
    let mut cpu: Vec<i64> = Vec::new();
    let mut mem: Vec<i64> = Vec::new();
    let mut swap: Vec<i64> = Vec::new();
    let mut i: usize = 0;
    while i < snapshots.len()
        invariant
            0 <= i <= snapshots.len(),
            cpu.len() == i,
            mem.len() == i,
            swap.len() == i,
            forall|q: int| 0 <= q < i ==> cpu@[q] == snapshots@[q].cpu,
            forall|q: int| 0 <= q < i ==> mem@[q] == snapshots@[q].mem,
            forall|q: int| 0 <= q < i ==> swap@[q] == snapshots@[q].swap,
        decreases snapshots.len() - i,
    {
        cpu.push(snapshots[i].cpu as i64);
        mem.push(snapshots[i].mem as i64);
        swap.push(snapshots[i].swap as i64);
        i = i + 1;
    }
    assert(ints(cpu@) =~= cpu_series(snapshots@));
    assert(ints(mem@) =~= mem_series(snapshots@));
    assert(ints(swap@) =~= swap_series(snapshots@));
    let cpu_stat = summarize(&cpu);
    let mem_stat = summarize(&mem);
    let swap_stat = summarize(&swap);

    let labels = sensor_labels(snapshots);
    let mut temps: Vec<SensorStat> = Vec::new();
    let mut k: usize = 0;
    while k < labels.len()
        invariant
            1 <= snapshots.len() <= MAX_SAMPLES,
            forall|i: int| 0 <= i < snapshots.len() ==> (#[trigger] snapshots@[i]).wf(),
            forall|label: Seq<char>| seen(snapshots@, label) <==> in_labels(labels@, label),
            0 <= k <= labels.len(),
            temps.len() == k,
            forall|q: int|
                0 <= q < k ==> (#[trigger] temps@[q]).label@ == labels@[q]@ && temps@[q].stat.wf()
                    && temps@[q].stat.describes(sensor_series(snapshots@, labels@[q]@)),
        decreases labels.len() - k,
    {
        let label = &labels[k];
        let series = series_of(snapshots, label);
        proof {
            assert(in_labels(labels@, label@));
            lemma_series_len(snapshots@, label@);
        }
        let stat = summarize(&series);
        temps.push(SensorStat { label: label.clone(), stat });
        k = k + 1;
    }
    let b = Baseline { cpu: cpu_stat, mem: mem_stat, swap: swap_stat, temps };
    assert forall|label: Seq<char>| seen(snapshots@, label) <==> b.knows(label) by {
        if in_labels(labels@, label) {
            let q = choose|q: int| 0 <= q < labels.len() && labels@[q]@ == label;
            assert(b.temps@[q].label@ == label);
        }
        if b.knows(label) {
            let q = choose|q: int| 0 <= q < b.temps.len() && b.temps@[q].label@ == label;
            assert(labels@[q]@ == label);
        }
    }
    b
}

/// A metric that exceeded its threshold.
#[derive(Clone, Debug, PartialEq, Eq)]
pub enum Resource {
    CPU,
    Memory,
    Swap,
    Temp(String),
}

/// The classification of one live snapshot.
#[derive(Debug, PartialEq, Eq)]
pub enum PollResult {
    Normal(ResourceUsage),
    Exceptional(ResourceUsage, Vec<Resource>),
}

/// A live snapshot reported a sensor that the baseline has no statistics for.
#[derive(Clone, Debug, PartialEq, Eq)]
pub struct MissingBaselineSensor {
    pub label: String,
}

impl PollResult {
    pub open spec fn snapshot(&self) -> ResourceUsage {
        match self {
            PollResult::Normal(u) => *u,
            PollResult::Exceptional(u, _) => *u,
        }
    }

    /// The flagged metrics; none for a normal result.
    pub open spec fn flags(&self) -> Seq<Resource> {
        match self {
            PollResult::Normal(_) => Seq::empty(),
            PollResult::Exceptional(_, f) => f@,
        }
    }
}

/// The flags of CPU, memory and swap, checked in that order.
pub open spec fn metric_flags(u: ResourceUsage, b: Baseline, m: int) -> Seq<Resource> {
    let c = if b.cpu.exceeded_by(u.cpu as int, m) {
        seq![Resource::CPU]
    } else {
        Seq::empty()
    };
    let me = if b.mem.exceeded_by(u.mem as int, m) {
        seq![Resource::Memory]
    } else {
        Seq::empty()
    };
    let sw = if b.swap.exceeded_by(u.swap as int, m) {
        seq![Resource::Swap]
    } else {
        Seq::empty()
    };
    c + me + sw
}

/// The flags of the known sensors among `t`, in the order of `t`.
pub open spec fn sensor_flags(t: Seq<SensorReading>, b: Baseline, m: int) -> Seq<Resource>
    decreases t.len(),
{
    if t.len() == 0 {
        Seq::empty()
    } else {
        let rest = sensor_flags(t.drop_last(), b, m);
        let r = t.last();
        if b.knows(r.label@) && b.stat_for(r.label@).exceeded_by(r.value as int, m) {
            rest.push(Resource::Temp(r.label))
        } else {
            rest
        }
    }
}

/// The sensors among `t` that the baseline does not know, in the order of `t`.
pub open spec fn missing_sensors(t: Seq<SensorReading>, b: Baseline) -> Seq<
    MissingBaselineSensor,
>
    decreases t.len(),
{
    if t.len() == 0 {
        Seq::empty()
    } else {
        let rest = missing_sensors(t.drop_last(), b);
        if b.knows(t.last().label@) {
            rest
        } else {
            rest.push(MissingBaselineSensor { label: t.last().label })
        }
    }
}

/// Every flag that the snapshot `u` raises against `b` under multiplier `m`.
pub open spec fn flags_of(u: ResourceUsage, b: Baseline, m: int) -> Seq<Resource> {
    metric_flags(u, b, m) + sensor_flags(u.temps@, b, m)
}

/// `r` is what detection owes for `u` against `b` under multiplier `m`.
pub open spec fn detected(
    r: (PollResult, Vec<MissingBaselineSensor>),
    u: ResourceUsage,
    b: Baseline,
    m: int,
) -> bool {
    &&& r.0.snapshot() == u
    &&& r.0.flags() == flags_of(u, b, m)
    &&& (r.0 is Normal <==> flags_of(u, b, m).len() == 0)
    &&& r.1@ == missing_sensors(u.temps@, b)
}

impl Baseline {
    /// The statistics of the sensor `label`, if the baseline has them.
    pub fn temp_stat(&self, label: &String) -> (r: Option<Stat>)
        requires
            self.wf(),
        ensures
            r == if self.knows(label@) {
                Some(self.stat_for(label@))
            } else {
                None::<Stat>
            },
    {
        let mut k: usize = 0;
        while k < self.temps.len()
            invariant
                self.wf(),
                0 <= k <= self.temps.len(),
                forall|q: int| 0 <= q < k ==> self.temps@[q].label@ != label@,
            decreases self.temps.len() - k,
        {
            if self.temps[k].label == *label {
                proof {
                    assert(self.temps@[k as int].label@ == label@);
                    let c = choose|i: int|
                        0 <= i < self.temps.len() && self.temps@[i].label@ == label@;
                    assert(c == k);
                }
                return Some(self.temps[k].stat);
            }
            k = k + 1;
        }
        None
    }
}

/// Classifies a live snapshot against the baseline, with the configured
/// multiplier. CPU, memory and swap are each checked, in that order, then
/// every sensor of the snapshot in its order; a metric is flagged when it
/// exceeds its mean by more than the multiplier times its one-sided
/// deviation. Sensors the baseline does not know are skipped and reported.
pub fn compare(usage: ResourceUsage, baseline: &Baseline, config: &Config) -> (r: (
    PollResult,
    Vec<MissingBaselineSensor>,
))
    requires
        baseline.wf(),
    ensures
        detected(r, usage, *baseline, config.standard_deviation_threshold as int),
{
    let m = config.standard_deviation_threshold;
    let ghost mi = m as int;
    let mut flags: Vec<Resource> = Vec::new();
    if baseline.cpu.is_exceeded_by(usage.cpu as i64, m) {
        flags.push(Resource::CPU);
    }
    if baseline.mem.is_exceeded_by(usage.mem as i64, m) {
        flags.push(Resource::Memory);
    }
    if baseline.swap.is_exceeded_by(usage.swap as i64, m) {
        flags.push(Resource::Swap);
    }
    assert(flags@ =~= metric_flags(usage, *baseline, mi));
    let mut missing: Vec<MissingBaselineSensor> = Vec::new();
    let mut j: usize = 0;
    while j < usage.temps.len()
        invariant
            baseline.wf(),
            mi == m as int,
            0 <= j <= usage.temps.len(),
            flags@ == metric_flags(usage, *baseline, mi) + sensor_flags(
                usage.temps@.take(j as int),
                *baseline,
                mi,
            ),
            missing@ == missing_sensors(usage.temps@.take(j as int), *baseline),
        decreases usage.temps.len() - j,
    {
        let ghost t = usage.temps@.take(j + 1);
        assert(t.drop_last() =~= usage.temps@.take(j as int));
        assert(t.last() == usage.temps@[j as int]);
        let reading = &usage.temps[j];
        match baseline.temp_stat(&reading.label) {
            None => {
                missing.push(MissingBaselineSensor { label: reading.label.clone() });
            },
            Some(stat) => {
                if stat.is_exceeded_by(reading.value as i64, m) {
                    let ghost old_f = flags@;
                    flags.push(Resource::Temp(reading.label.clone()));
                    assert(flags@ =~= old_f.push(Resource::Temp(reading.label)));
                    assert(flags@ =~= metric_flags(usage, *baseline, mi) + sensor_flags(
                        t,
                        *baseline,
                        mi,
                    ));
                }
            },
        }
        j = j + 1;
    }
    assert(usage.temps@.take(j as int) =~= usage.temps@);
    if flags.len() == 0 {
        (PollResult::Normal(usage), missing)
    } else {
        (PollResult::Exceptional(usage, flags), missing)
    }
}

proof fn lemma_readings_for_single(t: Seq<SensorReading>, label: Seq<char>, j: int)
    requires
        labels_distinct(t),
        0 <= j < t.len(),
        t[j].label@ == label,
    ensures
        readings_for(t, label) =~= seq![t[j].value as int],
    decreases t.len(),
{
    let p = t.drop_last();
    if j == t.len() - 1 {
        lemma_readings_for_len(p, label);
        assert(!has_label(p, label));
    } else {
        lemma_readings_for_single(p, label, j);
    }
}

proof fn lemma_series_constant(snaps: Seq<ResourceUsage>, u: ResourceUsage, j: int)
    requires
        u.wf(),
        0 <= j < u.temps.len(),
        forall|i: int| 0 <= i < snaps.len() ==> snaps[i] == u,
    ensures
        sensor_series(snaps, u.temps@[j].label@).len() == snaps.len(),
        forall|k: int|
            0 <= k < snaps.len() ==> sensor_series(snaps, u.temps@[j].label@)[k]
                == u.temps@[j].value as int,
    decreases snaps.len(),
{
    if snaps.len() > 0 {
        let p = snaps.drop_last();
        lemma_series_constant(p, u, j);
        lemma_readings_for_single(u.temps@, u.temps@[j].label@, j);
    }
}

/// A warm-up whose snapshots are all the same snapshot `u` yields, for every
/// metric, a mean equal to `u`'s reading and a one-sided deviation of zero.
pub proof fn lemma_constant_warmup(snaps: Seq<ResourceUsage>, b: Baseline, u: ResourceUsage)
    requires
        b.summarizes(snaps),
        u.wf(),
        forall|i: int| 0 <= i < snaps.len() ==> snaps[i] == u,
    ensures
        b.cpu.total == u.cpu * b.cpu.count && b.cpu.above == 0 && b.cpu.excess == 0,
        b.mem.total == u.mem * b.mem.count && b.mem.above == 0 && b.mem.excess == 0,
        b.swap.total == u.swap * b.swap.count && b.swap.above == 0 && b.swap.excess == 0,
        forall|i: int| 0 <= i < b.temps.len() ==> has_label(u.temps@, (#[trigger] b.temps@[i]).label@),
        forall|i: int, j: int|
            0 <= i < b.temps.len() && 0 <= j < u.temps.len() && u.temps@[j].label@ == b.temps@[i].label@
                ==> b.temps@[i].stat.total == u.temps@[j].value * b.temps@[i].stat.count
                && b.temps@[i].stat.above == 0 && b.temps@[i].stat.excess == 0,
{
    lemma_constant_series(b.cpu, cpu_series(snaps), u.cpu as int);
    lemma_constant_series(b.mem, mem_series(snaps), u.mem as int);
    lemma_constant_series(b.swap, swap_series(snaps), u.swap as int);
    assert forall|i: int| 0 <= i < b.temps.len() implies has_label(
        u.temps@,
        (#[trigger] b.temps@[i]).label@,
    ) by {
        let label = b.temps@[i].label@;
        assert(b.knows(label));
        let a = choose|a: int| 0 <= a < snaps.len() && has_label(snaps[a].temps@, label);
        assert(snaps[a] == u);
    }
    assert forall|i: int, j: int|
        0 <= i < b.temps.len() && 0 <= j < u.temps.len() && u.temps@[j].label@
            == b.temps@[i].label@ implies b.temps@[i].stat.total == u.temps@[j].value
        * b.temps@[i].stat.count && b.temps@[i].stat.above == 0 && b.temps@[i].stat.excess
        == 0 by {
        let label = b.temps@[i].label@;
        assert(b.knows(label));
        lemma_series_constant(snaps, u, j);
        lemma_constant_series(
            b.temps@[i].stat,
            sensor_series(snaps, label),
            u.temps@[j].value as int,
        );
        assert(u.temps@[j].label@ == label);
        assert(b.temps@[i].stat.total == u.temps@[j].value * b.temps@[i].stat.count);
    }
}

/// CPU, memory and swap are each flagged exactly when their own reading
/// exceeds their own threshold, independently of the others.
pub proof fn lemma_metric_flags(u: ResourceUsage, b: Baseline, m: int)
    ensures
        flags_of(u, b, m).contains(Resource::CPU) <==> b.cpu.exceeded_by(u.cpu as int, m),
        flags_of(u, b, m).contains(Resource::Memory) <==> b.mem.exceeded_by(u.mem as int, m),
        flags_of(u, b, m).contains(Resource::Swap) <==> b.swap.exceeded_by(u.swap as int, m),
{
    let f = flags_of(u, b, m);
    let mf = metric_flags(u, b, m);
    lemma_sensor_flags_known(u.temps@, b, m);
    assert forall|k: int| mf.len() <= k < f.len() implies f[k] is Temp by {
        assert(f[k] == sensor_flags(u.temps@, b, m)[k - mf.len()]);
    }
    if b.cpu.exceeded_by(u.cpu as int, m) {
        assert(f[0] == Resource::CPU);
    }
    let c: int = if b.cpu.exceeded_by(u.cpu as int, m) { 1 } else { 0 };
    let me: int = if b.mem.exceeded_by(u.mem as int, m) { 1 } else { 0 };
    if b.mem.exceeded_by(u.mem as int, m) {
        assert(f[c] == Resource::Memory);
    }
    if b.swap.exceeded_by(u.swap as int, m) {
        assert(f[c + me] == Resource::Swap);
    }
}

/// A CPU reading equal to the baseline mean is never flagged.
pub proof fn lemma_cpu_at_mean(u: ResourceUsage, b: Baseline, m: int)
    requires
        b.wf(),
        m >= 0,
        u.cpu * b.cpu.count == b.cpu.total,
    ensures
        !flags_of(u, b, m).contains(Resource::CPU),
{
    lemma_mean_not_exceeded(b.cpu, u.cpu as int, m);
    lemma_metric_flags(u, b, m);
}

/// With multiplier zero, CPU, memory and swap are flagged exactly when their
/// reading lies above the mean by any positive amount.
pub proof fn lemma_zero_multiplier_flags(u: ResourceUsage, b: Baseline)
    requires
        b.wf(),
    ensures
        flags_of(u, b, 0).contains(Resource::CPU) <==> u.cpu * b.cpu.count > b.cpu.total,
        flags_of(u, b, 0).contains(Resource::Memory) <==> u.mem * b.mem.count > b.mem.total,
        flags_of(u, b, 0).contains(Resource::Swap) <==> u.swap * b.swap.count > b.swap.total,
{
    lemma_zero_multiplier(b.cpu, u.cpu as int);
    lemma_zero_multiplier(b.mem, u.mem as int);
    lemma_zero_multiplier(b.swap, u.swap as int);
    lemma_metric_flags(u, b, 0);
}

/// Detection depends on its inputs alone: two results for the same snapshot,
/// baseline and multiplier agree in kind, snapshot, flags and missing sensors.
pub proof fn lemma_detect_deterministic(
    r1: (PollResult, Vec<MissingBaselineSensor>),
    r2: (PollResult, Vec<MissingBaselineSensor>),
    u: ResourceUsage,
    b: Baseline,
    m: int,
)
    requires
        detected(r1, u, b, m),
        detected(r2, u, b, m),
    ensures
        r1.0 is Normal <==> r2.0 is Normal,
        r1.0.snapshot() == r2.0.snapshot(),
        r1.0.flags() == r2.0.flags(),
        r1.1@ == r2.1@,
{
}

proof fn lemma_sensor_flags_known(t: Seq<SensorReading>, b: Baseline, m: int)
    ensures
        forall|k: int|
            0 <= k < sensor_flags(t, b, m).len() ==> (#[trigger] sensor_flags(t, b, m)[k]) is Temp
                && b.knows(sensor_flags(t, b, m)[k]->Temp_0@),
    decreases t.len(),
{
    if t.len() > 0 {
        lemma_sensor_flags_known(t.drop_last(), b, m);
    }
}

proof fn lemma_missing_listed(t: Seq<SensorReading>, b: Baseline, j: int)
    requires
        0 <= j < t.len(),
        !b.knows(t[j].label@),
    ensures
        missing_sensors(t, b).contains(MissingBaselineSensor { label: t[j].label }),
    decreases t.len(),
{
    let p = t.drop_last();
    let rest = missing_sensors(p, b);
    if j == t.len() - 1 {
        assert(missing_sensors(t, b).last() == MissingBaselineSensor { label: t[j].label });
    } else {
        lemma_missing_listed(p, b, j);
        let k = choose|k: int|
            0 <= k < rest.len() && rest[k] == MissingBaselineSensor { label: t[j].label };
        assert(missing_sensors(t, b)[k] == rest[k]);
    }
}

/// A sensor of the live snapshot that the baseline does not know is reported
/// as missing, and never flagged.
pub proof fn lemma_unknown_sensor_reported(u: ResourceUsage, b: Baseline, m: int, j: int)
    requires
        0 <= j < u.temps.len(),
        !b.knows(u.temps@[j].label@),
    ensures
        missing_sensors(u.temps@, b).contains(MissingBaselineSensor { label: u.temps@[j].label }),
        !flags_of(u, b, m).contains(Resource::Temp(u.temps@[j].label)),
{
    lemma_missing_listed(u.temps@, b, j);
    lemma_sensor_flags_known(u.temps@, b, m);
    let f = flags_of(u, b, m);
    let mf = metric_flags(u, b, m);
    let sf = sensor_flags(u.temps@, b, m);
    assert forall|k: int| 0 <= k < f.len() implies f[k] != Resource::Temp(u.temps@[j].label) by {
        if k >= mf.len() {
            assert(f[k] == sf[k - mf.len()]);
        }
    }
}

/// The label `s` is one of the readings of `t`, string for string.
pub open spec fn from_reading(t: Seq<SensorReading>, s: String) -> bool {
    exists|i: int| 0 <= i < t.len() && t[i].label == s
}

proof fn lemma_sensor_flags_origin(t: Seq<SensorReading>, b: Baseline, m: int)
    ensures
        forall|k: int|
            0 <= k < sensor_flags(t, b, m).len() ==> from_reading(
                t,
                (#[trigger] sensor_flags(t, b, m)[k])->Temp_0,
            ),
    decreases t.len(),
{
    lemma_sensor_flags_known(t, b, m);
    if t.len() > 0 {
        let p = t.drop_last();
        lemma_sensor_flags_origin(p, b, m);
        let f = sensor_flags(t, b, m);
        let fp = sensor_flags(p, b, m);
        assert forall|k: int| 0 <= k < f.len() implies from_reading(t, (#[trigger] f[k])->Temp_0) by {
            if k < fp.len() {
                assert(f[k] == fp[k]);
                let i = choose|i: int| 0 <= i < p.len() && p[i].label == fp[k]->Temp_0;
                assert(t[i] == p[i]);
            } else {
                assert(t[t.len() - 1].label == f[k]->Temp_0);
            }
        }
    }
}

proof fn lemma_sensor_flag_iff(t: Seq<SensorReading>, b: Baseline, m: int, j: int)
    requires
        labels_distinct(t),
        0 <= j < t.len(),
        b.knows(t[j].label@),
    ensures
        sensor_flags(t, b, m).contains(Resource::Temp(t[j].label)) <==> b.stat_for(
            t[j].label@,
        ).exceeded_by(t[j].value as int, m),
    decreases t.len(),
{
    let p = t.drop_last();
    let f = sensor_flags(t, b, m);
    let fp = sensor_flags(p, b, m);
    let target = Resource::Temp(t[j].label);
    if j == t.len() - 1 {
        lemma_sensor_flags_origin(p, b, m);
        assert forall|k: int| 0 <= k < fp.len() implies fp[k] != target by {
            let i = choose|i: int| 0 <= i < p.len() && p[i].label == fp[k]->Temp_0;
            assert(t[i] == p[i]);
        }
        if b.stat_for(t[j].label@).exceeded_by(t[j].value as int, m) {
            assert(f[f.len() - 1] == target);
        } else {
            assert(f == fp);
        }
    } else {
        assert(forall|q: int| 0 <= q < p.len() ==> p[q] == t[q]);
        lemma_sensor_flag_iff(p, b, m, j);
        assert(t.last().label@ != t[j].label@);
        if f.contains(target) {
            let k = choose|k: int| 0 <= k < f.len() && f[k] == target;
            if k < fp.len() {
                assert(fp[k] == target);
            }
        }
        if fp.contains(target) {
            let k = choose|k: int| 0 <= k < fp.len() && fp[k] == target;
            assert(f[k] == target);
        }
    }
}

/// With multiplier zero, a sensor that the baseline knows is flagged exactly
/// when its reading lies above its mean by any positive amount.
pub proof fn lemma_zero_multiplier_sensor(u: ResourceUsage, b: Baseline, j: int)
    requires
        b.wf(),
        u.wf(),
        0 <= j < u.temps.len(),
        b.knows(u.temps@[j].label@),
    ensures
        flags_of(u, b, 0).contains(Resource::Temp(u.temps@[j].label)) <==> u.temps@[j].value
            * b.stat_for(u.temps@[j].label@).count > b.stat_for(u.temps@[j].label@).total,
{
    let label = u.temps@[j].label@;
    let i = choose|i: int| 0 <= i < b.temps.len() && b.temps@[i].label@ == label;
    assert(b.temps@[i].stat.wf());
    lemma_zero_multiplier(b.stat_for(label), u.temps@[j].value as int);
    lemma_sensor_flag_iff(u.temps@, b, 0, j);
    let f = flags_of(u, b, 0);
    let mf = metric_flags(u, b, 0);
    let sf = sensor_flags(u.temps@, b, 0);
    let target = Resource::Temp(u.temps@[j].label);
    if f.contains(target) {
        let k = choose|k: int| 0 <= k < f.len() && f[k] == target;
        assert(k >= mf.len());
        assert(sf[k - mf.len()] == target);
    }
    if sf.contains(target) {
        let k = choose|k: int| 0 <= k < sf.len() && sf[k] == target;
        assert(f[k + mf.len()] == target);
    }
}

/// A warm-up in which every swap reading is zero, as on a host without
/// swap, yields a swap mean and a swap deviation of zero.
pub proof fn lemma_no_swap(snaps: Seq<ResourceUsage>, b: Baseline)
    requires
        b.summarizes(snaps),
        forall|i: int| 0 <= i < snaps.len() ==> (#[trigger] snaps[i]).swap == 0,
    ensures
        b.swap.total == 0,
        b.swap.above == 0,
        b.swap.excess == 0,
{
    lemma_constant_series(b.swap, swap_series(snaps), 0);
}

} // verus!
