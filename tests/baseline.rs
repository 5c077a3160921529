use deckhand::config::Config;
use deckhand::logging::{ConfigError, LoggerGroup, PrintLogger, Sink, sink_named};
use deckhand::monitor::{Monitor, Step};
use deckhand::polling::{
    Baseline, MissingBaselineSensor, PollResult, Resource, ResourceUsage, SensorReading,
    compare, fraction_millionths, get_baseline,
};
use deckhand::stats::{Stat, summarize};

fn usage(cpu: u32, mem: u32, swap: u32, temps: &[(&str, i32)]) -> ResourceUsage {
    ResourceUsage {
        cpu,
        mem,
        swap,
        temps: temps
            .iter()
            .map(|(l, v)| SensorReading { label: l.to_string(), value: *v })
            .collect(),
    }
}

fn config(multiplier: u64, warmup: u64) -> Config {
    Config {
        baseline_duration: warmup,
        polling_interval: 10,
        polling_duration: 600,
        log_directory: "~/.deckhand/".to_string(),
        standard_deviation_threshold: multiplier,
        logger_list: vec!["print".to_string()],
    }
}

/// Mean of a summary as a pair (numerator, denominator).
fn mean(s: &Stat) -> (i128, i128) {
    (s.total, s.count as i128)
}

/// One-sided deviation of a summary as a pair (numerator, denominator).
fn deviation(s: &Stat) -> (i128, i128) {
    if s.above == 0 {
        (0, 1)
    } else {
        (s.excess, s.count as i128 * s.above as i128)
    }
}

fn temp(b: &Baseline, label: &str) -> Option<Stat> {
    b.temp_stat(&label.to_string())
}

#[test]
fn constant_stream_has_zero_deviation() {
    let snaps: Vec<ResourceUsage> =
        (0..5).map(|_| usage(400, 700, 30, &[("cpu0", 55_000), ("gpu", 61_000)])).collect();
    let b = get_baseline(&snaps);
    for s in [b.cpu, b.mem, b.swap] {
        assert_eq!(s.above, 0);
        assert_eq!(s.excess, 0);
        assert_eq!(deviation(&s), (0, 1));
    }
    assert_eq!(mean(&b.cpu), (2000, 5));
    assert_eq!(mean(&b.mem), (3500, 5));
    assert_eq!(mean(&b.swap), (150, 5));
    let t = temp(&b, "cpu0").unwrap();
    assert_eq!(mean(&t), (275_000, 5));
    assert_eq!(t.above, 0);
    let g = temp(&b, "gpu").unwrap();
    assert_eq!(mean(&g), (305_000, 5));
    assert_eq!(g.excess, 0);
}

#[test]
fn one_sided_deviation_counts_only_samples_above_mean() {
    let s = summarize(&vec![10, 20, 30]);
    assert_eq!(s.count, 3);
    assert_eq!(s.total, 60);
    assert_eq!(s.above, 1);
    // (30 * 3 - 60) / (3 * 1) == 10
    assert_eq!(s.excess, 30);
    assert_eq!(deviation(&s), (30, 3));
    assert_eq!(s.excess / (s.count as i128 * s.above as i128), 10);
}

#[test]
fn deviation_divides_by_samples_above_mean() {
    let s = summarize(&vec![0, 0, 0, 4]);
    // mean 1; one sample above, excursion 3
    assert_eq!(s.above, 1);
    assert_eq!(s.excess, 4 * 4 - 4);
    assert_eq!(s.excess / (s.count as i128 * s.above as i128), 3);
}

#[test]
fn negative_readings_are_summarised() {
    let s = summarize(&vec![-10, -20]);
    assert_eq!(s.total, -30);
    assert_eq!(s.above, 1);
    assert_eq!(s.excess, -10 * 2 + 30);
}

#[test]
fn reading_at_mean_is_not_flagged() {
    let snaps = vec![usage(100, 500, 0, &[]), usage(300, 500, 0, &[])];
    let b = get_baseline(&snaps);
    for m in [0u64, 1, 3, u64::MAX] {
        let (r, missing) = compare(usage(200, 500, 0, &[]), &b, &config(m, 2));
        assert_eq!(r, PollResult::Normal(usage(200, 500, 0, &[])));
        assert!(missing.is_empty());
    }
}

#[test]
fn zero_multiplier_flags_any_excess() {
    let snaps = vec![usage(100, 500, 0, &[]), usage(300, 500, 0, &[])];
    let b = get_baseline(&snaps);
    let (r, _) = compare(usage(201, 500, 0, &[]), &b, &config(0, 2));
    assert_eq!(r, PollResult::Exceptional(usage(201, 500, 0, &[]), vec![Resource::CPU]));
    let (r, _) = compare(usage(201, 501, 1, &[]), &b, &config(0, 2));
    assert_eq!(
        r,
        PollResult::Exceptional(
            usage(201, 501, 1, &[]),
            vec![Resource::CPU, Resource::Memory, Resource::Swap]
        )
    );
}

#[test]
fn threshold_equality_is_not_anomalous() {
    // mean 200, deviation 100: 300 is exactly one deviation above
    let snaps = vec![usage(100, 0, 0, &[]), usage(200, 0, 0, &[]), usage(300, 0, 0, &[])];
    let b = get_baseline(&snaps);
    let (r, _) = compare(usage(300, 0, 0, &[]), &b, &config(1, 3));
    assert_eq!(r, PollResult::Normal(usage(300, 0, 0, &[])));
    let (r, _) = compare(usage(301, 0, 0, &[]), &b, &config(1, 3));
    assert_eq!(r, PollResult::Exceptional(usage(301, 0, 0, &[]), vec![Resource::CPU]));
    let (r, _) = compare(usage(500, 0, 0, &[]), &b, &config(3, 3));
    assert_eq!(r, PollResult::Normal(usage(500, 0, 0, &[])));
    let (r, _) = compare(usage(501, 0, 0, &[]), &b, &config(3, 3));
    assert_eq!(r, PollResult::Exceptional(usage(501, 0, 0, &[]), vec![Resource::CPU]));
}

#[test]
fn largest_multiplier_never_flags_a_metric_with_deviation() {
    let snaps = vec![usage(0, 0, 0, &[]), usage(u32::MAX, 0, 0, &[])];
    let b = get_baseline(&snaps);
    let (r, _) = compare(usage(u32::MAX, 0, 0, &[]), &b, &config(u64::MAX, 2));
    assert_eq!(r, PollResult::Normal(usage(u32::MAX, 0, 0, &[])));
    let (r, _) = compare(usage(u32::MAX, 0, 0, &[]), &b, &config(0, 2));
    assert_eq!(r, PollResult::Exceptional(usage(u32::MAX, 0, 0, &[]), vec![Resource::CPU]));
}

#[test]
fn detect_is_idempotent() {
    let snaps = vec![
        usage(100, 400, 0, &[("a", 40_000)]),
        usage(200, 600, 0, &[("a", 50_000)]),
    ];
    let b = get_baseline(&snaps);
    let live = usage(250, 300, 5, &[("a", 60_000), ("b", 1)]);
    let c = config(1, 2);
    let first = compare(live.clone(), &b, &c);
    let second = compare(live.clone(), &b, &c);
    assert_eq!(first, second);
}

#[test]
fn unknown_sensor_is_reported_and_skipped() {
    let snaps = vec![
        usage(100, 400, 0, &[("a", 40_000)]),
        usage(100, 400, 0, &[("a", 50_000)]),
    ];
    let b = get_baseline(&snaps);
    assert!(temp(&b, "fan").is_none());
    let live = usage(100, 400, 0, &[("fan", 90_000), ("a", 60_000)]);
    let (r, missing) = compare(live.clone(), &b, &config(1, 2));
    assert_eq!(missing, vec![MissingBaselineSensor { label: "fan".to_string() }]);
    assert_eq!(r, PollResult::Exceptional(live, vec![Resource::Temp("a".to_string())]));
}

#[test]
fn sensors_seen_in_some_snapshots_are_averaged_per_label() {
    let snaps = vec![
        usage(0, 0, 0, &[("a", 10)]),
        usage(0, 0, 0, &[("a", 30), ("b", 7)]),
        usage(0, 0, 0, &[]),
    ];
    let b = get_baseline(&snaps);
    assert_eq!(b.temps.len(), 2);
    let a = temp(&b, "a").unwrap();
    assert_eq!(mean(&a), (40, 2));
    assert_eq!(a.above, 1);
    assert_eq!(deviation(&a), (30 * 2 - 40, 2));
    let bb = temp(&b, "b").unwrap();
    assert_eq!(mean(&bb), (7, 1));
    assert_eq!(deviation(&bb), (0, 1));
}

#[test]
fn no_swap_gives_zero_swap_statistics() {
    let snaps = vec![usage(1, 2, 0, &[]), usage(3, 4, 0, &[])];
    let b = get_baseline(&snaps);
    assert_eq!(b.swap.total, 0);
    assert_eq!(b.swap.above, 0);
    assert_eq!(b.swap.excess, 0);
    let (r, _) = compare(usage(2, 3, 1, &[]), &b, &config(5, 2));
    assert_eq!(r, PollResult::Exceptional(usage(2, 3, 1, &[]), vec![Resource::Swap]));
}

#[test]
fn end_to_end_warm_up_then_detect() {
    // fractions in thousandths
    let mut mon = Monitor::new(config(1, 3));
    assert_eq!(mon.pause_secs(), 1);
    assert_eq!(mon.on_sample(usage(100, 500, 0, &[])), Step::WarmingUp);
    assert_eq!(mon.on_sample(usage(200, 500, 0, &[])), Step::WarmingUp);
    assert_eq!(mon.on_sample(usage(300, 500, 0, &[])), Step::BaselineReady);
    assert_eq!(mon.pause_secs(), 10);
    let b = mon.baseline.clone().unwrap();
    assert_eq!(mean(&b.cpu), (600, 3));
    assert_eq!(deviation(&b.cpu), (300, 3));
    assert_eq!(mean(&b.mem), (1500, 3));
    assert_eq!(deviation(&b.mem), (0, 1));
    assert_eq!(mean(&b.swap), (0, 3));
    assert_eq!(deviation(&b.swap), (0, 1));
    let step = mon.on_sample(usage(350, 500, 0, &[]));
    assert_eq!(
        step,
        Step::Detected(
            PollResult::Exceptional(usage(350, 500, 0, &[]), vec![Resource::CPU]),
            vec![]
        )
    );
    assert_eq!(mon.warmup.len(), 3);
}

#[test]
fn unknown_sink_name_is_refused() {
    let mut c = config(1, 1);
    c.logger_list = vec!["print".to_string(), "email".to_string(), "x".to_string()];
    match LoggerGroup::new(&c) {
        Err(ConfigError::UnknownSink(n)) => assert_eq!(n, "email"),
        Ok(_) => panic!("accepted an unknown sink"),
    }
}

#[test]
fn print_sinks_are_built_in_order() {
    let mut c = config(1, 1);
    c.logger_list = vec!["print".to_string(), "print".to_string()];
    let g = LoggerGroup::new(&c).ok().unwrap();
    assert_eq!(g.sinks, vec![Sink::Print(PrintLogger::new()); 2]);
    c.logger_list = vec![];
    assert!(LoggerGroup::new(&c).ok().unwrap().sinks.is_empty());
    assert!(sink_named(&"print".to_string()).is_some());
    assert!(sink_named(&"Print".to_string()).is_none());
}

#[test]
fn fractions_in_millionths() {
    assert_eq!(fraction_millionths(1, 4), 250_000);
    assert_eq!(fraction_millionths(2, 3), 666_666);
    assert_eq!(fraction_millionths(4, 4), 1_000_000);
    assert_eq!(fraction_millionths(0, 0), 0);
    assert_eq!(fraction_millionths(5, 0), 0);
    assert_eq!(fraction_millionths(u64::MAX, 1), u32::MAX);
    assert_eq!(fraction_millionths(u64::MAX, u64::MAX), 1_000_000);
}
