use dex_core::benchkit::artifacts::{gnuplot_script, gp_escape, safe_labels, sanitize};
use dex_core::benchkit::comparison::{match_reports, parse_csv, Metrics};
use dex_core::benchkit::calendar::{civil_from_days, utc_stamp};
use dex_core::benchkit::env::{
    affinity_of, bench_core, commit_of, cpu_model, is_single_core, online_siblings, parse_cpu_list, turbo_of,
    Readings,
};
use dex_core::benchkit::iters::Phase;
use dex_core::benchkit::report::{headline, measured_under, regime_tag, table_row, SampleView, Section};
use dex_core::benchkit::runner::{is_overloaded, Arrival, BackToBack, OpenLoop, Schedule};
use dex_core::benchkit::suite::{interval_for_rate, load_label, suite_report, suite_scope};
use dex_core::benchkit::{
    AllocDelta, ArrivalModel, Delta, Iters, Lcg, MeasurementIntent, Report, RunEnv, RunPaths, RunStats, Sample, Turbo,
};
use dex_core::telemetry::{Figures, Histogram, Nanos};

// ----- run environment ---------------------------------------------------------

fn no_readings() -> Readings {
    Readings {
        cpuinfo: None,
        status: None,
        governor: None,
        no_turbo: None,
        isolated: None,
        tsc_ghz: "2.40".to_string(),
        unix_secs: 1_780_000_000,
        git_head: None,
        dirty: false,
        rustc: "rustc 1.90.0".to_string(),
        rustflags: String::new(),
        profile: "debug".to_string(),
        min_freq: None,
        max_freq: None,
        siblings: Vec::new(),
    }
}

fn some(text: &str) -> Option<String> {
    Some(text.to_string())
}

#[test]
fn single_core_detection() {
    assert!(is_single_core("3"));
    assert!(is_single_core("0"));
    assert!(!is_single_core("0-7"));
    assert!(!is_single_core("1,3"));
    assert!(!is_single_core("?"));
    assert!(!is_single_core(""));
}

#[test]
fn utc_stamp_known_epochs() {
    // 0 = 1970-01-01 00:00:00
    assert_eq!(utc_stamp(0), "1970-01-01_00-00-00");
    // 1_000_000_000 = 2001-09-09 01:46:40 UTC
    assert_eq!(utc_stamp(1_000_000_000), "2001-09-09_01-46-40");
    // 1_780_000_000 = 2026-05-28 20:26:40 UTC
    assert_eq!(utc_stamp(1_780_000_000), "2026-05-28_20-26-40");
}

#[test]
fn civil_dates() {
    assert_eq!(civil_from_days(0), (1970, 1, 1));
    assert_eq!(civil_from_days(-1), (1969, 12, 31));
    assert_eq!(civil_from_days(11_016), (2000, 2, 29));
    assert_eq!(civil_from_days(11_017), (2000, 3, 1));
    assert_eq!(civil_from_days(-719_468), (0, 3, 1));
    // every day is the day after the one before it
    let mut last = civil_from_days(-1_000);
    for days in -999..60_000 {
        let date = civil_from_days(days);
        assert!(date > last);
        last = date;
    }
}

#[test]
fn detect_never_panics_and_fills_fields() {
    let env = RunEnv::detect(no_readings());
    assert!(!env.cpu_model.is_empty());
    assert!(!env.governor.is_empty());
    assert!(!env.isolated.is_empty());
    assert!(env.tsc_ghz.parse::<f64>().unwrap() > 0.0);
    // header renders without panicking and contains the title.
    let h = env.header("test_suite", "unit-test scope");
    assert!(h.contains("test_suite"));
    assert!(h.contains("Hardware:"));
    // the code line renders in both the in-git and off-git shapes.
    assert!(h.contains("- code:"));
    assert!(!env.rustc.is_empty());
    assert_eq!(env.profile, "debug");
    assert!(h.contains("- build:"));
}

#[test]
fn cpu_list_parsing() {
    assert_eq!(parse_cpu_list("2,6"), vec![2, 6]);
    assert_eq!(parse_cpu_list("0-3"), vec![0, 1, 2, 3]);
    assert_eq!(parse_cpu_list("0-1,4"), vec![0, 1, 4]);
    assert_eq!(parse_cpu_list("3"), vec![3]);
    assert_eq!(parse_cpu_list(""), Vec::<u32>::new());
    assert_eq!(parse_cpu_list("junk"), Vec::<u32>::new());
}

#[test]
fn cpu_list_skips_what_it_cannot_read() {
    assert_eq!(parse_cpu_list("1,x,3-2,5-6"), vec![1, 5, 6]);
    assert_eq!(parse_cpu_list(" 2 , 4-5 "), vec![2, 4, 5]);
    assert_eq!(parse_cpu_list("1-"), Vec::<u32>::new());
}

fn prepared_env() -> RunEnv {
    let mut env = RunEnv::detect(no_readings());
    env.affinity = "2".into();
    env.pinned = true;
    env.governor = "performance".into();
    env.bench_core = Some(2);
    env.clock_min_khz = Some(4_700_000);
    env.clock_max_khz = Some(4_700_000);
    env.smt_siblings_online = Vec::new();
    env
}

#[test]
fn warnings_flag_unpinned_clock_and_online_siblings() {
    // Force a clean prep baseline, then break one condition at a time.
    let mut env = prepared_env();
    assert!(env.warnings().is_empty(), "clean prep produces no warnings");

    env.clock_min_khz = Some(1_200_000);
    let w = env.warnings();
    assert_eq!(w.len(), 1);
    assert!(w[0].contains("clock not pinned on cpu2"));
    assert!(w[0].contains("min=1200000 max=4700000"));
    env.clock_min_khz = Some(4_700_000);

    env.smt_siblings_online = vec![6];
    let w = env.warnings();
    assert_eq!(w.len(), 1);
    assert!(w[0].contains("SMT sibling cpu6"));
    assert!(w[0].contains("bench cpu2"));

    // The header stamps the clock policy and surfaces the warning lines.
    let h = env.header("t", "s");
    assert!(h.contains("- clock: cpu2 scaling min=4700000 max=4700000 kHz (pinned ✓)"));
    assert!(h.contains("⚠ SMT sibling cpu6"));
}

#[test]
fn run_id_prefers_commit_and_marks_dirty() {
    let mut env = RunEnv::detect(no_readings());

    env.commit = Some("abc1234".into());
    env.dirty = false;
    assert_eq!(env.run_id(), "abc1234");

    env.dirty = true;
    assert_eq!(env.run_id(), "abc1234-dirty");

    env.commit = None;
    assert_eq!(env.run_id(), env.stamp, "off-git falls back to the timestamp");
}

#[test]
fn readings_become_fields() {
    let mut r = no_readings();
    r.cpuinfo = some("processor\t: 0\nmodel name\t: Example CPU @ 3GHz\nmodel name\t: other\n");
    r.status = some("Name:\tx\nCpus_allowed_list:\t5\n");
    r.governor = some("performance\n");
    r.no_turbo = some("1\n");
    r.isolated = some("2-5\n");
    r.git_head = some("abc1234\n");
    r.dirty = true;
    r.min_freq = some("3000000\n");
    r.max_freq = some("3000000\n");
    r.siblings = vec![(1, some("1\n")), (5, some("1\n")), (9, some("0\n"))];
    let env = RunEnv::detect(r);
    assert_eq!(env.cpu_model, "Example CPU @ 3GHz");
    assert_eq!(env.governor, "performance");
    assert_eq!(env.turbo, Turbo::Off);
    assert_eq!(env.isolated, "2-5");
    assert_eq!(env.affinity, "5");
    assert!(env.pinned);
    assert_eq!(env.bench_core, Some(5));
    assert_eq!((env.clock_min_khz, env.clock_max_khz), (Some(3_000_000), Some(3_000_000)));
    assert_eq!(env.smt_siblings_online, vec![1]);
    assert_eq!(env.run_id(), "abc1234-dirty");
    assert_eq!(env.stamp, "2026-05-28_20-26-40");
}

#[test]
fn missing_readings_have_stand_ins() {
    assert_eq!(cpu_model(&None), cpu_model(&some("nothing here")));
    assert_eq!(affinity_of(&None), "?");
    assert_eq!(turbo_of(&some("0")), Turbo::On);
    assert_eq!(turbo_of(&some("1")), Turbo::Off);
    assert_eq!(turbo_of(&None), Turbo::Unknown);
    assert_eq!(bench_core("7"), Some(7));
    assert_eq!(bench_core("0-7"), None);
    assert_eq!(commit_of(&some("  deadbee\n")), some("deadbee"));
    assert_eq!(commit_of(&some("\n")), None);
    assert_eq!(commit_of(&None), None);
}

#[test]
fn only_other_online_cores_are_siblings() {
    let siblings = vec![(2, some("1")), (6, some("1")), (10, some("0")), (14, None)];
    // a core without an `online` file cannot be taken offline
    let online = online_siblings(2, &siblings);
    assert!(online.contains(&6));
    assert!(!online.contains(&2));
    assert!(!online.contains(&10));
}

// ----- generator ---------------------------------------------------------------

#[test]
fn same_seed_same_sequence() {
    let mut a = Lcg::new(42);
    let mut b = Lcg::new(42);
    for _ in 0..1000 {
        assert_eq!(a.next_u64(), b.next_u64());
    }
}

#[test]
fn different_seed_diverges() {
    let mut a = Lcg::new(1);
    let mut b = Lcg::new(2);
    // Overwhelmingly likely to differ within a few draws.
    let differ = (0..8).any(|_| a.next_u64() != b.next_u64());
    assert!(differ);
}

#[test]
fn below_is_in_range() {
    let mut r = Lcg::new(7);
    for _ in 0..10_000 {
        assert!(r.below(50) < 50);
    }
    assert_eq!(r.below(0), 0);
}

#[test]
fn shuffle_is_a_permutation() {
    let mut v: Vec<u32> = (0..256).collect();
    let original: Vec<u32> = v.clone();
    Lcg::new(0xCAFE_F00D).shuffle(&mut v);
    // Same multiset (nothing lost/duplicated)…
    let mut sorted = v.clone();
    sorted.sort_unstable();
    assert_eq!(sorted, original);
    // …and actually reordered (vanishingly unlikely to be identity at n=256).
    assert_ne!(v, original);
}

#[test]
fn shuffle_is_deterministic() {
    let mut v1: Vec<u32> = (0..100).collect();
    let mut v2: Vec<u32> = (0..100).collect();
    Lcg::new(99).shuffle(&mut v1);
    Lcg::new(99).shuffle(&mut v2);
    assert_eq!(v1, v2);
}

#[test]
fn a_generator_can_be_resumed() {
    let mut whole = Lcg::new(42);
    let mut drawn = Vec::new();
    for _ in 0..20 {
        drawn.push(whole.next_u64());
    }
    // what is drawn is the state itself
    let mut rest = Lcg::new(drawn[4]);
    for n in &drawn[5..] {
        assert_eq!(rest.next_u64(), *n);
    }
}

#[test]
fn shuffle_looks_at_no_item() {
    let mut places: Vec<u32> = (0..50).collect();
    let mut words: Vec<String> = (0..50).map(|n| format!("w{n}")).collect();
    Lcg::new(5).shuffle(&mut places);
    Lcg::new(5).shuffle(&mut words);
    for (place, word) in places.iter().zip(&words) {
        assert_eq!(*word, format!("w{place}"));
    }
}

#[test]
fn generator_constants() {
    assert_eq!(Lcg::new(0).next_u64(), 1442695040888963407);
    assert_eq!(Lcg::new(1).next_u64(), 7806831264735756412);
    let mut copy = Lcg::new(3);
    let mut again = copy.clone();
    assert_eq!(copy.below(1000), again.below(1000));
}

// ----- counters ------------------------------------------------------------------

#[test]
fn delta_subtracts_fieldwise() {
    let a = RunStats { ctx_voluntary: 10, ctx_involuntary: 5, minor_faults: 100, major_faults: 1, migrations: Some(3) };
    let b = RunStats { ctx_voluntary: 4, ctx_involuntary: 5, minor_faults: 40, major_faults: 1, migrations: Some(1) };
    let d = a.delta_from(&b);
    assert_eq!(d.ctx_voluntary, 6);
    assert_eq!(d.ctx_involuntary, 0);
    assert_eq!(d.minor_faults, 60);
    assert_eq!(d.major_faults, 0);
    assert_eq!(d.migrations, Some(2));
}

#[test]
fn delta_saturates_on_decrease() {
    // A counter that appears to go backwards yields 0, never wraps.
    let a = RunStats { ctx_voluntary: 1, ..Default::default() };
    let b = RunStats { ctx_voluntary: 9, ..Default::default() };
    assert_eq!(a.delta_from(&b).ctx_voluntary, 0);
}

#[test]
fn migrations_none_if_either_side_none() {
    let a = RunStats { migrations: Some(5), ..Default::default() };
    let b = RunStats { migrations: None, ..Default::default() };
    assert_eq!(a.delta_from(&b).migrations, None);
}

#[test]
fn deltas_add_up() {
    let at = |n| RunStats { ctx_voluntary: n, minor_faults: 3 * n, ..Default::default() };
    let whole = at(9).delta_from(&at(2));
    let parts = (at(9).delta_from(&at(5)), at(5).delta_from(&at(2)));
    assert_eq!(whole.ctx_voluntary, parts.0.ctx_voluntary + parts.1.ctx_voluntary);
    assert_eq!(whole.minor_faults, parts.0.minor_faults + parts.1.minor_faults);
}

#[test]
fn allocations_between_readings() {
    let d = AllocDelta::between(10, 1_000, 13, 1_096);
    assert_eq!(d, AllocDelta { blocks: 3, bytes: 96 });
    assert!(!d.is_zero());
    assert!(AllocDelta::between(7, 70, 7, 70).is_zero());
}

// ----- phases and schedules --------------------------------------------------------

fn run_back_to_back(label: &str, iters: Iters, took: u64) -> (Sample, Vec<(usize, Phase)>) {
    let mut run = BackToBack::new(label, iters);
    let mut steps = Vec::new();
    while let Some(step) = run.next() {
        steps.push(step);
        run.ran(Nanos(took));
    }
    (run.finish(&RunStats::default(), &RunStats { minor_faults: 4, ..Default::default() }), steps)
}

#[test]
fn records_exactly_measure_samples() {
    let iters = Iters::new(100, 1_000);
    let (sample, _) = run_back_to_back("noop", iters, 1);
    assert_eq!(sample.hist.len(), 1_000, "only the measure phase is recorded");
    assert_eq!(sample.hist.label(), "noop");
    assert_eq!(sample.stats.minor_faults, 4);
}

#[test]
fn arrival_model_is_back_to_back() {
    let (sample, _) = run_back_to_back("noop", Iters::new(10, 100), 0);
    assert_eq!(sample.arrival_model, ArrivalModel::BackToBack);
    assert!(!sample.overloaded);
}

#[test]
fn prepare_index_advances() {
    let iters = Iters::new(5, 10);
    let (_, steps) = run_back_to_back("idx", iters, 1);
    assert_eq!(steps.len(), iters.total());
    assert_eq!(steps.last().unwrap().0, iters.total() - 1, "i runs 0..total-1");
    assert_eq!(steps[4], (4, Phase::Warmup));
    assert_eq!(steps[5], (5, Phase::FirstMeasured));
    assert!(steps[6..].iter().all(|s| s.1 == Phase::Measured));
}

#[test]
fn prepare_runs_total_times_op_runs_total_times() {
    let iters = Iters::new(50, 200);
    // State counts prepare and op invocations separately.
    let mut state = (0usize, 0usize);
    let mut run = BackToBack::new("count", iters);
    while let Some((i, _)) = run.next() {
        assert_eq!(i, state.0);
        state.0 += 1;
        let took = 7u64;
        state.1 += 1;
        run.ran(Nanos(took));
    }
    let sample = run.finish(&RunStats::default(), &RunStats::default());
    assert_eq!(state.0, iters.total(), "prepare runs every iteration");
    assert_eq!(state.1, iters.total(), "op runs every iteration");
    assert_eq!(sample.hist.len(), iters.measure as u64);
}

/// Run `measure` operations that take `took` on a clock of one tick a nanosecond.
fn run_open_loop(label: &str, measure: u64, interval_ns: u64, took: u64) -> Sample {
    let mut clock = 1_000;
    let mut run = OpenLoop::new(label, Nanos(interval_ns), clock, interval_ns);
    for _ in 0..measure {
        if let Arrival::WaitUntil { deadline } = run.arrive(clock) {
            clock = deadline;
        }
        clock += took;
        run.ran(Nanos(took));
    }
    run.finish(measure, &RunStats::default(), &RunStats::default())
}

#[test]
fn open_loop_tags_arrival_model_and_interval() {
    let s = run_open_loop("ol", 1_000, 500, 20);
    assert_eq!(s.arrival_model, ArrivalModel::OpenLoop { interval_ns: 500 });
    // no back-fill when nothing overruns
    assert_eq!(s.hist.len(), 1_000);
    assert!(!s.overloaded);
}

#[test]
fn open_loop_overload_is_flagged() {
    // Schedule an op every 1ns but make it take far longer — impossible to
    // keep, so the run must flag itself overloaded rather than lie.
    let s = run_open_loop("saturated", 5_000, 1, 50);
    assert!(s.overloaded, "a 1ns schedule with a multi-ns op must flag overload");
    assert_eq!(s.hist.len(), 5_000 * 50);
}

#[test]
fn preset_iteration_counts() {
    assert_eq!((Iters::standard().warmup, Iters::standard().measure), (100_000, 1_000_000));
    assert_eq!((Iters::light().warmup, Iters::light().measure), (50_000, 500_000));
}

#[test]
fn late_operations_move_no_deadline() {
    let mut s = Schedule::new(1_000, 50);
    assert_eq!(s.arrive(990), Arrival::WaitUntil { deadline: 1_000 });
    assert_eq!(s.arrive(1_010), Arrival::WaitUntil { deadline: 1_050 });
    // a stall of many intervals
    assert_eq!(s.arrive(1_300), Arrival::Late);
    assert_eq!(s.arrive(1_300), Arrival::Late);
    assert_eq!(s.arrive(1_200), Arrival::Late);
    assert_eq!(s.arrive(1_249), Arrival::WaitUntil { deadline: 1_250 });
    assert_eq!((s.late_ops, s.next), (3, 6));
}

#[test]
fn overload_starts_at_five_percent() {
    assert!(!is_overloaded(49, 1_000));
    assert!(is_overloaded(50, 1_000));
    assert!(is_overloaded(0, 0));
}

/// An op that is fast most of the time but stalls hard every 200th time.
fn stally(i: &mut u64) -> u64 {
    *i += 1;
    if *i % 200 == 0 {
        2_000
    } else {
        2
    }
}

#[test]
fn open_loop_tail_reflects_coordinated_omission() {
    let iters = Iters::new(2_000, 40_000);

    // Back-to-back: the stall is recorded as just a few slow samples.
    let mut i = 0;
    let mut run = BackToBack::new("stall_b2b", iters);
    while run.next().is_some() {
        run.ran(Nanos(stally(&mut i)));
    }
    let b2b = run.finish(&RunStats::default(), &RunStats::default());
    assert_eq!(b2b.arrival_model, ArrivalModel::BackToBack);

    // Open-loop every 200 ns: when the stall hits, it blows past many scheduled
    // slots, which are back-filled.
    let mut i = 0;
    for _ in 0..iters.warmup {
        stally(&mut i);
    }
    let mut clock = 1_000;
    let mut run = OpenLoop::new("stall_ol", Nanos(200), clock, 200);
    for _ in 0..iters.measure {
        if let Arrival::WaitUntil { deadline } = run.arrive(clock) {
            clock = clock.max(deadline);
        }
        let took = stally(&mut i);
        clock += took;
        run.ran(Nanos(took));
    }
    let ol = run.finish(iters.measure as u64, &RunStats::default(), &RunStats::default());
    assert!(matches!(ol.arrival_model, ArrivalModel::OpenLoop { .. }));

    // 1. Back-fill synthesizes extra samples for the slots a stall blew past.
    assert!(
        ol.hist.len() > b2b.hist.len(),
        "open-loop must back-fill missed slots: open-loop len {} vs back-to-back len {}",
        ol.hist.len(),
        b2b.hist.len()
    );
    assert_eq!((b2b.hist.len(), ol.hist.len()), (40_000, 40_000 + 200 * 9));

    // 2. Those synthetic samples are all in the elevated range, so the mean rises.
    let (ol_mean, b2b_mean) = (ol.hist.inner.inner.mean(), b2b.hist.inner.inner.mean());
    assert!(
        ol_mean > b2b_mean,
        "CO back-fill must raise the mean: open-loop mean {:.0}ns vs back-to-back mean {:.0}ns",
        ol_mean,
        b2b_mean
    );
}

#[test]
fn a_kept_rate_is_not_overload() {
    // the clock moves on between the start and the first arrival
    let mut clock = 1_000;
    let mut run = OpenLoop::new("slow", Nanos(1_000_000_000), clock, 1_000_000_000);
    clock += 30;
    for _ in 0..10 {
        if let Arrival::WaitUntil { deadline } = run.arrive(clock) {
            clock = clock.max(deadline);
        }
        clock += 5;
        run.ran(Nanos(5));
    }
    assert_eq!(run.schedule.late_ops, 0);
    let s = run.finish(10, &RunStats::default(), &RunStats::default());
    assert!(!s.overloaded);
    assert_eq!(s.hist.len(), 10);
}

#[test]
fn the_first_operation_is_never_late() {
    let mut s = Schedule::new(1_000, 50);
    assert_eq!(s.arrive(1_049), Arrival::WaitUntil { deadline: 1_000 });
    assert_eq!(s.arrive(1_050), Arrival::Late);
    assert_eq!((s.late_ops, s.next), (1, 2));
}

// ----- suites ---------------------------------------------------------------------

#[test]
fn intent_builder_composes() {
    let i = MeasurementIntent::latency().with_load().with_allocations();
    assert!(i.latency && i.latency_under_load && i.allocations);
    assert!(!i.cache_and_instructions);
}

#[test]
fn intent_defaults_to_latency() {
    assert_eq!(MeasurementIntent::default(), MeasurementIntent::latency());
    assert!(MeasurementIntent::default().notes().is_empty());
    let both = MeasurementIntent::latency().with_allocations().with_cache();
    assert_eq!(both.notes().len(), 2);
    assert!(both.notes()[0].contains("allocation regime"));
    assert!(both.notes()[1].contains("callgrind"));
    assert!(both.notes().iter().all(|n| n.starts_with("note: ")));
}

#[test]
fn at_rate_sets_interval() {
    assert_eq!(interval_for_rate(1_000, 1_000_000), 1_000); // 1M ops/s → 1000ns interval
    assert_eq!(interval_for_rate(1_000, 2_000_000), 500);
    assert_eq!(interval_for_rate(1_000, 0), 1_000);
}

#[test]
fn suite_report_has_a_section_per_pass() {
    let env = RunEnv::detect(no_readings());
    let iters = Iters::new(100, 1_000);
    let report = suite_report(
        env,
        "test_suite",
        iters,
        vec![view("inc", &[5], ArrivalModel::BackToBack)],
        vec![view("inc@load", &[5], ArrivalModel::OpenLoop { interval_ns: 500 })],
    );
    assert_eq!(report.sections.len(), 2);
    assert_eq!(report.sections[0].title, "Latency (back-to-back)");
    assert_eq!(report.sections[1].title, "Latency under load (open-loop, CO-corrected)");
    assert_eq!(report.scope, suite_scope(1, iters));
    assert_eq!(
        report.scope,
        "engine-internal `op()` latency; 1 scenario(s). rdtscp-fenced, warmup 100 / measure 1000."
    );
    assert_eq!(load_label("inc"), "inc@load");
}

// ----- reports ----------------------------------------------------------------------

fn sample(label: &str, values: &[u64], model: ArrivalModel) -> Sample {
    let mut hist = Histogram::new(label);
    for v in values {
        hist.record(Nanos(*v));
    }
    Sample { hist, arrival_model: model, stats: RunStats::default(), overloaded: false }
}

fn view_of(s: &Sample) -> SampleView {
    let inner = &s.hist.inner.inner;
    let p50 = inner.value_at_percentile(50.0);
    let p99_99 = inner.value_at_percentile(99.99);
    let rate = if s.hist.len() == 0 { 0.0 } else { 1e9 / inner.mean() };
    SampleView {
        figures: Figures {
            label: s.hist.label().to_string(),
            count: s.hist.len(),
            min: s.hist.min().as_u64(),
            p50,
            p99: inner.value_at_percentile(99.0),
            p99_99,
            max: s.hist.max().as_u64(),
            throughput_text: format!("{:.0}", rate),
        },
        count_text: format!("{}", s.hist.len()),
        tail_text: format!("{:.0}", if p50 > 0 { p99_99 as f64 / p50 as f64 } else { 0.0 }),
        rate_text: format!("{:.2}", rate / 1e6),
        arrival_model: s.arrival_model(),
        stats: s.stats,
        overloaded: s.overloaded,
    }
}

fn view(label: &str, values: &[u64], model: ArrivalModel) -> SampleView {
    view_of(&sample(label, values, model))
}

#[test]
fn noise_counters_render_in_markdown_and_csv() {
    let env = RunEnv::detect(no_readings());
    let mut noisy = sample("noisy", &[100], ArrivalModel::BackToBack);
    noisy.stats = RunStats { ctx_involuntary: 7, major_faults: 3, ..Default::default() };
    let mut report = Report::new(env, "t", "scope");
    report.section("S", vec![view_of(&noisy)]);

    let md = report.to_markdown();
    assert!(md.contains("| inv-cs | maj-flt |"), "table gains the noise columns");
    assert!(md.contains("| 7 | 3 |"), "the scenario's own counters render");

    let csv = report.to_csv();
    let row = csv.lines().nth(1).unwrap();
    assert_eq!(row.split(',').count(), 13, "regime + 8 hist fields + 4 rusage");
    assert!(row.ends_with(",0,7,0,3"), "rusage appended in vol,invol,minor,major order");
}

#[test]
fn report_sections_deltas_and_rows() {
    let env = RunEnv::detect(no_readings());
    let light = view("light", &[10, 10, 10], ArrivalModel::BackToBack);
    let heavy = view("heavy", &[250, 250, 250], ArrivalModel::BackToBack);
    let mut report = Report::new(env, "smoke_suite", "unit-test scope: synthetic ops");
    report
        .delta("heavy - light", &heavy, &light, Delta::Sub, "heavy p50 minus light p50")
        .delta("per level", &light, &heavy, Delta::SubPerN(7), "towards zero")
        .section("Ops", vec![light, heavy]);

    let md = report.to_markdown();
    assert!(md.contains("smoke_suite"));
    assert!(md.contains("measured under: back-to-back"));
    assert!(md.contains("| light |"));
    assert!(md.contains("Headline deltas"));
    assert!(md.contains("| heavy - light | 240 | heavy p50 minus light p50 |"));
    assert!(md.contains("| per level | -34 | towards zero |"));

    // CSV: header + 2 data rows, regime column present.
    let csv = report.to_csv();
    let lines: Vec<&str> = csv.lines().collect();
    assert!(lines[0].starts_with("regime,"));
    assert!(lines[0].contains(Histogram::csv_header()));
    assert_eq!(lines.iter().filter(|l| l.starts_with("back_to_back,")).count(), 2);
    assert_eq!(lines[1], "back_to_back,light,3,10,10,10,10,10,100000000,0,0,0,0");
}

#[test]
fn written_rows_are_read_back() {
    let open = ArrivalModel::OpenLoop { interval_ns: 500 };
    let mut report = Report::new(RunEnv::detect(no_readings()), "t", "scope");
    report.section("A", vec![view("cross", &[100, 200], ArrivalModel::BackToBack), view("rest", &[7], open)]);
    report.section("B", vec![view("cross", &[300], open), view("rest", &[9], open)]);
    let csv = report.to_csv();
    let rows = parse_csv(&csv);
    let read = |label: &str, regime: &str| {
        rows.iter().find(|r| r.label == label && r.regime == regime).map(|r| r.metrics)
    };
    assert_eq!(rows.len(), 3);
    assert_eq!(read("cross", "back_to_back"), Some(Metrics { p50: 100, p99: 200, p99_99: 200 }));
    assert_eq!(read("cross", "open_loop"), Some(Metrics { p50: 300, p99: 300, p99_99: 300 }));
    // of two rows with one key the later one counts
    assert_eq!(read("rest", "open_loop"), Some(Metrics { p50: 9, p99: 9, p99_99: 9 }));
    // a run compared with itself
    for row in match_reports(&csv, &csv) {
        assert!(row.base.is_some());
        assert_eq!(row.base, row.cur);
    }
}

#[test]
fn headline_numbers_round_towards_zero() {
    assert_eq!(headline(10, 25, Delta::Sub), -15);
    assert_eq!(headline(25, 10, Delta::SubPerN(4)), 3);
    assert_eq!(headline(10, 25, Delta::SubPerN(4)), -3);
    assert_eq!(headline(10, 25, Delta::SubPerN(0)), 0);
    assert_eq!(headline(10, 25, Delta::SubPerN(u64::MAX)), 0);
}

#[test]
fn table_row_lists_the_figures() {
    let row = table_row(&view("cross", &[100, 100], ArrivalModel::BackToBack));
    assert_eq!(row, "| cross | 2 | 100 | 100 | 100 | 100 | 1× | 10.00M | 0 | 0 |");
}

#[test]
fn sections_say_how_they_were_measured() {
    let open = ArrivalModel::OpenLoop { interval_ns: 500 };
    let section = |samples| Section { title: "S".to_string(), samples };
    assert_eq!(measured_under(&section(vec![])), "no samples");
    assert_eq!(
        measured_under(&section(vec![view("a", &[1], ArrivalModel::BackToBack)])),
        "measured under: back-to-back (service time)"
    );
    assert_eq!(
        measured_under(&section(vec![view("a", &[1], open)])),
        "measured under: open-loop @ 500ns interval (CO-corrected latency under load)"
    );
    let mut late = view("b", &[1], open);
    late.overloaded = true;
    let stamp = measured_under(&section(vec![view("a", &[1], ArrivalModel::BackToBack), late]));
    assert!(stamp.contains("⚠ MIXED arrival models"));
    assert!(stamp.ends_with("⚠ OVERLOADED (target rate unachievable)"));
    assert_eq!((regime_tag(open), regime_tag(ArrivalModel::BackToBack)), ("open_loop", "back_to_back"));
}

// ----- artifacts ---------------------------------------------------------------------

#[test]
fn file_labels_are_safe() {
    assert_eq!(sanitize("cross@load 1/2"), "cross_load_1_2");
    assert_eq!(sanitize("größe"), "größe");
}

#[test]
fn quotes_and_backslashes_are_escaped() {
    assert_eq!(gp_escape("a\\b\"c'd"), "a\\\\b\\\"cd");
}

#[test]
fn plot_script_reads_every_scenario() {
    let sections = vec![Section {
        title: "Ops".to_string(),
        samples: vec![
            view("light", &[1], ArrivalModel::BackToBack),
            view("heavy", &[2], ArrivalModel::BackToBack),
        ],
    }];
    let labels = safe_labels(&sections);
    assert_eq!(labels, vec!["light", "heavy"]);
    let paths = RunPaths::named("smoke_suite", "abc1234");
    assert_eq!(paths.markdown, "smoke_suite_abc1234.md");
    assert_eq!(paths.csv, "smoke_suite_abc1234.csv");
    assert_eq!(paths.gnuplot, "smoke_suite_abc1234.gnuplot");
    let gp = gnuplot_script("smoke_suite", &paths.hdr_dir, &paths.svg, &labels);
    assert!(gp.contains("set output 'smoke_suite_abc1234.svg'"), "script outputs the run's SVG");
    assert!(gp.contains("smoke_suite_abc1234_hdr/light.hdr"), "script plots each scenario hdr");
    assert!(gp.contains("smoke_suite_abc1234_hdr/heavy.hdr"));
    assert!(gp.contains("using 4:1"), "plots latency (col1) vs 1/(1-percentile) (col4)");
    assert!(!gp.contains('%'), "tic labels must not contain % (gnuplot format char)");
    assert!(gnuplot_script("t", "d", "s", &Vec::new()).ends_with("  NaN notitle\n"));
}
