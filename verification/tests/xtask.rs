use dex_core::xtask::{
    bench_crate_list, counters_blocked, crates_of, executable_of, has_alloc_proof, has_iai, is_run_file, latency_bench,
    latest_file, missing_tool, mode_of, parse, parse_compare, plan, strip_separator, svg_name, Mode, RunFile, Step,
    Tools,
};

fn words(args: &[&str]) -> Vec<String> {
    args.iter().map(|a| a.to_string()).collect()
}

fn error_of(args: &[&str]) -> String {
    match parse(&words(args)) {
        Ok(_) => panic!("expected an error"),
        Err(e) => e,
    }
}

#[test]
fn no_arguments_mean_latency_everywhere() {
    let opts = parse(&words(&[])).unwrap_or_else(|e| panic!("{e}"));
    assert!(opts.intents.latency);
    assert_eq!(opts.intents.list(), "latency");
    assert_eq!(crates_of(&opts), words(&["arena", "orderbook", "matcher", "ipc"]));
    assert_eq!(plan(&opts, "arena"), vec![Step::Latency]);
}

#[test]
fn intents_are_collected() {
    let opts = parse(&words(&["--crate", "matcher", "--intent", "plots, cache,,alloc", "--flamegraph"]))
        .unwrap_or_else(|e| panic!("{e}"));
    assert!(!opts.intents.latency && opts.flamegraph);
    assert_eq!(opts.intents.list(), "alloc, cache, plots");
    assert_eq!(crates_of(&opts), words(&["matcher"]));
    assert_eq!(plan(&opts, "matcher"), vec![Step::Cache, Step::AllocProof, Step::Plots, Step::Flamegraph]);
    assert_eq!(plan(&opts, "arena"), vec![Step::CacheSkipped, Step::AllocSkipped, Step::Plots, Step::Flamegraph]);
    assert_eq!(
        plan(&opts, "ipc"),
        vec![Step::CacheSkipped, Step::AllocProof, Step::Plots, Step::Flamegraph]
    );
}

#[test]
fn a_flamegraph_alone_measures_no_latency() {
    let opts = parse(&words(&["--intent", "flamegraph", "--all-crates", "--crate", "ipc"]))
        .unwrap_or_else(|e| panic!("{e}"));
    assert_eq!(opts.intents.list(), "");
    assert_eq!(crates_of(&opts).len(), 4);
    assert_eq!(plan(&opts, "ipc"), vec![Step::Flamegraph]);
}

#[test]
fn bad_arguments_are_named() {
    assert_eq!(error_of(&["--crate"]), "--crate needs a value");
    assert_eq!(error_of(&["--intent"]), "--intent needs a value");
    assert_eq!(error_of(&["--crate", "nope"]), "unknown crate `nope`; known: arena, orderbook, matcher, ipc");
    assert_eq!(
        error_of(&["--intent", "latency,speed"]),
        "unknown intent `speed` (latency|cache|alloc|perfstat|plots|flamegraph)"
    );
    assert_eq!(error_of(&["fast"]), "unknown argument `fast` (try --help)");
}

#[test]
fn crates_and_their_targets() {
    assert_eq!(latency_bench("ipc"), Some("self_latency"));
    assert_eq!(latency_bench("arena"), Some("arena_bench"));
    assert_eq!(latency_bench("types"), None);
    assert_eq!(bench_crate_list(), "arena, orderbook, matcher, ipc");
    assert!(has_iai("matcher") && !has_iai("ipc"));
    assert!(has_alloc_proof("matcher") && has_alloc_proof("ipc") && !has_alloc_proof("arena"));
}

#[test]
fn comparison_goes_before_help() {
    assert_eq!(mode_of(&words(&["--help", "--compare", "a", "b"])), Mode::Compare { from: 2 });
    assert_eq!(mode_of(&words(&["--crate", "-h"])), Mode::Help);
    assert_eq!(mode_of(&words(&["--crate", "ipc"])), Mode::Run);
    assert_eq!(strip_separator(words(&["--", "--", "x"])), words(&["--", "x"]));
    assert_eq!(strip_separator(words(&["x", "--"])), words(&["x", "--"]));
}

#[test]
fn comparison_arguments() {
    let args = parse_compare(&words(&["--compare", "a.csv", "--noise", "2.5", "b.csv", "--noise"]), 1);
    assert_eq!(args.paths, words(&["a.csv", "b.csv"]));
    assert_eq!(args.noises, words(&["2.5"]));
    assert!(args.noise_without_value);
    let plain = parse_compare(&words(&["a.csv", "b.csv"]), 0);
    assert!(!plain.noise_without_value && plain.noises.is_empty());
}

#[test]
fn missing_programs_refuse_the_run() {
    let all = parse(&words(&["--intent", "cache,perfstat,plots", "--flamegraph"])).unwrap_or_else(|e| panic!("{e}"));
    let tools = |valgrind, perf, gnuplot| Tools { valgrind, perf, gnuplot };
    assert!(missing_tool(&all, tools(false, false, false)).unwrap().starts_with("cache regime requested"));
    assert_eq!(
        missing_tool(&all, tools(true, false, false)),
        Some("perfstat regime requested but `perf` is not on PATH.")
    );
    assert_eq!(
        missing_tool(&all, tools(true, true, false)),
        Some("plots regime requested but `gnuplot` is not on PATH.")
    );
    assert_eq!(missing_tool(&all, tools(true, true, true)), None);
    let flame = parse(&words(&["--flamegraph"])).unwrap_or_else(|e| panic!("{e}"));
    assert_eq!(
        missing_tool(&flame, tools(false, false, false)),
        Some("--flamegraph requested but `perf` is not on PATH.")
    );
    let plain = parse(&words(&[])).unwrap_or_else(|e| panic!("{e}"));
    assert_eq!(missing_tool(&plain, tools(false, false, false)), None);
}

#[test]
fn the_last_program_counts() {
    let out = "{\"executable\":null}\n{\"a\":1,\"executable\":\"/t/build\",\"b\":2}\n{\"executable\":\"/t/bench\"}\n{\"executable\":\"open\n";
    assert_eq!(executable_of(out), Some("/t/bench".to_string()));
    assert_eq!(executable_of("nothing"), None);
}

#[test]
fn the_latest_run_file_is_found() {
    let file = |name: &str, written| RunFile { name: name.to_string(), written };
    let files = vec![
        file("ipc_1.gnuplot", 50),
        file("matcher_1.gnuplot", 10),
        file("matcher_2.gnuplot", 30),
        file("matcher_3.gnuplot", 30),
        file("matcher_4.csv", 90),
        file("matcher.gnuplot", 99),
    ];
    assert_eq!(latest_file(&files, "matcher", ".gnuplot"), Some(2));
    assert_eq!(latest_file(&files, "arena", ".gnuplot"), None);
    assert!(is_run_file("matcher_1.gnuplot", "matcher", ".gnuplot"));
    assert!(!is_run_file("xmatcher_1.gnuplot", "matcher", ".gnuplot"));
    assert_eq!(svg_name("matcher_1.gnuplot"), "matcher_1.svg");
    assert_eq!(svg_name(".gnuplot.gnuplotx"), ".svg.svgx");
}

#[test]
fn counters_are_blocked_above_two() {
    let text = |s: &str| Some(s.to_string());
    assert_eq!(counters_blocked(&text("3\n")), Some(3));
    assert_eq!(counters_blocked(&text("2\n")), None);
    assert_eq!(counters_blocked(&text("-1\n")), None);
    assert_eq!(counters_blocked(&text("many")), None);
    assert_eq!(counters_blocked(&None), None);
}
