//! The decisions of the benchmark runner: which passes to run on which crates,
//! and what its arguments and the output of other programs mean.
use crate::text;
use crate::text::{
    chars_of, find_char, has_at, is_word, lines, parse_number, piece, push_char, push_str, reads,
    split, string_of, trim,
};
use vstd::prelude::*;

verus! {

/// The benchmark target of a crate's latency suite, for the crates that have one.
pub open spec fn bench_target(krate: Seq<char>) -> Option<Seq<char>> {
    if krate == "arena"@ {
        Some("arena_bench"@)
    } else if krate == "orderbook"@ {
        Some("orderbook_bench"@)
    } else if krate == "matcher"@ {
        Some("matcher_bench"@)
    } else if krate == "ipc"@ {
        Some("self_latency"@)
    } else {
        None
    }
}

/// The benchmark target of a crate's latency suite.
pub fn latency_bench(krate: &str) -> (r: Option<&'static str>)
    ensures
        match r {
            Some(b) => bench_target(krate@) == Some(b@),
            None => bench_target(krate@) is None,
        },
{
    let k = chars_of(krate);
    if reads(&k, "arena") {
        Some("arena_bench")
    } else if reads(&k, "orderbook") {
        Some("orderbook_bench")
    } else if reads(&k, "matcher") {
        Some("matcher_bench")
    } else if reads(&k, "ipc") {
        Some("self_latency")
    } else {
        None
    }
}

/// The crates that have a latency suite, as text.
pub fn bench_crate_list() -> (r: &'static str)
    ensures
        r@ == "arena, orderbook, matcher, ipc"@,
{
    "arena, orderbook, matcher, ipc"
}

/// The crates that have a latency suite.
pub open spec fn all_crates() -> Seq<Seq<char>> {
    seq!["arena"@, "orderbook"@, "matcher"@, "ipc"@]
}

/// Whether a crate has a target for cache and instruction counts.
pub fn has_iai(krate: &str) -> (r: bool)
    ensures
        r == (krate@ == "matcher"@),
{
    reads(&chars_of(krate), "matcher")
}

/// Whether a crate has an allocation proof.
pub fn has_alloc_proof(krate: &str) -> (r: bool)
    ensures
        r == (krate@ == "matcher"@ || krate@ == "ipc"@),
{
    let k = chars_of(krate);
    reads(&k, "matcher") || reads(&k, "ipc")
}

/// The measurements that can be asked for by name.
#[derive(Copy, Clone, Debug, PartialEq, Eq, Structural)]
pub struct Intents {
    pub alloc_proof: bool,
    pub cache: bool,
    pub latency: bool,
    pub perfstat: bool,
    pub plots: bool,
}

impl Intents {
    #[verifier::allow_in_spec]
    pub fn none() -> Intents
        returns
            (Intents {
                alloc_proof: false,
                cache: false,
                latency: false,
                perfstat: false,
                plots: false,
            }),
    {
        Intents { alloc_proof: false, cache: false, latency: false, perfstat: false, plots: false }
    }

    /// Nothing is asked for.
    pub open spec fn empty(self) -> bool {
        self == Intents::none()
    }

    /// The names of what is asked for, in alphabetical order.
    pub fn list(&self) -> (r: String)
        ensures
            r@ == text_list(intent_names(*self)),
    {
        let mut names: Vec<&'static str> = Vec::new();
        if self.alloc_proof {
            names.push("alloc");
        }
        if self.cache {
            names.push("cache");
        }
        if self.latency {
            names.push("latency");
        }
        if self.perfstat {
            names.push("perfstat");
        }
        if self.plots {
            names.push("plots");
        }
        let ghost words = names@.map_values(|n: &'static str| n@);
        assert(words =~= intent_names(*self));
        let mut out = String::new();
        let mut i: usize = 0;
        while i < names.len()
            invariant
                i <= names.len(),
                words == names@.map_values(|n: &'static str| n@),
                out@ == text_list(words.take(i as int)),
            decreases names.len() - i,
        {
            if i > 0 {
                push_str(&mut out, ", ");
            }
            push_str(&mut out, names[i]);
            i = i + 1;
            proof {
                assert(words.take(i as int).drop_last() =~= words.take(i - 1));
                if i == 1 {
                    assert(out@ =~= words[0]);
                }
            }
        }
        assert(words.take(i as int) =~= words);
        out
    }
}

/// One entry if `on`, else none.
pub open spec fn named(on: bool, name: Seq<char>) -> Seq<Seq<char>> {
    if on {
        seq![name]
    } else {
        Seq::empty()
    }
}

pub open spec fn intent_names(i: Intents) -> Seq<Seq<char>> {
    named(i.alloc_proof, "alloc"@) + named(i.cache, "cache"@) + named(i.latency, "latency"@)
        + named(i.perfstat, "perfstat"@) + named(i.plots, "plots"@)
}

/// Entries separated by commas.
pub open spec fn text_list(entries: Seq<Seq<char>>) -> Seq<char>
    decreases entries.len(),
{
    if entries.len() == 0 {
        Seq::empty()
    } else if entries.len() == 1 {
        entries[0]
    } else {
        text_list(entries.drop_last()) + ", "@ + entries.last()
    }
}

/// What the arguments ask for.
pub struct Opts {
    pub krate: Option<String>,
    pub all_crates: bool,
    pub intents: Intents,
    pub flamegraph: bool,
}

/// The abstract form of [`Opts`].
#[verifier::ext_equal]
pub struct OptsModel {
    pub krate: Option<Seq<char>>,
    pub all_crates: bool,
    pub intents: Intents,
    pub flamegraph: bool,
}

impl View for Opts {
    type V = OptsModel;

    open spec fn view(&self) -> OptsModel {
        OptsModel {
            krate: match self.krate {
                Some(k) => Some(k@),
                None => None,
            },
            all_crates: self.all_crates,
            intents: self.intents,
            flamegraph: self.flamegraph,
        }
    }
}

/// What one part of an intent list adds; an error text if it names no intent.
pub open spec fn with_intent(o: OptsModel, part: Seq<char>) -> Result<OptsModel, Seq<char>> {
    let p = text::trimmed(part);
    if p == "latency"@ {
        Ok(OptsModel { intents: Intents { latency: true, ..o.intents }, ..o })
    } else if p == "cache"@ {
        Ok(OptsModel { intents: Intents { cache: true, ..o.intents }, ..o })
    } else if p == "alloc"@ {
        Ok(OptsModel { intents: Intents { alloc_proof: true, ..o.intents }, ..o })
    } else if p == "perfstat"@ {
        Ok(OptsModel { intents: Intents { perfstat: true, ..o.intents }, ..o })
    } else if p == "plots"@ {
        Ok(OptsModel { intents: Intents { plots: true, ..o.intents }, ..o })
    } else if p == "flamegraph"@ {
        Ok(OptsModel { flamegraph: true, ..o })
    } else if p.len() == 0 {
        Ok(o)
    } else {
        Err("unknown intent `"@ + p + "` (latency|cache|alloc|perfstat|plots|flamegraph)"@)
    }
}

/// What an intent list adds; the first part that names no intent is an error.
pub open spec fn with_intents(o: OptsModel, parts: Seq<Seq<char>>) -> Result<OptsModel, Seq<char>>
    decreases parts.len(),
{
    if parts.len() == 0 {
        Ok(o)
    } else {
        match with_intent(o, parts[0]) {
            Ok(next) => with_intents(next, parts.skip(1)),
            Err(e) => Err(e),
        }
    }
}

/// What the arguments from `i` on add to `o`.
pub open spec fn options_from(args: Seq<Seq<char>>, i: int, o: OptsModel) -> Result<
    OptsModel,
    Seq<char>,
>
    decreases args.len() - i,
{
    if i < 0 || i >= args.len() {
        Ok(o)
    } else if args[i] == "--crate"@ {
        if i + 1 >= args.len() {
            Err("--crate needs a value"@)
        } else if bench_target(args[i + 1]) is None {
            Err(
                "unknown crate `"@ + args[i + 1] + "`; known: "@ + "arena, orderbook, matcher, ipc"@,
            )
        } else {
            options_from(args, i + 2, OptsModel { krate: Some(args[i + 1]), ..o })
        }
    } else if args[i] == "--all-crates"@ {
        options_from(args, i + 1, OptsModel { all_crates: true, ..o })
    } else if args[i] == "--intent"@ {
        if i + 1 >= args.len() {
            Err("--intent needs a value"@)
        } else {
            match with_intents(o, text::split_on(args[i + 1], ',')) {
                Ok(next) => options_from(args, i + 2, next),
                Err(e) => Err(e),
            }
        }
    } else if args[i] == "--flamegraph"@ {
        options_from(args, i + 1, OptsModel { flamegraph: true, ..o })
    } else {
        Err("unknown argument `"@ + args[i] + "` (try --help)"@)
    }
}

/// What the arguments ask for. Latency is asked for where nothing else is.
pub open spec fn options(args: Seq<Seq<char>>) -> Result<OptsModel, Seq<char>> {
    let start = OptsModel {
        krate: None,
        all_crates: false,
        intents: Intents::none(),
        flamegraph: false,
    };
    match options_from(args, 0, start) {
        Ok(o) => if o.intents.empty() && !o.flamegraph {
            Ok(OptsModel { intents: Intents { latency: true, ..o.intents }, ..o })
        } else {
            Ok(o)
        },
        Err(e) => Err(e),
    }
}

/// `r` is the executable form of `m`.
pub open spec fn agrees(r: Result<Opts, String>, m: Result<OptsModel, Seq<char>>) -> bool {
    match r {
        Ok(o) => m == Ok::<OptsModel, Seq<char>>(o@),
        Err(e) => m == Err::<OptsModel, Seq<char>>(e@),
    }
}

/// Add one part of an intent list.
fn add_intent(start: Opts, part: &Vec<char>) -> (r: Result<Opts, String>)
    ensures
        agrees(r, with_intent(start@, part@)),
{
    let mut o = start;
    let p = trim(part);
    if reads(&p, "latency") {
        o.intents.latency = true;
    } else if reads(&p, "cache") {
        o.intents.cache = true;
    } else if reads(&p, "alloc") {
        o.intents.alloc_proof = true;
    } else if reads(&p, "perfstat") {
        o.intents.perfstat = true;
    } else if reads(&p, "plots") {
        o.intents.plots = true;
    } else if reads(&p, "flamegraph") {
        o.flamegraph = true;
    } else if p.len() > 0 {
        let mut e = "unknown intent `".to_string();
        let shown = string_of(&p, 0, p.len());
        assert(shown@ =~= p@);
        push_str(&mut e, shown.as_str());
        push_str(&mut e, "` (latency|cache|alloc|perfstat|plots|flamegraph)");
        return Err(e);
    }
    Ok(o)
}

/// Add an intent list.
fn add_intents(start: Opts, list: &String) -> (r: Result<Opts, String>)
    ensures
        agrees(r, with_intents(start@, text::split_on(list@, ','))),
{
    let ghost first = start@;
    let mut o = start;
    let parts = split(&chars_of(list.as_str()), ',');
    let ghost all = text::texts(parts@);
    let mut i: usize = 0;
    assert(all.skip(0) =~= all);
    while i < parts.len()
        invariant
            i <= parts.len(),
            all == text::texts(parts@),
            all == text::split_on(list@, ','),
            first == start@,
            with_intents(first, all) == with_intents(o@, all.skip(i as int)),
        decreases parts.len() - i,
    {
        assert(all.skip(i as int)[0] == parts[i as int]@);
        assert(all.skip(i as int).skip(1) =~= all.skip(i + 1));
        match add_intent(o, &parts[i]) {
            Ok(next) => {
                o = next;
            },
            Err(e) => {
                return Err(e);
            },
        }
        i = i + 1;
    }
    Ok(o)
}

/// Read the arguments of a benchmark run.
pub fn parse(args: &Vec<String>) -> (r: Result<Opts, String>)
    ensures
        agrees(r, options(text::strings(args@))),
{
    let ghost words = text::strings(args@);
    let mut o = Opts { krate: None, all_crates: false, intents: Intents::none(), flamegraph: false };
    let ghost whole = options_from(words, 0, o@);
    let mut i: usize = 0;
    while i < args.len()
        invariant
            words == text::strings(args@),
            whole == options_from(words, i as int, o@),
            i <= args.len(),
            options(words) == match whole {
                Ok(o) => if o.intents.empty() && !o.flamegraph {
                    Ok(OptsModel { intents: Intents { latency: true, ..o.intents }, ..o })
                } else {
                    Ok(o)
                },
                Err(e) => Err(e),
            },
        decreases args.len() - i,
    {
        let arg = chars_of(args[i].as_str());
        assert(words[i as int] == arg@);
        if reads(&arg, "--crate") {
            if i + 1 >= args.len() {
                return Err("--crate needs a value".to_string());
            }
            assert(words[i + 1] == args[i + 1]@);
            if latency_bench(args[i + 1].as_str()).is_none() {
                let mut e = "unknown crate `".to_string();
                push_str(&mut e, args[i + 1].as_str());
                push_str(&mut e, "`; known: ");
                push_str(&mut e, bench_crate_list());
                return Err(e);
            }
            o.krate = Some(args[i + 1].clone());
            i = i + 2;
        } else if reads(&arg, "--all-crates") {
            o.all_crates = true;
            i = i + 1;
        } else if reads(&arg, "--intent") {
            if i + 1 >= args.len() {
                return Err("--intent needs a value".to_string());
            }
            assert(words[i + 1] == args[i + 1]@);
            match add_intents(o, &args[i + 1]) {
                Ok(next) => {
                    o = next;
                },
                Err(e) => {
                    return Err(e);
                },
            }
            i = i + 2;
        } else if reads(&arg, "--flamegraph") {
            o.flamegraph = true;
            i = i + 1;
        } else {
            let mut e = "unknown argument `".to_string();
            push_str(&mut e, args[i].as_str());
            push_str(&mut e, "` (try --help)");
            return Err(e);
        }
    }
    if o.intents == Intents::none() && !o.flamegraph {
        o.intents.latency = true;
    }
    Ok(o)
}

/// What the runner is asked to do.
#[derive(Copy, Clone, Debug, PartialEq, Eq, Structural)]
pub enum Mode {
    /// Compare the two reports named from argument `from` on.
    Compare { from: usize },
    Help,
    Run,
}

/// The first place of `word` among `args` from `i` on, or the number of `args`.
pub open spec fn place_of_word(args: Seq<Seq<char>>, word: Seq<char>, i: int) -> int
    decreases args.len() - i,
{
    if i < 0 || i >= args.len() {
        args.len() as int
    } else if args[i] == word {
        i
    } else {
        place_of_word(args, word, i + 1)
    }
}

fn find_word(args: &Vec<String>, word: &str) -> (r: usize)
    ensures
        r == place_of_word(text::strings(args@), word@, 0),
        r <= args.len(),
{
    let ghost words = text::strings(args@);
    let mut i: usize = 0;
    while i < args.len()
        invariant
            i <= args.len(),
            words == text::strings(args@),
            place_of_word(words, word@, 0) == place_of_word(words, word@, i as int),
        decreases args.len() - i,
    {
        assert(words[i as int] == args[i as int]@);
        if is_word(&args[i], word) {
            return i;
        }
        i = i + 1;
    }
    i
}

/// What the arguments ask the runner to do: a comparison goes before a request
/// for help.
pub fn mode_of(args: &Vec<String>) -> (r: Mode)
    ensures
        r == ({
            let words = text::strings(args@);
            let n = words.len() as int;
            if place_of_word(words, "--compare"@, 0) < n {
                Mode::Compare { from: (place_of_word(words, "--compare"@, 0) + 1) as usize }
            } else if place_of_word(words, "-h"@, 0) < n || place_of_word(words, "--help"@, 0) < n {
                Mode::Help
            } else {
                Mode::Run
            }
        }),
{
    let compare: usize = find_word(args, "--compare");
    if compare < args.len() {
        return Mode::Compare { from: compare + 1 };
    }
    if find_word(args, "-h") < args.len() || find_word(args, "--help") < args.len() {
        return Mode::Help;
    }
    Mode::Run
}

/// The crates to run on: all of them, unless one is named and not all are asked
/// for.
pub open spec fn chosen_crates(o: OptsModel) -> Seq<Seq<char>> {
    if o.krate is Some && !o.all_crates {
        seq![o.krate->0]
    } else {
        all_crates()
    }
}

/// The crates to run on.
pub fn crates_of(opts: &Opts) -> (r: Vec<String>)
    ensures
        text::strings(r@) == chosen_crates(opts@),
{
    let mut out: Vec<String> = Vec::new();
    if !opts.all_crates {
        if let Some(k) = &opts.krate {
            out.push(k.clone());
            assert(text::strings(out@) =~= chosen_crates(opts@));
            return out;
        }
    }
    out.push("arena".to_string());
    out.push("orderbook".to_string());
    out.push("matcher".to_string());
    out.push("ipc".to_string());
    assert(text::strings(out@) =~= all_crates());
    out
}

/// Which of the programs that the passes need are there.
#[derive(Copy, Clone, Debug, PartialEq, Eq, Structural)]
pub struct Tools {
    pub valgrind: bool,
    pub perf: bool,
    pub gnuplot: bool,
}

/// Why the run cannot start: a pass was asked for whose program is missing. The
/// whole run is refused, so that no pass is left out in silence.
pub open spec fn refusal(o: OptsModel, tools: Tools) -> Option<Seq<char>> {
    if o.intents.cache && !tools.valgrind {
        Some(
            "cache regime requested but `valgrind` is not on PATH. Install valgrind (and `cargo install iai-callgrind-runner`) or drop `cache` from --intent."@,
        )
    } else if o.intents.perfstat && !tools.perf {
        Some("perfstat regime requested but `perf` is not on PATH."@)
    } else if o.intents.plots && !tools.gnuplot {
        Some("plots regime requested but `gnuplot` is not on PATH."@)
    } else if o.flamegraph && !tools.perf {
        Some("--flamegraph requested but `perf` is not on PATH."@)
    } else {
        None
    }
}

/// Why the run cannot start, if it cannot.
pub fn missing_tool(opts: &Opts, tools: Tools) -> (r: Option<&'static str>)
    ensures
        match r {
            Some(e) => refusal(opts@, tools) == Some(e@),
            None => refusal(opts@, tools) is None,
        },
{
    if opts.intents.cache && !tools.valgrind {
        return Some(
            "cache regime requested but `valgrind` is not on PATH. Install valgrind (and `cargo install iai-callgrind-runner`) or drop `cache` from --intent.",
        );
    }
    if opts.intents.perfstat && !tools.perf {
        return Some("perfstat regime requested but `perf` is not on PATH.");
    }
    if opts.intents.plots && !tools.gnuplot {
        return Some("plots regime requested but `gnuplot` is not on PATH.");
    }
    if opts.flamegraph && !tools.perf {
        return Some("--flamegraph requested but `perf` is not on PATH.");
    }
    None
}

/// One pass over one crate.
#[derive(Copy, Clone, Debug, PartialEq, Eq, Structural)]
pub enum Step {
    Latency,
    Cache,
    /// The crate has no target for cache counts.
    CacheSkipped,
    AllocProof,
    /// The crate has no allocation proof.
    AllocSkipped,
    Perfstat,
    Plots,
    Flamegraph,
}

/// One step if `on`, else none.
pub open spec fn step_if(on: bool, step: Step) -> Seq<Step> {
    if on {
        seq![step]
    } else {
        Seq::empty()
    }
}

/// The passes over one crate, in the order in which they run.
pub open spec fn steps_of(o: OptsModel, krate: Seq<char>) -> Seq<Step> {
    step_if(o.intents.latency, Step::Latency) + step_if(
        o.intents.cache,
        if krate == "matcher"@ {
            Step::Cache
        } else {
            Step::CacheSkipped
        },
    ) + step_if(
        o.intents.alloc_proof,
        if krate == "matcher"@ || krate == "ipc"@ {
            Step::AllocProof
        } else {
            Step::AllocSkipped
        },
    ) + step_if(o.intents.perfstat, Step::Perfstat) + step_if(o.intents.plots, Step::Plots)
        + step_if(o.flamegraph, Step::Flamegraph)
}

fn push_if(out: &mut Vec<Step>, on: bool, step: Step)
    ensures
        final(out)@ == old(out)@ + step_if(on, step),
{
    if on {
        out.push(step);
    }
    assert(out@ =~= old(out)@ + step_if(on, step));
}

/// The passes over one crate, in the order in which they run.
pub fn plan(opts: &Opts, krate: &str) -> (r: Vec<Step>)
    ensures
        r@ == steps_of(opts@, krate@),
{
    let cache: Step = if has_iai(krate) {
        Step::Cache
    } else {
        Step::CacheSkipped
    };
    let alloc_proof: Step = if has_alloc_proof(krate) {
        Step::AllocProof
    } else {
        Step::AllocSkipped
    };
    let mut out: Vec<Step> = Vec::new();
    push_if(&mut out, opts.intents.latency, Step::Latency);
    assert(out@ =~= step_if(opts.intents.latency, Step::Latency));
    push_if(&mut out, opts.intents.cache, cache);
    push_if(&mut out, opts.intents.alloc_proof, alloc_proof);
    push_if(&mut out, opts.intents.perfstat, Step::Perfstat);
    push_if(&mut out, opts.intents.plots, Step::Plots);
    push_if(&mut out, opts.flamegraph, Step::Flamegraph);
    out
}

proof fn lemma_asked_step_is_there(on: bool, step: Step)
    ensures
        on ==> step_if(on, step).contains(step),
{
    if on {
        assert(step_if(on, step)[0] == step);
    }
}

proof fn lemma_joined_pair(a: Seq<Step>, b: Seq<Step>, step: Step)
    ensures
        a.contains(step) || b.contains(step) ==> (a + b).contains(step),
{
    if a.contains(step) {
        let i = a.index_of(step);
        assert((a + b)[i] == step);
    } else if b.contains(step) {
        let i = b.index_of(step);
        assert((a + b)[a.len() + i] == step);
    }
}

/// A step of any part is a step of the whole.
proof fn lemma_joined_steps(
    a: Seq<Step>,
    b: Seq<Step>,
    c: Seq<Step>,
    d: Seq<Step>,
    e: Seq<Step>,
    f: Seq<Step>,
    step: Step,
)
    ensures
        a.contains(step) || b.contains(step) || c.contains(step) || d.contains(step) || e.contains(
            step,
        ) || f.contains(step) ==> (a + b + c + d + e + f).contains(step),
{
    lemma_joined_pair(a, b, step);
    lemma_joined_pair(a + b, c, step);
    lemma_joined_pair(a + b + c, d, step);
    lemma_joined_pair(a + b + c + d, e, step);
    lemma_joined_pair(a + b + c + d + e, f, step);
}

/// A run that starts has the programs of every pass that was asked for, and plans
/// each of them on every chosen crate. The cache and allocation passes are planned as
/// skipped on a crate without a target for them, and only there.
pub proof fn law_started_run_has_its_tools(o: OptsModel, tools: Tools, krate: Seq<char>)
    requires
        refusal(o, tools) is None,
    ensures
        o.intents.cache ==> tools.valgrind,
        o.intents.perfstat ==> tools.perf && steps_of(o, krate).contains(Step::Perfstat),
        o.intents.plots ==> tools.gnuplot && steps_of(o, krate).contains(Step::Plots),
        o.flamegraph ==> tools.perf && steps_of(o, krate).contains(Step::Flamegraph),
        o.intents.latency ==> steps_of(o, krate).contains(Step::Latency),
        o.intents.cache ==> steps_of(o, krate).contains(
            if krate == "matcher"@ {
                Step::Cache
            } else {
                Step::CacheSkipped
            },
        ),
        o.intents.alloc_proof ==> steps_of(o, krate).contains(
            if krate == "matcher"@ || krate == "ipc"@ {
                Step::AllocProof
            } else {
                Step::AllocSkipped
            },
        ),
{
    let a = step_if(o.intents.latency, Step::Latency);
    let cache = if krate == "matcher"@ {
        Step::Cache
    } else {
        Step::CacheSkipped
    };
    let b = step_if(o.intents.cache, cache);
    let alloc_proof = if krate == "matcher"@ || krate == "ipc"@ {
        Step::AllocProof
    } else {
        Step::AllocSkipped
    };
    let c = step_if(o.intents.alloc_proof, alloc_proof);
    let d = step_if(o.intents.perfstat, Step::Perfstat);
    let e = step_if(o.intents.plots, Step::Plots);
    let f = step_if(o.flamegraph, Step::Flamegraph);
    lemma_asked_step_is_there(o.intents.latency, Step::Latency);
    lemma_asked_step_is_there(o.intents.cache, cache);
    lemma_asked_step_is_there(o.intents.alloc_proof, alloc_proof);
    lemma_asked_step_is_there(o.intents.perfstat, Step::Perfstat);
    lemma_asked_step_is_there(o.intents.plots, Step::Plots);
    lemma_asked_step_is_there(o.flamegraph, Step::Flamegraph);
    lemma_joined_steps(a, b, c, d, e, f, Step::Latency);
    lemma_joined_steps(a, b, c, d, e, f, cache);
    lemma_joined_steps(a, b, c, d, e, f, alloc_proof);
    lemma_joined_steps(a, b, c, d, e, f, Step::Perfstat);
    lemma_joined_steps(a, b, c, d, e, f, Step::Plots);
    lemma_joined_steps(a, b, c, d, e, f, Step::Flamegraph);
}

/// Where nothing is asked for by name, latency is measured.
pub proof fn law_latency_is_the_default()
    ensures
        options(Seq::empty()) is Ok,
        options(Seq::empty())->Ok_0.intents.latency,
        chosen_crates(options(Seq::empty())->Ok_0) == all_crates(),
{
}

/// The arguments of a comparison: the paths, the values given for the noise band
/// in order, and whether the last `--noise` has no value.
pub struct CompareArgs {
    pub paths: Vec<String>,
    pub noises: Vec<String>,
    pub noise_without_value: bool,
}

/// What the arguments from `i` on add: paths, noise values, and whether a value
/// is missing.
pub open spec fn compare_from(args: Seq<Seq<char>>, i: int) -> (
    Seq<Seq<char>>,
    Seq<Seq<char>>,
    bool,
)
    decreases args.len() - i,
{
    if i < 0 || i >= args.len() {
        (Seq::empty(), Seq::empty(), false)
    } else if args[i] == "--noise"@ {
        if i + 1 >= args.len() {
            (Seq::empty(), Seq::empty(), true)
        } else {
            let rest = compare_from(args, i + 2);
            (rest.0, seq![args[i + 1]] + rest.1, rest.2)
        }
    } else {
        let rest = compare_from(args, i + 1);
        (seq![args[i]] + rest.0, rest.1, rest.2)
    }
}

/// Read the arguments of a comparison, which begin at `from`.
pub fn parse_compare(args: &Vec<String>, from: usize) -> (r: CompareArgs)
    requires
        from <= args.len(),
    ensures
        (text::strings(r.paths@), text::strings(r.noises@), r.noise_without_value) == compare_from(
            text::strings(args@),
            from as int,
        ),
{
    let ghost words = text::strings(args@);
    let ghost whole = compare_from(words, from as int);
    let mut paths: Vec<String> = Vec::new();
    let mut noises: Vec<String> = Vec::new();
    let mut i: usize = from;
    assert(text::strings(paths@) + whole.0 =~= whole.0);
    assert(text::strings(noises@) + whole.1 =~= whole.1);
    while i < args.len()
        invariant
            i <= args.len(),
            words == text::strings(args@),
            whole == compare_from(words, from as int),
            ({
                let rest = compare_from(words, i as int);
                &&& whole.0 == text::strings(paths@) + rest.0
                &&& whole.1 == text::strings(noises@) + rest.1
                &&& whole.2 == rest.2
            }),
        decreases args.len() - i,
    {
        let ghost rest = compare_from(words, i as int);
        let ghost old_paths = paths@;
        let ghost old_noises = noises@;
        assert(words[i as int] == args[i as int]@);
        if is_word(&args[i], "--noise") {
            if i + 1 >= args.len() {
                assert(text::strings(paths@) + rest.0 =~= text::strings(paths@));
                assert(text::strings(noises@) + rest.1 =~= text::strings(noises@));
                return CompareArgs { paths, noises, noise_without_value: true };
            }
            assert(words[i + 1] == args[i + 1]@);
            noises.push(args[i + 1].clone());
            proof {
                assert(text::strings(noises@) =~= text::strings(old_noises).push(words[i + 1]));
                assert(text::strings(old_noises) + rest.1 =~= text::strings(noises@)
                    + compare_from(words, i + 2).1);
            }
            i = i + 2;
        } else {
            paths.push(args[i].clone());
            proof {
                assert(text::strings(paths@) =~= text::strings(old_paths).push(words[i as int]));
                assert(text::strings(old_paths) + rest.0 =~= text::strings(paths@) + compare_from(
                    words,
                    i + 1,
                ).0);
            }
            i = i + 1;
        }
    }
    assert(text::strings(paths@) + Seq::<Seq<char>>::empty() =~= text::strings(paths@));
    assert(text::strings(noises@) + Seq::<Seq<char>>::empty() =~= text::strings(noises@));
    CompareArgs { paths, noises, noise_without_value: false }
}

/// The first place at or after `at` where `word` stands in `s`, or none.
pub open spec fn place_of_text(s: Seq<char>, word: Seq<char>, at: int) -> Option<int>
    decreases s.len() - at + 1,
{
    if at < 0 || at > s.len() {
        None
    } else if text::occurs_at(s, at, word) {
        Some(at)
    } else {
        place_of_text(s, word, at + 1)
    }
}

fn find_text(s: &Vec<char>, word: &Vec<char>) -> (r: Option<usize>)
    ensures
        match r {
            Some(i) => place_of_text(s@, word@, 0) == Some(i as int) && i + word.len() <= s.len(),
            None => place_of_text(s@, word@, 0) is None,
        },
{
    let mut i: usize = 0;
    while i < s.len()
        invariant
            i <= s.len(),
            place_of_text(s@, word@, 0) == place_of_text(s@, word@, i as int),
        decreases s.len() - i,
    {
        if has_at(s, i, word) {
            return Some(i);
        }
        i = i + 1;
    }
    if has_at(s, i, word) {
        return Some(i);
    }
    assert(place_of_text(s@, word@, i + 1) is None);
    None
}

/// The path of the program that one line of cargo's messages names, if it names
/// one.
pub open spec fn program_in(line: Seq<char>) -> Option<Seq<char>> {
    let mark = "\"executable\":\""@;
    match place_of_text(line, mark, 0) {
        Some(i) => {
            let rest = line.skip(i + mark.len());
            let j = text::next_place(rest, '"', 0);
            if j < rest.len() {
                Some(rest.take(j))
            } else {
                None
            }
        },
        None => None,
    }
}

/// The last program that lines of cargo's messages name.
pub open spec fn last_program(lines: Seq<Seq<char>>) -> Option<Seq<char>>
    decreases lines.len(),
{
    if lines.len() == 0 {
        None
    } else {
        match program_in(lines.last()) {
            Some(p) => Some(p),
            None => last_program(lines.drop_last()),
        }
    }
}

fn line_program(line: &Vec<char>) -> (r: Option<String>)
    ensures
        match r {
            Some(p) => program_in(line@) == Some(p@),
            None => program_in(line@) is None,
        },
{
    let mark = chars_of("\"executable\":\"");
    match find_text(line, &mark) {
        Some(i) => {
            let rest = piece(line, i + mark.len(), line.len());
            assert(rest@ =~= line@.skip(i + mark.len()));
            let j: usize = find_char(&rest, '"', 0);
            if j < rest.len() {
                let path = string_of(&rest, 0, j);
                assert(path@ =~= rest@.take(j as int));
                Some(path)
            } else {
                None
            }
        },
        None => None,
    }
}

/// The benchmark program that cargo built, from its messages: the last one that
/// they name.
pub fn executable_of(stdout: &str) -> (r: Option<String>)
    ensures
        match r {
            Some(p) => last_program(text::lines_of(stdout@)) == Some(p@),
            None => last_program(text::lines_of(stdout@)) is None,
        },
{
    let all = lines(&chars_of(stdout));
    let ghost whole = text::texts(all@);
    let mut exe: Option<String> = None;
    let mut i: usize = 0;
    while i < all.len()
        invariant
            i <= all.len(),
            whole == text::texts(all@),
            match exe {
                Some(p) => last_program(whole.take(i as int)) == Some(p@),
                None => last_program(whole.take(i as int)) is None,
            },
        decreases all.len() - i,
    {
        assert(whole.take(i + 1).drop_last() =~= whole.take(i as int));
        assert(whole.take(i + 1).last() == all[i as int]@);
        match line_program(&all[i]) {
            Some(p) => {
                exe = Some(p);
            },
            None => {},
        }
        i = i + 1;
    }
    assert(whole.take(i as int) =~= whole);
    exe
}

/// A file of the runs of `prefix`: the prefix, an underscore, anything, and the
/// ending.
pub fn is_run_file(name: &str, prefix: &str, suffix: &str) -> (r: bool)
    ensures
        r == (text::occurs_at(name@, 0, prefix@.push('_')) && text::occurs_at(
            name@,
            name@.len() - suffix@.len(),
            suffix@,
        )),
{
    let n = chars_of(name);
    let mut p = chars_of(prefix);
    p.push('_');
    let s = chars_of(suffix);
    if !has_at(&n, 0, &p) {
        return false;
    }
    if s.len() > n.len() {
        return false;
    }
    has_at(&n, n.len() - s.len(), &s)
}

/// A file of the directory of runs: its name and when it was last written.
pub struct RunFile {
    pub name: String,
    pub written: i128,
}

/// A file of the runs of `prefix` that ends in `suffix`.
pub open spec fn is_run_of(f: RunFile, prefix: Seq<char>, suffix: Seq<char>) -> bool {
    text::occurs_at(f.name@, 0, prefix.push('_')) && text::occurs_at(
        f.name@,
        f.name@.len() - suffix.len(),
        suffix,
    )
}

/// The most recent file of the runs of `prefix` that ends in `suffix`: of those
/// written last, the first in the list.
pub fn latest_file(files: &Vec<RunFile>, prefix: &str, suffix: &str) -> (r: Option<usize>)
    ensures
        match r {
            Some(k) => {
                &&& k < files.len()
                &&& is_run_of(files[k as int], prefix@, suffix@)
                &&& forall|i: int|
                    0 <= i < files.len() && is_run_of(#[trigger] files[i], prefix@, suffix@) ==> {
                        &&& files[i].written <= files[k as int].written
                        &&& i < k ==> files[i].written < files[k as int].written
                    }
            },
            None => forall|i: int|
                0 <= i < files.len() ==> !is_run_of(#[trigger] files[i], prefix@, suffix@),
        },
{
    let mut best: Option<usize> = None;
    let mut i: usize = 0;
    while i < files.len()
        invariant
            i <= files.len(),
            match best {
                Some(k) => {
                    &&& k < i
                    &&& is_run_of(files[k as int], prefix@, suffix@)
                    &&& forall|j: int|
                        0 <= j < i && is_run_of(#[trigger] files[j], prefix@, suffix@) ==> {
                            &&& files[j].written <= files[k as int].written
                            &&& j < k ==> files[j].written < files[k as int].written
                        }
                },
                None => forall|j: int|
                    0 <= j < i ==> !is_run_of(#[trigger] files[j], prefix@, suffix@),
            },
        decreases files.len() - i,
    {
        if is_run_file(files[i].name.as_str(), prefix, suffix) {
            best =
            match best {
                Some(k) => if files[i].written > files[k].written {
                    Some(i)
                } else {
                    Some(k)
                },
                None => Some(i),
            };
        }
        i = i + 1;
    }
    best
}

/// `s` with every `.gnuplot` replaced by `.svg`, from place `at` on.
pub open spec fn with_svg(s: Seq<char>, at: int) -> Seq<char>
    decreases s.len() - at,
{
    if at < 0 || at >= s.len() {
        Seq::empty()
    } else if text::occurs_at(s, at, ".gnuplot"@) && ".gnuplot"@.len() > 0 {
        ".svg"@ + with_svg(s, at + ".gnuplot"@.len())
    } else {
        seq![s[at]] + with_svg(s, at + 1)
    }
}

/// The name of the picture that a plot script writes.
pub fn svg_name(script: &str) -> (r: String)
    ensures
        r@ == with_svg(script@, 0),
{
    proof {
        reveal_strlit(".gnuplot");
    }
    let s = chars_of(script);
    let word = chars_of(".gnuplot");
    let mut out = String::new();
    let mut i: usize = 0;
    assert(out@ + with_svg(s@, 0) =~= with_svg(s@, 0));
    while i < s.len()
        invariant
            i <= s.len(),
            word@ == ".gnuplot"@,
            word@.len() == 8,
            with_svg(s@, 0) == out@ + with_svg(s@, i as int),
        decreases s.len() - i,
    {
        let ghost before = out@;
        if has_at(&s, i, &word) {
            push_str(&mut out, ".svg");
            assert(before + (".svg"@ + with_svg(s@, i + 8)) =~= out@ + with_svg(s@, i + 8));
            i = i + word.len();
        } else {
            push_char(&mut out, s[i]);
            assert(before + (seq![s@[i as int]] + with_svg(s@, i + 1)) =~= out@ + with_svg(
                s@,
                i + 1,
            ));
            i = i + 1;
        }
    }
    assert(out@ + with_svg(s@, i as int) =~= out@);
    out
}

/// The level at which the kernel keeps performance counters from ordinary users,
/// if it does: above 2. A file that cannot be read, or holds no such number,
/// keeps nothing.
pub fn counters_blocked(paranoid: &Option<String>) -> (r: Option<u64>)
    ensures
        r == match *paranoid {
            Some(s) => match text::number(text::trimmed(s@), i64::MAX as nat) {
                Some(level) => if level > 2 {
                    Some(level as u64)
                } else {
                    None
                },
                None => None,
            },
            None => None,
        },
{
    match paranoid {
        Some(s) => match parse_number(&trim(&chars_of(s.as_str())), i64::MAX as u64) {
            Some(level) => if level > 2 {
                Some(level)
            } else {
                None
            },
            None => None,
        },
        None => None,
    }
}

/// The arguments without the separator that may stand in front of them.
pub fn strip_separator(args: Vec<String>) -> (r: Vec<String>)
    ensures
        r@ == if args@.len() > 0 && args@[0]@ == "--"@ {
            args@.skip(1)
        } else {
            args@
        },
{
    let mut args = args;
    if args.len() > 0 && is_word(&args[0], "--") {
        args.remove(0);
    }
    args
}

} // verus!
