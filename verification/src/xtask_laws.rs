//! What the options of the benchmark runner promise.
use crate::text;
use crate::xtask;
use crate::xtask::{Intents, OptsModel, Step, Tools};
use vstd::prelude::*;

verus! {

/// One of the parts of an `--intent` value is `word`, white space around it aside.
pub open spec fn names(parts: Seq<Seq<char>>, word: Seq<char>) -> bool {
    exists|i: int| 0 <= i < parts.len() && text::trimmed(#[trigger] parts[i]) == word
}

/// The part is empty or one of the words that `--intent` knows.
pub open spec fn is_known(part: Seq<char>) -> bool {
    let p = text::trimmed(part);
    p.len() == 0 || p == "latency"@ || p == "cache"@ || p == "alloc"@ || p == "perfstat"@ || p
        == "plots"@ || p == "flamegraph"@
}

proof fn lemma_names_step(parts: Seq<Seq<char>>, word: Seq<char>)
    requires
        parts.len() > 0,
    ensures
        names(parts, word) <==> text::trimmed(parts[0]) == word || names(parts.skip(1), word),
{
    let rest = parts.skip(1);
    if names(parts, word) {
        let i = choose|i: int|
            0 <= i < parts.len() && text::trimmed(#[trigger] parts[i]) == word;
        if i > 0 {
            assert(rest[i - 1] == parts[i]);
        }
    }
    if names(rest, word) {
        let i = choose|i: int| 0 <= i < rest.len() && text::trimmed(#[trigger] rest[i]) == word;
        assert(parts[i + 1] == rest[i]);
    }
}

proof fn lemma_words_differ()
    ensures
        "latency"@.len() == 7,
        "perfstat"@.len() == 8,
        "flamegraph"@.len() == 10,
        "cache"@.len() == 5,
        "alloc"@.len() == 5,
        "plots"@.len() == 5,
        "cache"@[0] == 'c',
        "alloc"@[0] == 'a',
        "plots"@[0] == 'p',
{
    reveal_strlit("latency");
    reveal_strlit("perfstat");
    reveal_strlit("flamegraph");
    reveal_strlit("cache");
    reveal_strlit("alloc");
    reveal_strlit("plots");
}

/// A list of intents asks for exactly the passes that it names, besides those that
/// were asked for before. It is refused just if it holds a word that is no intent.
pub proof fn law_intents_are_those_named(o: OptsModel, parts: Seq<Seq<char>>)
    ensures
        xtask::with_intents(o, parts) is Ok <==> forall|i: int|
            0 <= i < parts.len() ==> is_known(#[trigger] parts[i]),
        xtask::with_intents(o, parts) matches Ok(r) ==> {
            &&& r.intents.latency <==> o.intents.latency || names(parts, "latency"@)
            &&& r.intents.cache <==> o.intents.cache || names(parts, "cache"@)
            &&& r.intents.alloc_proof <==> o.intents.alloc_proof || names(parts, "alloc"@)
            &&& r.intents.perfstat <==> o.intents.perfstat || names(parts, "perfstat"@)
            &&& r.intents.plots <==> o.intents.plots || names(parts, "plots"@)
            &&& r.flamegraph <==> o.flamegraph || names(parts, "flamegraph"@)
            &&& r.krate == o.krate
            &&& r.all_crates == o.all_crates
        },
    decreases parts.len(),
{
    lemma_words_differ();
    if parts.len() > 0 {
        let rest = parts.skip(1);
        assert(is_known(parts[0]) <==> xtask::with_intent(o, parts[0]) is Ok);
        assert forall|i: int| 0 <= i < rest.len() implies #[trigger] rest[i] == parts[i + 1] by {}
        if xtask::with_intent(o, parts[0]) is Ok {
            let next = xtask::with_intent(o, parts[0])->Ok_0;
            law_intents_are_those_named(next, rest);
            lemma_names_step(parts, "latency"@);
            lemma_names_step(parts, "cache"@);
            lemma_names_step(parts, "alloc"@);
            lemma_names_step(parts, "perfstat"@);
            lemma_names_step(parts, "plots"@);
            lemma_names_step(parts, "flamegraph"@);
            if forall|i: int| 0 <= i < rest.len() ==> is_known(#[trigger] rest[i]) {
                assert forall|i: int| 0 <= i < parts.len() implies is_known(#[trigger] parts[i]) by {
                    if i > 0 {
                        assert(rest[i - 1] == parts[i]);
                    }
                }
            }
            if forall|i: int| 0 <= i < parts.len() ==> is_known(#[trigger] parts[i]) {
                assert forall|i: int| 0 <= i < rest.len() implies is_known(#[trigger] rest[i]) by {
                    assert(is_known(parts[i + 1]));
                }
            }
        }
    }
}

/// What stands in front of an argument does not matter to the ones from there on.
proof fn lemma_options_suffix(a: Seq<Seq<char>>, b: Seq<Seq<char>>, j: int, o: OptsModel)
    requires
        0 <= j <= b.len(),
    ensures
        xtask::options_from(a + b, a.len() + j, o) == xtask::options_from(b, j, o),
    decreases b.len() - j,
{
    let whole = a + b;
    let i = a.len() + j;
    if j < b.len() {
        assert(whole[i] == b[j]);
        if j + 1 < b.len() {
            assert(whole[i + 1] == b[j + 1]);
        }
        if b[j] == "--crate"@ {
            if j + 1 < b.len() {
                lemma_options_suffix(
                    a,
                    b,
                    j + 2,
                    OptsModel { krate: Some(b[j + 1]), ..o },
                );
            }
        } else if b[j] == "--all-crates"@ {
            lemma_options_suffix(a, b, j + 1, OptsModel { all_crates: true, ..o });
        } else if b[j] == "--intent"@ {
            if j + 1 < b.len() {
                match xtask::with_intents(o, text::split_on(b[j + 1], ',')) {
                    Ok(next) => lemma_options_suffix(a, b, j + 2, next),
                    Err(_) => {},
                }
            }
        } else if b[j] == "--flamegraph"@ {
            lemma_options_suffix(a, b, j + 1, OptsModel { flamegraph: true, ..o });
        }
    }
}

proof fn lemma_options_prefix(a: Seq<Seq<char>>, b: Seq<Seq<char>>, i: int, o: OptsModel)
    requires
        0 <= i <= a.len(),
        xtask::options_from(a, i, o) is Ok,
    ensures
        xtask::options_from(a + b, i, o) == xtask::options_from(
            a + b,
            a.len() as int,
            xtask::options_from(a, i, o)->Ok_0,
        ),
    decreases a.len() - i,
{
    let whole = a + b;
    if i < a.len() {
        assert(whole[i] == a[i]);
        if i + 1 < a.len() {
            assert(whole[i + 1] == a[i + 1]);
        }
        if a[i] == "--crate"@ {
            if i + 1 < a.len() && xtask::bench_target(a[i + 1]) is Some {
                lemma_options_prefix(
                    a,
                    b,
                    i + 2,
                    OptsModel { krate: Some(a[i + 1]), ..o },
                );
            }
        } else if a[i] == "--all-crates"@ {
            lemma_options_prefix(a, b, i + 1, OptsModel { all_crates: true, ..o });
        } else if a[i] == "--intent"@ {
            if i + 1 < a.len() {
                match xtask::with_intents(o, text::split_on(a[i + 1], ',')) {
                    Ok(next) => lemma_options_prefix(a, b, i + 2, next),
                    Err(_) => {},
                }
            }
        } else if a[i] == "--flamegraph"@ {
            lemma_options_prefix(a, b, i + 1, OptsModel { flamegraph: true, ..o });
        }
    }
}

/// Arguments are read from left to right: what comes behind some complete arguments
/// is read on top of what they asked for.
pub proof fn law_arguments_are_read_in_turn(a: Seq<Seq<char>>, b: Seq<Seq<char>>, o: OptsModel)
    requires
        xtask::options_from(a, 0, o) is Ok,
    ensures
        xtask::options_from(a + b, 0, o) == xtask::options_from(
            b,
            0,
            xtask::options_from(a, 0, o)->Ok_0,
        ),
{
    lemma_options_prefix(a, b, 0, o);
    lemma_options_suffix(a, b, 0, xtask::options_from(a, 0, o)->Ok_0);
}

proof fn lemma_options_differ()
    ensures
        "--crate"@.len() == 7,
        "--all-crates"@.len() == 12,
        "--intent"@.len() == 8,
        "--flamegraph"@.len() == 12,
        "--all-crates"@[2] == 'a',
        "--flamegraph"@[2] == 'f',
{
    reveal_strlit("--crate");
    reveal_strlit("--all-crates");
    reveal_strlit("--intent");
    reveal_strlit("--flamegraph");
}

/// What each option asks for, on top of `o`: `--crate` names one of the four crates,
/// `--all-crates` and `--flamegraph` stand alone, and `--intent` takes a list with
/// commas. An option without its value and any other argument are refused.
pub proof fn law_each_option_asks_for_one_thing(o: OptsModel, value: Seq<char>)
    ensures
        xtask::options_from(Seq::empty(), 0, o) == Ok::<OptsModel, Seq<char>>(o),
        xtask::options_from(seq!["--all-crates"@], 0, o) == Ok::<OptsModel, Seq<char>>(
            OptsModel { all_crates: true, ..o },
        ),
        xtask::options_from(seq!["--flamegraph"@], 0, o) == Ok::<OptsModel, Seq<char>>(
            OptsModel { flamegraph: true, ..o },
        ),
        value == "arena"@ || value == "orderbook"@ || value == "matcher"@ || value == "ipc"@
            ==> xtask::options_from(seq!["--crate"@, value], 0, o) == Ok::<OptsModel, Seq<char>>(
            OptsModel { krate: Some(value), ..o },
        ),
        value != "arena"@ && value != "orderbook"@ && value != "matcher"@ && value != "ipc"@
            ==> xtask::options_from(seq!["--crate"@, value], 0, o) is Err,
        xtask::options_from(seq!["--intent"@, value], 0, o) == xtask::with_intents(
            o,
            text::split_on(value, ','),
        ),
        xtask::options_from(seq!["--crate"@], 0, o) is Err,
        xtask::options_from(seq!["--intent"@], 0, o) is Err,
        value != "--crate"@ && value != "--all-crates"@ && value != "--intent"@ && value
            != "--flamegraph"@ ==> xtask::options_from(seq![value], 0, o) is Err,
{
    lemma_options_differ();
    reveal_with_fuel(xtask::options_from, 2);
    let pair = seq!["--crate"@, value];
    assert(pair[0] == "--crate"@ && pair[1] == value);
    let list = seq!["--intent"@, value];
    assert(list[0] == "--intent"@ && list[1] == value);
    assert(seq!["--all-crates"@][0] == "--all-crates"@);
    assert(seq!["--flamegraph"@][0] == "--flamegraph"@);
    assert(seq!["--crate"@][0] == "--crate"@);
    assert(seq!["--intent"@][0] == "--intent"@);
    assert(seq![value][0] == value);
}

/// Where no pass is asked for, latency alone is measured; else exactly what was asked
/// for.
pub proof fn law_nothing_asked_means_latency(args: Seq<Seq<char>>)
    ensures
        ({
            let none = Intents {
                latency: false,
                cache: false,
                alloc_proof: false,
                perfstat: false,
                plots: false,
            };
            let start = OptsModel {
                krate: None,
                all_crates: false,
                intents: none,
                flamegraph: false,
            };
            let read = xtask::options_from(args, 0, start);
            &&& read is Err ==> xtask::options(args) == read
            &&& read matches Ok(o) ==> xtask::options(args) == Ok::<OptsModel, Seq<char>>(
                if o.intents == none && !o.flamegraph {
                    OptsModel { intents: Intents { latency: true, ..none }, ..o }
                } else {
                    o
                },
            )
        }),
{
}

/// One crate is chosen if it is named and not all are asked for, and else all four.
pub proof fn law_named_crate_is_the_only_one(o: OptsModel)
    ensures
        o.krate is Some && !o.all_crates ==> xtask::chosen_crates(o).len() == 1
            && xtask::chosen_crates(o)[0] == o.krate->0,
        o.krate is None || o.all_crates ==> xtask::chosen_crates(o) == seq![
            "arena"@,
            "orderbook"@,
            "matcher"@,
            "ipc"@,
        ],
{
}

/// A run is refused just if a pass that was asked for lacks its program.
pub proof fn law_run_is_refused_for_a_missing_program(o: OptsModel, tools: Tools)
    ensures
        xtask::refusal(o, tools) is None <==> (o.intents.cache ==> tools.valgrind) && (
        o.intents.perfstat ==> tools.perf) && (o.intents.plots ==> tools.gnuplot) && (o.flamegraph
            ==> tools.perf),
{
}

/// The place of a step in a plan.
pub open spec fn turn(step: Step) -> int {
    match step {
        Step::Latency => 0,
        Step::Cache => 1,
        Step::CacheSkipped => 1,
        Step::AllocProof => 2,
        Step::AllocSkipped => 2,
        Step::Perfstat => 3,
        Step::Plots => 4,
        Step::Flamegraph => 5,
    }
}

/// A plan holds only what was asked for, each pass once and in a fixed order: latency,
/// cache, allocations, counters, plots, flame graph. A crate's cache and allocation
/// passes are skipped just if it has no target for them.
#[verifier::spinoff_prover]
#[verifier::rlimit(40)]
pub proof fn law_plan_holds_only_what_was_asked_for(o: OptsModel, krate: Seq<char>)
    ensures
        forall|i: int|
            0 <= i < xtask::steps_of(o, krate).len() ==> match #[trigger] xtask::steps_of(
                o,
                krate,
            )[i] {
                Step::Latency => o.intents.latency,
                Step::Cache => o.intents.cache && krate == "matcher"@,
                Step::CacheSkipped => o.intents.cache && krate != "matcher"@,
                Step::AllocProof => o.intents.alloc_proof && (krate == "matcher"@ || krate
                    == "ipc"@),
                Step::AllocSkipped => o.intents.alloc_proof && krate != "matcher"@ && krate
                    != "ipc"@,
                Step::Perfstat => o.intents.perfstat,
                Step::Plots => o.intents.plots,
                Step::Flamegraph => o.flamegraph,
            },
        forall|i: int, j: int|
            0 <= i < j < xtask::steps_of(o, krate).len() ==> turn(
                #[trigger] xtask::steps_of(o, krate)[i],
            ) < turn(#[trigger] xtask::steps_of(o, krate)[j]),
{
    let a = xtask::step_if(o.intents.latency, Step::Latency);
    let cache = if krate == "matcher"@ {
        Step::Cache
    } else {
        Step::CacheSkipped
    };
    let b = xtask::step_if(o.intents.cache, cache);
    let heap = if krate == "matcher"@ || krate == "ipc"@ {
        Step::AllocProof
    } else {
        Step::AllocSkipped
    };
    let c = xtask::step_if(o.intents.alloc_proof, heap);
    let d = xtask::step_if(o.intents.perfstat, Step::Perfstat);
    let e = xtask::step_if(o.intents.plots, Step::Plots);
    let f = xtask::step_if(o.flamegraph, Step::Flamegraph);
    lemma_ascending(Seq::empty(), o.intents.latency, Step::Latency, -1);
    assert(Seq::<Step>::empty() + a =~= a);
    lemma_ascending(a, o.intents.cache, cache, 0);
    lemma_ascending(a + b, o.intents.alloc_proof, heap, 1);
    lemma_ascending(a + b + c, o.intents.perfstat, Step::Perfstat, 2);
    lemma_ascending(a + b + c + d, o.intents.plots, Step::Plots, 3);
    lemma_ascending(a + b + c + d + e, o.flamegraph, Step::Flamegraph, 4);
    assert forall|i: int| 0 <= i < xtask::steps_of(o, krate).len() implies match #[trigger] xtask::steps_of(
        o,
        krate,
    )[i] {
        Step::Latency => o.intents.latency,
        Step::Cache => o.intents.cache && krate == "matcher"@,
        Step::CacheSkipped => o.intents.cache && krate != "matcher"@,
        Step::AllocProof => o.intents.alloc_proof && (krate == "matcher"@ || krate == "ipc"@),
        Step::AllocSkipped => o.intents.alloc_proof && krate != "matcher"@ && krate != "ipc"@,
        Step::Perfstat => o.intents.perfstat,
        Step::Plots => o.intents.plots,
        Step::Flamegraph => o.flamegraph,
    } by {
        let s = xtask::steps_of(o, krate);
        assert(s == a + b + c + d + e + f);
        if i >= (a + b + c + d + e).len() {
            assert(s[i] == f[i - (a + b + c + d + e).len()]);
        } else if i >= (a + b + c + d).len() {
            assert(s[i] == e[i - (a + b + c + d).len()]);
        } else if i >= (a + b + c).len() {
            assert(s[i] == d[i - (a + b + c).len()]);
        } else if i >= (a + b).len() {
            assert(s[i] == c[i - (a + b).len()]);
        } else if i >= a.len() {
            assert(s[i] == b[i - a.len()]);
        } else {
            assert(s[i] == a[i]);
        }
    }
}

spec fn ascending(s: Seq<Step>, top: int) -> bool {
    &&& forall|i: int| 0 <= i < s.len() ==> turn(#[trigger] s[i]) <= top
    &&& forall|i: int, j: int|
        0 <= i < j < s.len() ==> turn(#[trigger] s[i]) < turn(#[trigger] s[j])
}

proof fn lemma_ascending(s: Seq<Step>, on: bool, step: Step, top: int)
    requires
        ascending(s, top),
        turn(step) == top + 1,
    ensures
        ascending(s + xtask::step_if(on, step), top + 1),
{
    let after = s + xtask::step_if(on, step);
    assert forall|i: int| 0 <= i < after.len() implies turn(#[trigger] after[i]) <= top + 1 by {
        if i < s.len() {
            assert(after[i] == s[i]);
        }
    }
    assert forall|i: int, j: int| 0 <= i < j < after.len() implies turn(#[trigger] after[i]) < turn(
        #[trigger] after[j],
    ) by {
        assert(after[i] == s[i]);
        if j < s.len() {
            assert(after[j] == s[j]);
        }
    }
}

/// The arguments of a comparison are read in turn: `--noise` takes the next argument
/// as a value, and without one it is noted; every other argument is a path.
pub proof fn law_comparison_arguments(args: Seq<Seq<char>>, i: int)
    requires
        0 <= i < args.len(),
    ensures
        ({
            let (paths, noises, lacking) = xtask::compare_from(args, i);
            if args[i] != "--noise"@ {
                let (p, n, l) = xtask::compare_from(args, i + 1);
                &&& paths.len() == p.len() + 1 && paths[0] == args[i] && paths.skip(1) == p
                &&& noises == n && lacking == l
            } else if i + 1 < args.len() {
                let (p, n, l) = xtask::compare_from(args, i + 2);
                &&& noises.len() == n.len() + 1 && noises[0] == args[i + 1] && noises.skip(1) == n
                &&& paths == p && lacking == l
            } else {
                lacking && paths.len() == 0 && noises.len() == 0
            }
        }),
        xtask::compare_from(args, args.len() as int) == (
            Seq::<Seq<char>>::empty(),
            Seq::<Seq<char>>::empty(),
            false,
        ),
{
    let (paths, noises, _lacking) = xtask::compare_from(args, i);
    if args[i] != "--noise"@ {
        let (p, _n, _l) = xtask::compare_from(args, i + 1);
        assert(paths.skip(1) =~= p);
    } else if i + 1 < args.len() {
        let (_p, n, _l) = xtask::compare_from(args, i + 2);
        assert(noises.skip(1) =~= n);
    }
}

proof fn lemma_svg_unchanged(s: Seq<char>, at: int)
    requires
        0 <= at <= s.len(),
        forall|i: int| at <= i < s.len() ==> !text::occurs_at(s, i, ".gnuplot"@),
    ensures
        xtask::with_svg(s, at) == s.skip(at),
    decreases s.len() - at,
{
    if at < s.len() {
        lemma_svg_unchanged(s, at + 1);
        assert(seq![s[at]] + s.skip(at + 1) =~= s.skip(at));
    } else {
        assert(s.skip(at) =~= Seq::empty());
    }
}

proof fn lemma_svg_behind_plain(stem: Seq<char>, at: int)
    requires
        0 <= at <= stem.len(),
        forall|i: int| 0 <= i < stem.len() ==> #[trigger] stem[i] != '.',
    ensures
        xtask::with_svg(stem + ".gnuplot"@, at) == stem.skip(at) + ".svg"@,
    decreases stem.len() - at,
{
    reveal_strlit(".gnuplot");
    let s = stem + ".gnuplot"@;
    if at < stem.len() {
        assert(s[at] == stem[at]);
        if text::occurs_at(s, at, ".gnuplot"@) {
            assert(s.subrange(at, at + 8)[0] == '.');
        }
        lemma_svg_behind_plain(stem, at + 1);
        assert(seq![s[at]] + (stem.skip(at + 1) + ".svg"@) =~= stem.skip(at) + ".svg"@);
    } else {
        assert(s.subrange(at, at + 8) =~= ".gnuplot"@);
        assert(xtask::with_svg(s, at + 8) =~= Seq::empty());
        assert(stem.skip(at) + ".svg"@ =~= ".svg"@);
        assert(xtask::with_svg(s, at) =~= ".svg"@);
    }
}

/// The picture of a plot script has the script's name with `.svg` for `.gnuplot`, and
/// a name without that ending stays.
pub proof fn law_picture_is_named_after_its_script(stem: Seq<char>)
    ensures
        (forall|i: int| 0 <= i < stem.len() ==> #[trigger] stem[i] != '.') ==> xtask::with_svg(
            stem + ".gnuplot"@,
            0,
        ) == stem + ".svg"@,
        (forall|i: int| 0 <= i < stem.len() ==> !text::occurs_at(stem, i, ".gnuplot"@))
            ==> xtask::with_svg(stem, 0) == stem,
{
    assert(stem.skip(0) =~= stem);
    if forall|i: int| 0 <= i < stem.len() ==> #[trigger] stem[i] != '.' {
        lemma_svg_behind_plain(stem, 0);
    }
    if forall|i: int| 0 <= i < stem.len() ==> !text::occurs_at(stem, i, ".gnuplot"@) {
        lemma_svg_unchanged(stem, 0);
    }
}

/// The program is the one that the last line with one names; lines without one do not
/// matter.
pub proof fn law_last_program_counts(lines: Seq<Seq<char>>, line: Seq<char>)
    ensures
        xtask::last_program(Seq::empty()) is None,
        xtask::program_in(line) is Some ==> xtask::last_program(lines.push(line))
            == xtask::program_in(line),
        xtask::program_in(line) is None ==> xtask::last_program(lines.push(line))
            == xtask::last_program(lines),
{
    assert(lines.push(line).drop_last() =~= lines);
}

proof fn lemma_text_found(s: Seq<char>, word: Seq<char>, k: int, at: int)
    requires
        0 <= at <= k <= s.len(),
        text::occurs_at(s, k, word),
        forall|i: int| at <= i < k ==> !text::occurs_at(s, i, word),
    ensures
        xtask::place_of_text(s, word, at) == Some(k),
    decreases k - at,
{
    if at < k {
        lemma_text_found(s, word, k, at + 1);
    }
}

/// A line names a program between the first mark and the next double quote.
pub proof fn law_program_stands_behind_its_mark(
    lead: Seq<char>,
    path: Seq<char>,
    rest: Seq<char>,
)
    requires
        ({
            let mark = "\"executable\":\""@;
            let line = lead + mark + path.push('"') + rest;
            forall|i: int| 0 <= i < lead.len() ==> !text::occurs_at(line, i, mark)
        }),
        forall|i: int| 0 <= i < path.len() ==> #[trigger] path[i] != '"',
    ensures
        xtask::program_in(lead + "\"executable\":\""@ + path.push('"') + rest) == Some(path),
{
    let mark = "\"executable\":\""@;
    let line = lead + mark + path.push('"') + rest;
    assert(line.subrange(lead.len() as int, (lead.len() + mark.len()) as int) =~= mark);
    lemma_text_found(line, mark, lead.len() as int, 0);
    let tail = line.skip((lead.len() + mark.len()) as int);
    assert(tail =~= path.push('"') + rest);
    text::law_first_place(path, '"', rest);
    assert(tail.take(path.len() as int) =~= path);
}

/// A word is found at its first place, or behind all words if it is not there.
pub proof fn law_word_is_found_at_its_first_place(words: Seq<Seq<char>>, word: Seq<char>, i: int)
    requires
        0 <= i <= words.len(),
    ensures
        ({
            let at = xtask::place_of_word(words, word, i);
            &&& i <= at <= words.len()
            &&& forall|k: int| i <= k < at ==> #[trigger] words[k] != word
            &&& at < words.len() ==> words[at] == word
        }),
    decreases words.len() - i,
{
    if i < words.len() && words[i] != word {
        law_word_is_found_at_its_first_place(words, word, i + 1);
    }
}

/// Exactly the four crates that have benchmarks are known.
pub proof fn law_four_crates_have_benchmarks(krate: Seq<char>)
    ensures
        xtask::bench_target(krate) is Some <==> krate == "arena"@ || krate == "orderbook"@ || krate
            == "matcher"@ || krate == "ipc"@,
{
}

/// A refusal speaks of the first pass that lacks its program, in the order cache,
/// counters, plots, flame graph.
pub proof fn law_refusal_names_the_first_missing_program(o: OptsModel, tools: Tools)
    ensures
        xtask::refusal(o, tools) matches Some(t) ==> {
            let cache = o.intents.cache && !tools.valgrind;
            let counters = o.intents.perfstat && !tools.perf;
            let plots = o.intents.plots && !tools.gnuplot;
            &&& cache ==> text::occurs_at(t, 0, "cache regime"@)
            &&& !cache && counters ==> text::occurs_at(t, 0, "perfstat regime"@)
            &&& !cache && !counters && plots ==> text::occurs_at(t, 0, "plots regime"@)
            &&& !cache && !counters && !plots ==> text::occurs_at(t, 0, "--flamegraph"@)
        },
{
    reveal_strlit(
        "cache regime requested but `valgrind` is not on PATH. Install valgrind (and `cargo install iai-callgrind-runner`) or drop `cache` from --intent.",
    );
    reveal_strlit("perfstat regime requested but `perf` is not on PATH.");
    reveal_strlit("plots regime requested but `gnuplot` is not on PATH.");
    reveal_strlit("--flamegraph requested but `perf` is not on PATH.");
    reveal_strlit("cache regime");
    reveal_strlit("perfstat regime");
    reveal_strlit("plots regime");
    reveal_strlit("--flamegraph");
    if o.intents.cache && !tools.valgrind {
        let t = xtask::refusal(o, tools)->0;
        assert(t.subrange(0, 12) =~= "cache regime"@);
    } else if o.intents.perfstat && !tools.perf {
        let t = xtask::refusal(o, tools)->0;
        assert(t.subrange(0, 15) =~= "perfstat regime"@);
    } else if o.intents.plots && !tools.gnuplot {
        let t = xtask::refusal(o, tools)->0;
        assert(t.subrange(0, 12) =~= "plots regime"@);
    } else if xtask::refusal(o, tools) is Some {
        let t = xtask::refusal(o, tools)->0;
        assert(t.subrange(0, 12) =~= "--flamegraph"@);
    }
}

} // verus!
