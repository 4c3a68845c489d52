//! What a reader finds in a report.
use super::artifacts;
use super::comparison;
use super::comparison::{CompRow, Metric, Verdict};
use super::env;
use super::env::RunEnv;
use super::iters::Iters;
use super::laws;
use super::report;
use super::report::{DeltaRow, Report, SampleView, Section};
use super::stats::ArrivalModel;
use super::suite;
use crate::text;
use vstd::prelude::*;

verus! {

proof fn lemma_in_front(middle: Seq<char>, b: Seq<char>, part: Seq<char>)
    requires
        env::holds_text(middle, part),
    ensures
        env::holds_text(middle + b, part),
{
    env::lemma_holds_inside(Seq::empty(), middle, b, part);
    assert(Seq::<char>::empty() + middle + b =~= middle + b);
}

proof fn lemma_behind(a: Seq<char>, middle: Seq<char>, part: Seq<char>)
    requires
        env::holds_text(middle, part),
    ensures
        env::holds_text(a + middle, part),
{
    env::lemma_holds_inside(a, middle, Seq::empty(), part);
    assert(a + middle + Seq::<char>::empty() =~= a + middle);
}

proof fn lemma_itself(a: Seq<char>)
    ensures
        env::holds_text(a, a),
{
    env::lemma_holds_middle(Seq::empty(), a, Seq::empty());
    assert(Seq::<char>::empty() + a + Seq::<char>::empty() =~= a);
}

proof fn lemma_row_in_table(samples: Seq<SampleView>, j: int)
    requires
        0 <= j < samples.len(),
    ensures
        env::holds_text(report::table_lines(samples), report::table_line(samples[j])),
    decreases samples.len(),
{
    let front = samples.drop_last();
    let row = report::table_line(samples[j]);
    if j == samples.len() - 1 {
        env::lemma_holds_middle(report::table_lines(front), row, "\n"@);
    } else {
        lemma_row_in_table(front, j);
        lemma_in_front(
            report::table_lines(front),
            report::table_line(samples.last()),
            row,
        );
        lemma_in_front(
            report::table_lines(front) + report::table_line(samples.last()),
            "\n"@,
            row,
        );
    }
}

proof fn lemma_section_in_sections(sections: Seq<Section>, i: int)
    requires
        0 <= i < sections.len(),
    ensures
        env::holds_text(report::sections_text(sections), report::section_text(sections[i])),
    decreases sections.len(),
{
    let front = sections.drop_last();
    let part = report::section_text(sections[i]);
    if i == sections.len() - 1 {
        lemma_itself(part);
        lemma_behind(report::sections_text(front), part, part);
    } else {
        lemma_section_in_sections(front, i);
        lemma_in_front(
            report::sections_text(front),
            report::section_text(sections.last()),
            part,
        );
    }
}

proof fn lemma_delta_in_lines(deltas: Seq<DeltaRow>, i: int)
    requires
        0 <= i < deltas.len(),
    ensures
        env::holds_text(report::delta_lines(deltas), report::delta_line(deltas[i])),
    decreases deltas.len(),
{
    let front = deltas.drop_last();
    let line = report::delta_line(deltas[i]);
    if i == deltas.len() - 1 {
        lemma_itself(line);
        lemma_behind(report::delta_lines(front), line, line);
    } else {
        lemma_delta_in_lines(front, i);
        lemma_in_front(report::delta_lines(front), report::delta_line(deltas.last()), line);
    }
}

proof fn lemma_holds_transitive(whole: Seq<char>, middle: Seq<char>, part: Seq<char>)
    requires
        env::holds_text(whole, middle),
        env::holds_text(middle, part),
    ensures
        env::holds_text(whole, part),
{
    let at = choose|at: int| #[trigger] text::occurs_at(whole, at, middle);
    let a = whole.take(at);
    let b = whole.skip(at + middle.len());
    assert(a + middle + b =~= whole);
    env::lemma_holds_inside(a, middle, b, part);
}

proof fn lemma_sections_in_report(r: Report, part: Seq<char>)
    requires
        env::holds_text(report::sections_text(r.sections@), part),
    ensures
        env::holds_text(report::markdown_of(r), part),
{
    let whole = report::markdown_of(r);
    let head = env::header_of(r.env, r.title@, r.scope@) + if r.sections@.len() > 0 {
        "- `inv-cs`/`maj-flt`: involuntary context switches / major page faults during that scenario's measure phase. Nonzero marks a tail spike as OS noise.\n"@
    } else {
        Seq::empty()
    };
    let middle = report::sections_text(r.sections@);
    let tail = whole.skip((head.len() + middle.len()) as int);
    env::lemma_holds_inside(head, middle, tail, part);
    assert(head + middle + tail =~= whole);
}

/// A report shows every section under its title, with the stamp that says how it was
/// measured, and in it a row for every scenario.
pub proof fn law_report_shows_every_scenario(r: Report, i: int, j: int)
    requires
        0 <= i < r.sections@.len(),
        0 <= j < r.sections@[i].samples@.len(),
    ensures
        env::holds_text(report::markdown_of(r), r.sections@[i].title@),
        env::holds_text(
            report::markdown_of(r),
            report::measured_stamp(r.sections@[i].samples@),
        ),
        env::holds_text(
            report::markdown_of(r),
            report::table_line(r.sections@[i].samples@[j]),
        ),
{
    let section = r.sections@[i];
    let whole = report::section_text(section);
    lemma_section_in_sections(r.sections@, i);
    let rows = report::table_lines(section.samples@);
    let row = report::table_line(section.samples@[j]);
    lemma_row_in_table(section.samples@, j);
    let head = whole.take(whole.len() - rows.len());
    lemma_behind(head, rows, row);
    assert(head + rows =~= whole);
    let stamp = report::measured_stamp(section.samples@);
    let title_end = ("\n**"@.len() + section.title@.len()) as int;
    let stamp_at = title_end + "**  _"@.len();
    env::lemma_holds_middle("\n**"@, section.title@, whole.skip(title_end));
    assert("\n**"@ + section.title@ + whole.skip(title_end) =~= whole);
    env::lemma_holds_middle(whole.take(stamp_at), stamp, whole.skip(stamp_at + stamp.len()));
    assert(whole.take(stamp_at) + stamp + whole.skip(stamp_at + stamp.len()) =~= whole);
    lemma_holds_transitive(report::sections_text(r.sections@), whole, row);
    lemma_holds_transitive(report::sections_text(r.sections@), whole, section.title@);
    lemma_holds_transitive(report::sections_text(r.sections@), whole, stamp);
    lemma_sections_in_report(r, row);
    lemma_sections_in_report(r, section.title@);
    lemma_sections_in_report(r, stamp);
}

/// A report shows every headline number with its name and its derivation.
pub proof fn law_report_shows_every_headline(r: Report, i: int)
    requires
        0 <= i < r.deltas@.len(),
    ensures
        env::holds_text(
            report::markdown_of(r),
            r.deltas@[i].name@ + " | "@ + text::signed_decimal(r.deltas@[i].value as int) + " | "@
                + r.deltas@[i].note@,
        ),
{
    let d = r.deltas@[i];
    let line = report::delta_line(d);
    let core = d.name@ + " | "@ + text::signed_decimal(d.value as int) + " | "@ + d.note@;
    let lines = report::delta_lines(r.deltas@);
    lemma_delta_in_lines(r.deltas@, i);
    env::lemma_holds_middle("| "@, core, " |\n"@);
    assert("| "@ + core + " |\n"@ =~= line);
    lemma_holds_transitive(lines, line, core);
    let whole = report::markdown_of(r);
    let head = whole.take(whole.len() - lines.len());
    lemma_behind(head, lines, core);
    assert(head + lines =~= whole);
}

/// The row of a scenario begins with its label, and holds its least value, its three
/// percentiles and its noise.
pub proof fn law_row_shows_the_figures(s: SampleView)
    ensures
        text::occurs_at(report::table_line(s), 2, s.figures.label@),
        env::holds_text(
            report::table_line(s),
            " | "@ + text::decimal(s.figures.min as nat) + " | "@ + text::decimal(
                s.figures.p50 as nat,
            ) + " | "@ + text::decimal(s.figures.p99 as nat) + " | "@ + text::decimal(
                s.figures.p99_99 as nat,
            ) + " | "@,
        ),
        env::holds_text(
            report::table_line(s),
            " | "@ + text::decimal(s.stats.ctx_involuntary as nat) + " | "@ + text::decimal(
                s.stats.major_faults as nat,
            ) + " |"@,
        ),
{
    reveal_strlit("| ");
    reveal_strlit("M | ");
    reveal_strlit(" | ");
    let line = report::table_line(s);
    assert(line.subrange(2, 2 + s.figures.label@.len() as int) =~= s.figures.label@);
    let figures = " | "@ + text::decimal(s.figures.min as nat) + " | "@ + text::decimal(
        s.figures.p50 as nat,
    ) + " | "@ + text::decimal(s.figures.p99 as nat) + " | "@ + text::decimal(
        s.figures.p99_99 as nat,
    ) + " | "@;
    let at = 2 + s.figures.label@.len() + 3 + s.count_text@.len();
    assert(line.subrange(at as int, (at + figures.len()) as int) =~= figures);
    assert(text::occurs_at(line, at as int, figures));
    let noise = " | "@ + text::decimal(s.stats.ctx_involuntary as nat) + " | "@ + text::decimal(
        s.stats.major_faults as nat,
    ) + " |"@;
    let tail_at = line.len() - noise.len();
    assert(line.subrange(tail_at, line.len() as int) =~= noise);
    assert(text::occurs_at(line, tail_at, noise));
}

proof fn lemma_row_in_comparison(rows: Seq<CompRow>, i: int)
    requires
        0 <= i < rows.len(),
    ensures
        env::holds_text(comparison::rows_text(rows), comparison::row_text(rows[i])),
    decreases rows.len(),
{
    let front = rows.drop_last();
    let row = comparison::row_text(rows[i]);
    if i == rows.len() - 1 {
        lemma_itself(row);
        lemma_behind(comparison::rows_text(front), row, row);
    } else {
        lemma_row_in_comparison(front, i);
        lemma_in_front(comparison::rows_text(front), comparison::row_text(rows.last()), row);
    }
}

/// A comparison shows every scenario with its label, its regime and its verdict.
pub proof fn law_comparison_shows_every_scenario(rows: Seq<CompRow>, i: int)
    requires
        0 <= i < rows.len(),
    ensures
        env::holds_text(
            comparison::rows_text(rows),
            "| "@ + rows[i].label@ + " | "@ + rows[i].regime@ + " | "@,
        ),
        env::holds_text(
            comparison::rows_text(rows),
            comparison::verdict_text(rows[i].verdict, rows[i].driver),
        ),
{
    let r = rows[i];
    let row = comparison::row_text(r);
    lemma_row_in_comparison(rows, i);
    let head = "| "@ + r.label@ + " | "@ + r.regime@ + " | "@;
    let tail = row.skip(head.len() as int);
    env::lemma_holds_middle(Seq::empty(), head, tail);
    assert(Seq::<char>::empty() + head + tail =~= row);
    lemma_holds_transitive(comparison::rows_text(rows), row, head);
    let verdict = comparison::verdict_text(r.verdict, r.driver);
    let at = row.len() - verdict.len() - " |\n"@.len();
    env::lemma_holds_middle(row.take(at), verdict, " |\n"@);
    assert(row.take(at) + verdict + " |\n"@ =~= row);
    lemma_holds_transitive(comparison::rows_text(rows), row, verdict);
}

/// Verdicts read differently, and a verdict that a figure decided names the figure.
pub proof fn law_verdicts_read_differently(verdict: Verdict, driver: Option<Metric>)
    ensures
        verdict == Verdict::Improved ==> comparison::verdict_text(verdict, driver)[0] == '✓',
        verdict == Verdict::Regressed ==> comparison::verdict_text(verdict, driver)[0] == '✗',
        verdict == Verdict::WithinNoise ==> comparison::verdict_text(verdict, driver)[0] == '·',
        verdict == Verdict::Incomparable ==> comparison::verdict_text(verdict, driver)[0] == '?',
        (verdict == Verdict::Improved || verdict == Verdict::Regressed) && driver is Some
            ==> env::holds_text(
            comparison::verdict_text(verdict, driver),
            match driver->0 {
                Metric::P50 => "(p50)"@,
                Metric::P99 => "(p99)"@,
                Metric::P99_99 => "(p99.99)"@,
            },
        ),
{
    reveal_strlit("✓ improved (");
    reveal_strlit("✓ improved");
    reveal_strlit("✗ REGRESSED (");
    reveal_strlit("✗ REGRESSED");
    reveal_strlit("· within noise");
    reveal_strlit("? incomparable");
    reveal_strlit("(p50)");
    reveal_strlit("(p99)");
    reveal_strlit("(p99.99)");
    reveal_strlit("p50");
    reveal_strlit("p99");
    reveal_strlit("p99.99");
    reveal_strlit(")");
    let t = comparison::verdict_text(verdict, driver);
    if driver is Some {
        let word = match driver->0 {
            Metric::P50 => "(p50)"@,
            Metric::P99 => "(p99)"@,
            Metric::P99_99 => "(p99.99)"@,
        };
        if verdict == Verdict::Improved {
            assert(t.subrange(11, t.len() as int) =~= word);
            assert(text::occurs_at(t, 11, word));
        } else if verdict == Verdict::Regressed {
            assert(t.subrange(12, t.len() as int) =~= word);
            assert(text::occurs_at(t, 12, word));
        }
    }
}

/// The two regimes have different words in rows.
pub proof fn law_regimes_have_their_words(m: ArrivalModel)
    ensures
        m is BackToBack <==> report::regime_word(m) == "back_to_back"@,
        m is OpenLoop <==> report::regime_word(m) == "open_loop"@,
{
    reveal_strlit("back_to_back");
    reveal_strlit("open_loop");
    assert("back_to_back"@.len() == 12 && "open_loop"@.len() == 9);
}

/// A section driven back to back says so, and one on a schedule names its interval.
pub proof fn law_stamp_names_the_regime(samples: Seq<SampleView>)
    requires
        samples.len() > 0,
    ensures
        match samples[0].arrival_model {
            ArrivalModel::BackToBack => env::holds_text(
                report::measured_stamp(samples),
                "back-to-back"@,
            ),
            ArrivalModel::OpenLoop { interval_ns } => env::holds_text(
                report::measured_stamp(samples),
                "open-loop @ "@ + text::decimal(interval_ns as nat) + "ns interval"@,
            ),
        },
{
    report::law_stamp_tells_what_is_wrong(samples);
    let stamp = report::measured_stamp(samples);
    let word = report::measured_word(samples);
    assert(text::occurs_at(stamp, 0, word));
    assert(env::holds_text(stamp, word));
    match samples[0].arrival_model {
        ArrivalModel::BackToBack => {
            reveal_strlit("back-to-back");
            reveal_strlit("measured under: back-to-back (service time)");
            assert(word.subrange(16, 28) =~= "back-to-back"@);
            assert(text::occurs_at(word, 16, "back-to-back"@));
            lemma_holds_transitive(stamp, word, "back-to-back"@);
        },
        ArrivalModel::OpenLoop { interval_ns } => {
            reveal_strlit("measured under: open-loop @ ");
            reveal_strlit("ns interval (CO-corrected latency under load)");
            reveal_strlit("open-loop @ ");
            reveal_strlit("ns interval");
            let n = text::decimal(interval_ns as nat);
            let part = "open-loop @ "@ + n + "ns interval"@;
            assert(word.subrange(16, 16 + part.len() as int) =~= part);
            assert(text::occurs_at(word, 16, part));
            lemma_holds_transitive(stamp, word, part);
        },
    }
}

/// The scope of a suite names the number of its scenarios and both iteration counts.
pub proof fn law_scope_names_the_counts(scenarios: nat, iters: Iters)
    ensures
        env::holds_text(
            suite::scope_text(scenarios, iters),
            text::decimal(scenarios) + " scenario(s)"@,
        ),
        env::holds_text(
            suite::scope_text(scenarios, iters),
            "warmup "@ + text::decimal(iters.warmup as nat) + " / measure "@ + text::decimal(
                iters.measure as nat,
            ),
        ),
{
    reveal_strlit("engine-internal `op()` latency; ");
    reveal_strlit(" scenario(s). rdtscp-fenced, warmup ");
    reveal_strlit(" scenario(s)");
    reveal_strlit("warmup ");
    let whole = suite::scope_text(scenarios, iters);
    let lead = "engine-internal `op()` latency; "@.len() as int;
    let count = text::decimal(scenarios) + " scenario(s)"@;
    assert(whole.subrange(lead, lead + count.len()) =~= count);
    assert(text::occurs_at(whole, lead, count));
    let counts = "warmup "@ + text::decimal(iters.warmup as nat) + " / measure "@ + text::decimal(
        iters.measure as nat,
    );
    let at = lead + text::decimal(scenarios).len() + 29;
    assert(whole.subrange(at, at + counts.len()) =~= counts);
    assert(text::occurs_at(whole, at, counts));
}

/// The cell of a figure shows what both runs have, the earlier one first, and the
/// change where there is something to compare with.
pub proof fn law_cell_shows_both_figures(base: Option<u64>, cur: Option<u64>, pct: Seq<char>)
    ensures
        base is Some ==> text::occurs_at(
            comparison::cell_text(base, cur, pct),
            0,
            text::decimal(base->0 as nat).push('→'),
        ),
        base is None && cur is Some ==> comparison::cell_text(base, cur, pct) == seq!['—', '→']
            + text::decimal(cur->0 as nat),
        base is Some && cur is Some ==> text::occurs_at(
            comparison::cell_text(base, cur, pct),
            text::decimal(base->0 as nat).len() as int + 1,
            text::decimal(cur->0 as nat),
        ),
        base is Some && cur is Some ==> (base->0 > 0 <==> comparison::cell_text(base, cur, pct).len()
            > text::decimal(base->0 as nat).len() + 1 + text::decimal(cur->0 as nat).len()),
        base is Some && cur is Some && base->0 > 0 ==> env::holds_text(
            comparison::cell_text(base, cur, pct),
            pct,
        ),
{
    reveal_strlit("→");
    reveal_strlit(" (");
    reveal_strlit(")");
    reveal_strlit("→—");
    reveal_strlit("—→");
    let t = comparison::cell_text(base, cur, pct);
    match (base, cur) {
        (Some(b), Some(c)) => {
            let x = text::decimal(b as nat);
            let y = text::decimal(c as nat);
            assert(t.subrange(0, x.len() as int + 1) =~= x.push('→'));
            assert(t.subrange(x.len() as int + 1, x.len() as int + 1 + y.len()) =~= y);
            if b > 0 {
                let at = x.len() as int + 1 + y.len() + 2;
                assert(t.subrange(at, at + pct.len()) =~= pct);
                assert(text::occurs_at(t, at, pct));
            }
        },
        (Some(b), None) => {
            let x = text::decimal(b as nat);
            assert(t.subrange(0, x.len() as int + 1) =~= x.push('→'));
        },
        (None, Some(c)) => {
            assert("—→"@ =~= seq!['—', '→']);
        },
        (None, None) => {},
    }
}

/// The header of a report tells what code was measured and how it was built, and the
/// state of the machine.
pub proof fn law_header_tells_the_state(e: RunEnv, title: Seq<char>, scope: Seq<char>)
    ensures
        env::holds_text(env::header_of(e, title, scope), e.cpu_model@),
        env::holds_text(env::header_of(e, title, scope), env::code_line(e)),
        env::holds_text(env::header_of(e, title, scope), env::build_line(e)),
        env::holds_text(env::header_of(e, title, scope), env::machine_line(e)),
        env::holds_text(env::header_of(e, title, scope), env::clock_line(e)),
{
    let p0 = "# "@ + title + " — "@ + e.stamp@ + " UTC (unix "@ + text::decimal(
        e.unix_secs as nat,
    ) + ")\n\n**Hardware:** "@;
    let p1 = p0 + e.cpu_model@;
    let p2 = p1 + "\n"@;
    let p3 = p2 + env::code_line(e);
    let p4 = p3 + env::build_line(e);
    let p5 = p4 + env::machine_line(e);
    let p6 = p5 + env::clock_line(e);
    lemma_itself(e.cpu_model@);
    lemma_behind(p0, e.cpu_model@, e.cpu_model@);
    lemma_in_front(p1, "\n"@, e.cpu_model@);
    lemma_in_front(p2, env::code_line(e), e.cpu_model@);
    lemma_in_front(p3, env::build_line(e), e.cpu_model@);
    lemma_in_front(p4, env::machine_line(e), e.cpu_model@);
    lemma_in_front(p5, env::clock_line(e), e.cpu_model@);
    lemma_header_rest(e, p6, scope, e.cpu_model@);
    lemma_itself(env::code_line(e));
    lemma_behind(p2, env::code_line(e), env::code_line(e));
    lemma_in_front(p3, env::build_line(e), env::code_line(e));
    lemma_in_front(p4, env::machine_line(e), env::code_line(e));
    lemma_in_front(p5, env::clock_line(e), env::code_line(e));
    lemma_header_rest(e, p6, scope, env::code_line(e));
    lemma_itself(env::build_line(e));
    lemma_behind(p3, env::build_line(e), env::build_line(e));
    lemma_in_front(p4, env::machine_line(e), env::build_line(e));
    lemma_in_front(p5, env::clock_line(e), env::build_line(e));
    lemma_header_rest(e, p6, scope, env::build_line(e));
    lemma_itself(env::machine_line(e));
    lemma_behind(p4, env::machine_line(e), env::machine_line(e));
    lemma_in_front(p5, env::clock_line(e), env::machine_line(e));
    lemma_header_rest(e, p6, scope, env::machine_line(e));
    lemma_itself(env::clock_line(e));
    lemma_behind(p5, env::clock_line(e), env::clock_line(e));
    lemma_header_rest(e, p6, scope, env::clock_line(e));
}

/// What the first part of a header holds, the header holds.
proof fn lemma_header_rest(e: RunEnv, p: Seq<char>, scope: Seq<char>, part: Seq<char>)
    requires
        env::holds_text(p, part),
    ensures
        env::holds_text(
            p + "- TSC rate ~"@ + e.tsc_ghz@ + " GHz\n- scope: "@ + scope
                + "\n- latencies in **ns**; `M/s` is derived `1/mean` (single-core upper bound, not sustained). Read p50 first.\n"@
                + env::warning_lines(env::warnings_of(e)),
            part,
        ),
{
    let a = p + "- TSC rate ~"@;
    let b = a + e.tsc_ghz@;
    let c = b + " GHz\n- scope: "@;
    let d = c + scope;
    let note = "\n- latencies in **ns**; `M/s` is derived `1/mean` (single-core upper bound, not sustained). Read p50 first.\n"@;
    lemma_in_front(p, "- TSC rate ~"@, part);
    lemma_in_front(a, e.tsc_ghz@, part);
    lemma_in_front(b, " GHz\n- scope: "@, part);
    lemma_in_front(c, scope, part);
    lemma_in_front(d, note, part);
    lemma_in_front(d + note, env::warning_lines(env::warnings_of(e)), part);
}

/// The lines of the header name the commit and whether files were changed since, the
/// compiler and the profile, the governor and the affinity, and the limits of the
/// clock where they are known.
pub proof fn law_header_lines_name_what_they_tell(e: RunEnv)
    ensures
        e.commit is Some ==> env::holds_text(env::code_line(e), e.commit->0@),
        e.commit is Some && e.dirty ==> env::holds_text(env::code_line(e), "dirty"@),
        e.commit is Some && !e.dirty ==> env::code_line(e).len() == e.commit->0@.len() + 11,
        env::holds_text(env::build_line(e), e.rustc@),
        env::holds_text(env::build_line(e), e.profile@),
        env::holds_text(env::build_line(e), e.rustflags@),
        env::holds_text(env::machine_line(e), e.governor@),
        env::holds_text(env::machine_line(e), e.affinity@),
        env::holds_text(env::machine_line(e), e.isolated@),
        e.pinned ==> env::holds_text(env::machine_line(e), "(pinned ✓)"@),
        !e.pinned ==> env::holds_text(env::machine_line(e), "(NOT pinned ⚠)"@),
        e.bench_core is Some && e.clock_min_khz is Some && e.clock_max_khz is Some
            ==> env::holds_text(
            env::clock_line(e),
            "min="@ + text::decimal(e.clock_min_khz->0 as nat) + " max="@ + text::decimal(
                e.clock_max_khz->0 as nat,
            ) + " kHz"@,
        ),
{
    lemma_code_line(e);
    lemma_build_line(e);
    lemma_machine_line(e);
    lemma_clock_line(e);
}

proof fn lemma_code_line(e: RunEnv)
    ensures
        e.commit is Some ==> env::holds_text(env::code_line(e), e.commit->0@),
        e.commit is Some && e.dirty ==> env::holds_text(env::code_line(e), "dirty"@),
        e.commit is Some && !e.dirty ==> env::code_line(e).len() == e.commit->0@.len() + 11,
{
    reveal_strlit("- code: `");
    reveal_strlit("`\n");
    reveal_strlit("` + uncommitted changes (dirty)\n");
    reveal_strlit("dirty");
    let line = env::code_line(e);
    if e.commit is Some {
        let sha = e.commit->0@;
        assert(line.subrange(9, 9 + sha.len() as int) =~= sha);
        assert(text::occurs_at(line, 9, sha));
        if e.dirty {
            let at = 9 + sha.len() as int + 25;
            assert(line.subrange(at, at + 5) =~= "dirty"@);
            assert(text::occurs_at(line, at, "dirty"@));
        }
    }
}

proof fn lemma_build_line(e: RunEnv)
    ensures
        env::holds_text(env::build_line(e), e.rustc@),
        env::holds_text(env::build_line(e), e.profile@),
        env::holds_text(env::build_line(e), e.rustflags@),
{
    let line = env::build_line(e);
    let at = "- build: "@.len() as int;
    assert(line.subrange(at, at + e.rustc@.len()) =~= e.rustc@);
    assert(text::occurs_at(line, at, e.rustc@));
    let next = at + e.rustc@.len() + " · profile `"@.len();
    assert(line.subrange(next, next + e.profile@.len()) =~= e.profile@);
    assert(text::occurs_at(line, next, e.profile@));
    if e.rustflags@.len() == 0 {
        assert(line.subrange(0, 0) =~= e.rustflags@);
        assert(text::occurs_at(line, 0, e.rustflags@));
    } else {
        let last = next + e.profile@.len() + "` · rustflags "@.len() + "`"@.len();
        assert(line.subrange(last, last + e.rustflags@.len()) =~= e.rustflags@);
        assert(text::occurs_at(line, last, e.rustflags@));
    }
}

proof fn lemma_machine_line(e: RunEnv)
    ensures
        env::holds_text(env::machine_line(e), e.governor@),
        env::holds_text(env::machine_line(e), e.affinity@),
        env::holds_text(env::machine_line(e), e.isolated@),
        e.pinned ==> env::holds_text(env::machine_line(e), "(pinned ✓)"@),
        !e.pinned ==> env::holds_text(env::machine_line(e), "(NOT pinned ⚠)"@),
{
    let line = env::machine_line(e);
    let at = "- governor `"@.len() as int;
    assert(line.subrange(at, at + e.governor@.len()) =~= e.governor@);
    assert(text::occurs_at(line, at, e.governor@));
    let cores = at + e.governor@.len() + "` · turbo `"@.len() + env::turbo_word(e.turbo).len()
        + "` · isolated cores `"@.len();
    assert(line.subrange(cores, cores + e.isolated@.len()) =~= e.isolated@);
    assert(text::occurs_at(line, cores, e.isolated@));
    let list = cores + e.isolated@.len() + "` · affinity `"@.len();
    assert(line.subrange(list, list + e.affinity@.len()) =~= e.affinity@);
    assert(text::occurs_at(line, list, e.affinity@));
    let mark = list + e.affinity@.len() + "` "@.len();
    reveal_strlit("(pinned ✓)\n");
    reveal_strlit("(pinned ✓)");
    reveal_strlit("(NOT pinned ⚠)\n");
    reveal_strlit("(NOT pinned ⚠)");
    if e.pinned {
        assert(line.subrange(mark, mark + 10) =~= "(pinned ✓)"@);
        assert(text::occurs_at(line, mark, "(pinned ✓)"@));
    } else {
        assert(line.subrange(mark, mark + 14) =~= "(NOT pinned ⚠)"@);
        assert(text::occurs_at(line, mark, "(NOT pinned ⚠)"@));
    }
}

proof fn lemma_clock_line(e: RunEnv)
    ensures
        e.bench_core is Some && e.clock_min_khz is Some && e.clock_max_khz is Some
            ==> env::holds_text(
            env::clock_line(e),
            "min="@ + text::decimal(e.clock_min_khz->0 as nat) + " max="@ + text::decimal(
                e.clock_max_khz->0 as nat,
            ) + " kHz"@,
        ),
{
    if e.bench_core is Some && e.clock_min_khz is Some && e.clock_max_khz is Some {
        reveal_strlit(" scaling min=");
        reveal_strlit("min=");
        reveal_strlit(" kHz ");
        reveal_strlit(" kHz");
        let line = env::clock_line(e);
        let part = "min="@ + text::decimal(e.clock_min_khz->0 as nat) + " max="@ + text::decimal(
            e.clock_max_khz->0 as nat,
        ) + " kHz"@;
        let at = "- clock: cpu"@.len() as int + text::decimal(e.bench_core->0 as nat).len() + 9;
        assert(line.subrange(at, at + part.len()) =~= part);
        assert(text::occurs_at(line, at, part));
    }
}

/// Every scenario of a report has a file label, in the order of the report.
pub proof fn law_every_scenario_has_a_file_label(sections: Seq<Section>)
    ensures
        artifacts::labels_of(sections).len() == laws::scenarios(sections).len(),
        forall|i: int|
            0 <= i < laws::scenarios(sections).len() ==> #[trigger] artifacts::labels_of(sections)[i]
                == artifacts::file_label(laws::scenarios(sections)[i].figures.label@),
    decreases sections.len(),
{
    if sections.len() > 0 {
        let front = sections.drop_last();
        law_every_scenario_has_a_file_label(front);
        let n = laws::scenarios(front).len();
        let last = sections.last().samples@;
        assert forall|i: int| 0 <= i < laws::scenarios(sections).len() implies (
        #[trigger] artifacts::labels_of(sections)[i]) == artifacts::file_label(
            laws::scenarios(sections)[i].figures.label@,
        ) by {
            if i < n {
                assert(artifacts::labels_of(sections)[i] == artifacts::labels_of(front)[i]);
                assert(laws::scenarios(sections)[i] == laws::scenarios(front)[i]);
            } else {
                assert(artifacts::labels_of(sections)[i] == artifacts::sample_labels(last)[i - n]);
                assert(laws::scenarios(sections)[i] == last[i - n]);
            }
        }
    }
}

} // verus!
