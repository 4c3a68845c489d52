//! What reports and comparisons promise of each other.
use super::comparison;
use super::comparison::{Key, Metrics, PairRow};
use super::report;
use super::report::{Report, SampleView, Section};
use crate::text;
use vstd::prelude::*;

verus! {

/// `s` does not hold `c`.
pub open spec fn lacks(s: Seq<char>, c: char) -> bool {
    forall|i: int| 0 <= i < s.len() ==> #[trigger] s[i] != c
}

/// The texts of the scenario hold nothing that separates fields or rows.
pub open spec fn is_plain(s: SampleView) -> bool {
    &&& lacks(s.figures.label@, ',') && lacks(s.figures.label@, '\n')
    &&& lacks(s.figures.throughput_text@, ',') && lacks(s.figures.throughput_text@, '\n')
}

/// The scenarios of some sections, in order.
pub open spec fn scenarios(sections: Seq<Section>) -> Seq<SampleView>
    decreases sections.len(),
{
    if sections.len() == 0 {
        Seq::empty()
    } else {
        scenarios(sections.drop_last()) + sections.last().samples@
    }
}

/// The label and the regime of a scenario.
pub open spec fn key_of(s: SampleView) -> Key {
    (s.figures.label@, report::regime_word(s.arrival_model))
}

/// The compared figures of a scenario.
pub open spec fn metrics_of(s: SampleView) -> Metrics {
    Metrics { p50: s.figures.p50, p99: s.figures.p99, p99_99: s.figures.p99_99 }
}

/// The figures of some scenarios by label and regime; of two scenarios with the
/// same ones the later counts.
pub open spec fn figures(samples: Seq<SampleView>) -> Map<Key, Metrics>
    decreases samples.len(),
{
    if samples.len() == 0 {
        Map::empty()
    } else {
        figures(samples.drop_last()).insert(key_of(samples.last()), metrics_of(samples.last()))
    }
}

/// Where a text lacks `c` up to `i` and has it there, `i` is the first place.
proof fn lemma_first_place(s: Seq<char>, c: char, i: int, at: int)
    requires
        0 <= at <= i <= s.len(),
        forall|k: int| at <= k < i ==> #[trigger] s[k] != c,
        i < s.len() ==> s[i] == c,
    ensures
        text::next_place(s, c, at) == i,
    decreases i - at,
{
    if at < i {
        assert(s[at] != c);
        lemma_first_place(s, c, i, at + 1);
    }
}

/// A field without the separator, put behind a text with a separator between, is
/// the last field of the whole.
proof fn lemma_split_append(a: Seq<char>, sep: char, b: Seq<char>)
    requires
        lacks(b, sep),
    ensures
        text::split_on(a + seq![sep] + b, sep) == text::split_on(a, sep).push(b),
    decreases a.len(),
{
    let whole = a + seq![sep] + b;
    let i = text::next_place(a, sep, 0);
    text::lemma_next_place(a, sep, 0);
    assert forall|k: int| 0 <= k < i implies #[trigger] whole[k] != sep by {
        assert(whole[k] == a[k]);
    }
    assert(whole[i] == sep);
    lemma_first_place(whole, sep, i, 0);
    assert(whole.take(i) =~= a.take(i));
    if i < a.len() {
        assert(whole.skip(i + 1) =~= a.skip(i + 1) + seq![sep] + b);
        lemma_split_append(a.skip(i + 1), sep, b);
        assert(seq![a.take(i)] + text::split_on(a.skip(i + 1), sep).push(b) =~= (seq![a.take(i)]
            + text::split_on(a.skip(i + 1), sep)).push(b));
    } else {
        assert(a.take(i) =~= a);
        assert(whole.skip(i + 1) =~= b);
        lemma_split_single(a, sep);
        lemma_split_single(b, sep);
        assert(seq![a] + seq![b] =~= seq![a].push(b));
    }
}

/// A text without the separator is its only field.
proof fn lemma_split_single(a: Seq<char>, sep: char)
    requires
        lacks(a, sep),
    ensures
        text::split_on(a, sep) == seq![a],
{
    lemma_first_place(a, sep, a.len() as int, 0);
}

/// The text is empty or ends with a line end.
pub open spec fn whole_lines(s: Seq<char>) -> bool {
    s.len() == 0 || s.last() == '\n'
}

/// A line put behind whole lines is the last line of the whole.
proof fn lemma_lines_append(a: Seq<char>, b: Seq<char>)
    requires
        whole_lines(a),
        lacks(b, '\n'),
        b.len() > 0,
        b.last() != '\r',
    ensures
        text::lines_of(a + (b + seq!['\n'])) == text::lines_of(a).push(b),
        whole_lines(a + (b + seq!['\n'])),
    decreases a.len(),
{
    let whole = a + (b + seq!['\n']);
    if a.len() == 0 {
        assert forall|k: int| 0 <= k < b.len() implies #[trigger] whole[k] != '\n' by {
            assert(whole[k] == b[k]);
        }
        lemma_first_place(whole, '\n', b.len() as int, 0);
        assert(whole.take(b.len() as int) =~= b);
        assert(whole.skip(b.len() as int + 1) =~= Seq::empty());
        assert(text::lines_of(Seq::empty()) =~= Seq::empty());
        assert(text::lines_of(whole) =~= seq![b]);
        assert(text::lines_of(a).push(b) =~= seq![b]);
    } else {
        let i = text::next_place(a, '\n', 0);
        text::lemma_next_place(a, '\n', 0);
        assert(i < a.len()) by {
            if i == a.len() {
                assert(a[a.len() - 1] != '\n');
            }
        }
        assert forall|k: int| 0 <= k < i implies #[trigger] whole[k] != '\n' by {
            assert(whole[k] == a[k]);
        }
        assert(whole[i] == '\n');
        lemma_first_place(whole, '\n', i, 0);
        assert(whole.take(i) =~= a.take(i));
        let rest = a.skip(i + 1);
        assert(rest.len() > 0 ==> rest.last() == a.last());
        assert(whole.skip(i + 1) =~= rest + (b + seq!['\n']));
        lemma_lines_append(rest, b);
        let first = text::without_cr(a.take(i));
        assert(seq![first] + text::lines_of(rest).push(b) =~= (seq![first] + text::lines_of(
            rest,
        )).push(b));
    }
}

/// The decimal notation of a number consists of digits.
proof fn lemma_decimal_is_plain(n: nat)
    ensures
        lacks(text::decimal(n), ','),
        lacks(text::decimal(n), '\n'),
        text::decimal(n).len() > 0,
        text::decimal(n).last() != '\r',
    decreases n,
{
    if n >= 10 {
        lemma_decimal_is_plain(n / 10);
        let front = text::decimal(n / 10);
        assert forall|i: int| 0 <= i < text::decimal(n).len() implies #[trigger] text::decimal(n)[i]
            != ',' && text::decimal(n)[i] != '\n' by {
            if i < front.len() {
                assert(text::decimal(n)[i] == front[i]);
            }
        }
    }
}

proof fn lemma_regime_is_plain(s: SampleView)
    ensures
        lacks(report::regime_word(s.arrival_model), ','),
        lacks(report::regime_word(s.arrival_model), '\n'),
        report::regime_word(s.arrival_model).len() > 0,
        !text::is_white(report::regime_word(s.arrival_model)[0]),
{
    reveal_strlit("back_to_back");
    reveal_strlit("open_loop");
}

/// The fields of the row of a scenario.
pub open spec fn fields_of(s: SampleView) -> Seq<Seq<char>> {
    seq![
        report::regime_word(s.arrival_model),
        s.figures.label@,
        text::decimal(s.figures.count as nat),
        text::decimal(s.figures.min as nat),
        text::decimal(s.figures.p50 as nat),
        text::decimal(s.figures.p99 as nat),
        text::decimal(s.figures.p99_99 as nat),
        text::decimal(s.figures.max as nat),
        s.figures.throughput_text@,
        text::decimal(s.stats.ctx_voluntary as nat),
        text::decimal(s.stats.ctx_involuntary as nat),
        text::decimal(s.stats.minor_faults as nat),
        text::decimal(s.stats.major_faults as nat),
    ]
}

/// Some fields with commas between them.
pub open spec fn joined(f: Seq<Seq<char>>) -> Seq<char>
    decreases f.len(),
{
    if f.len() == 0 {
        Seq::empty()
    } else if f.len() == 1 {
        f[0]
    } else {
        joined(f.drop_last()) + seq![','] + f.last()
    }
}

/// Joined fields are split into the same fields again.
proof fn lemma_joined_split(f: Seq<Seq<char>>)
    requires
        f.len() > 0,
        forall|i: int| 0 <= i < f.len() ==> lacks(#[trigger] f[i], ','),
    ensures
        text::split_on(joined(f), ',') == f,
    decreases f.len(),
{
    if f.len() == 1 {
        lemma_split_single(f[0], ',');
        assert(seq![f[0]] =~= f);
    } else {
        let front = f.drop_last();
        assert forall|i: int| 0 <= i < front.len() implies lacks(#[trigger] front[i], ',') by {
            assert(front[i] == f[i]);
        }
        lemma_joined_split(front);
        assert(lacks(f[f.len() - 1], ','));
        lemma_split_append(joined(front), ',', f.last());
        assert(front.push(f.last()) =~= f);
    }
}

/// Joined fields lack what every field lacks.
proof fn lemma_joined_lacks(f: Seq<Seq<char>>, c: char)
    requires
        c != ',',
        forall|i: int| 0 <= i < f.len() ==> lacks(#[trigger] f[i], c),
    ensures
        lacks(joined(f), c),
    decreases f.len(),
{
    if f.len() > 1 {
        let front = f.drop_last();
        assert forall|i: int| 0 <= i < front.len() implies lacks(#[trigger] front[i], c) by {
            assert(front[i] == f[i]);
        }
        lemma_joined_lacks(front, c);
        assert(lacks(f[f.len() - 1], c));
    } else if f.len() == 1 {
        assert(lacks(f[0], c));
    }
}

/// Joined fields begin with the first field.
proof fn lemma_joined_begins(f: Seq<Seq<char>>)
    requires
        f.len() > 0,
        f[0].len() > 0,
    ensures
        joined(f).len() > 0,
        joined(f)[0] == f[0][0],
    decreases f.len(),
{
    if f.len() > 1 {
        lemma_joined_begins(f.drop_last());
    }
}

proof fn lemma_fields(s: SampleView)
    requires
        is_plain(s),
    ensures
        forall|i: int| 0 <= i < 13 ==> lacks(#[trigger] fields_of(s)[i], ','),
        forall|i: int| 0 <= i < 13 ==> lacks(#[trigger] fields_of(s)[i], '\n'),
        fields_of(s)[0].len() > 0,
        !text::is_white(fields_of(s)[0][0]),
        fields_of(s).last().len() > 0,
        fields_of(s).last().last() != '\r',
{
    lemma_regime_is_plain(s);
    lemma_decimal_is_plain(s.figures.count as nat);
    lemma_decimal_is_plain(s.figures.min as nat);
    lemma_decimal_is_plain(s.figures.p50 as nat);
    lemma_decimal_is_plain(s.figures.p99 as nat);
    lemma_decimal_is_plain(s.figures.p99_99 as nat);
    lemma_decimal_is_plain(s.figures.max as nat);
    lemma_decimal_is_plain(s.stats.ctx_voluntary as nat);
    lemma_decimal_is_plain(s.stats.ctx_involuntary as nat);
    lemma_decimal_is_plain(s.stats.minor_faults as nat);
    lemma_decimal_is_plain(s.stats.major_faults as nat);
}

/// Concatenation can be grouped from either end.
proof fn lemma_regroup(a: Seq<char>, b: Seq<char>, c: Seq<char>)
    ensures
        a + (b + c) == a + b + c,
{
    assert(a + (b + c) =~= a + b + c);
}

/// The regime and the figures of a scenario are the first nine of its fields.
proof fn lemma_figures_are_joined(s: SampleView)
    ensures
        report::regime_word(s.arrival_model) + ","@ + s.figures.separated(","@) == joined(
            fields_of(s).take(9),
        ),
{
    reveal_strlit(",");
    assert(","@ =~= seq![',']);
    let f = fields_of(s);
    let head = report::regime_word(s.arrival_model) + ","@;
    let p2 = f[1] + ","@;
    let p3 = p2 + f[2] + ","@;
    let p4 = p3 + f[3] + ","@;
    let p5 = p4 + f[4] + ","@;
    let p6 = p5 + f[5] + ","@;
    let p7 = p6 + f[6] + ","@;
    let p8 = p7 + f[7] + ","@;
    lemma_regroup(head, f[1], ","@);
    lemma_regroup(head, p2, f[2]);
    lemma_regroup(head, p2 + f[2], ","@);
    lemma_regroup(head, p3, f[3]);
    lemma_regroup(head, p3 + f[3], ","@);
    lemma_regroup(head, p4, f[4]);
    lemma_regroup(head, p4 + f[4], ","@);
    lemma_regroup(head, p5, f[5]);
    lemma_regroup(head, p5 + f[5], ","@);
    lemma_regroup(head, p6, f[6]);
    lemma_regroup(head, p6 + f[6], ","@);
    lemma_regroup(head, p7, f[7]);
    lemma_regroup(head, p7 + f[7], ","@);
    lemma_regroup(head, p8, f[8]);
    lemma_joined_step(f, 1);
    lemma_joined_step(f, 2);
    lemma_joined_step(f, 3);
    lemma_joined_step(f, 4);
    lemma_joined_step(f, 5);
    lemma_joined_step(f, 6);
    lemma_joined_step(f, 7);
    lemma_joined_step(f, 8);
}

/// The row of a scenario is its fields with commas between, and a line end.
proof fn lemma_line_is_joined(s: SampleView)
    ensures
        report::csv_line(s) == joined(fields_of(s)) + seq!['\n'],
{
    reveal_strlit(",");
    reveal_strlit("\n");
    assert(","@ =~= seq![',']);
    assert("\n"@ =~= seq!['\n']);
    let f = fields_of(s);
    lemma_figures_are_joined(s);
    lemma_joined_step(f, 9);
    lemma_joined_step(f, 10);
    lemma_joined_step(f, 11);
    lemma_joined_step(f, 12);
    assert(f.take(13) =~= f);
}

proof fn lemma_joined_step(f: Seq<Seq<char>>, n: int)
    requires
        0 < n < f.len(),
    ensures
        joined(f.take(n + 1)) == joined(f.take(n)) + seq![','] + f[n],
        n == 1 ==> joined(f.take(n)) == f[0],
{
    assert(f.take(n + 1).drop_last() =~= f.take(n));
}

/// A text that does not begin with white space keeps something when trimmed.
proof fn lemma_trim_keeps(s: Seq<char>)
    requires
        s.len() > 0,
        !text::is_white(s[0]),
    ensures
        text::trim_end(s).len() > 0,
    decreases s.len(),
{
    if text::is_white(s.last()) {
        lemma_trim_keeps(s.drop_last());
    }
}

/// The row of a scenario is read back as the figures of the scenario.
pub proof fn law_row_round_trip(s: SampleView)
    requires
        is_plain(s),
    ensures
        report::csv_line(s) == joined(fields_of(s)) + seq!['\n'],
        comparison::row_of(joined(fields_of(s))) == Some((key_of(s), metrics_of(s))),
{
    lemma_line_is_joined(s);
    lemma_fields(s);
    let f = fields_of(s);
    lemma_joined_split(f);
    lemma_joined_begins(f);
    lemma_trim_keeps(joined(f));
    assert(text::trim_start(joined(f)) == joined(f));
    text::law_decimal_round_trip(s.figures.p50 as nat, u64::MAX as nat);
    text::law_decimal_round_trip(s.figures.p99 as nat, u64::MAX as nat);
    text::law_decimal_round_trip(s.figures.p99_99 as nat, u64::MAX as nat);
}

/// The rows of some scenarios, without line ends.
pub open spec fn bodies(samples: Seq<SampleView>) -> Seq<Seq<char>> {
    samples.map_values(|s: SampleView| joined(fields_of(s)))
}

/// The row of a scenario is one line.
proof fn lemma_row_is_a_line(s: SampleView)
    requires
        is_plain(s),
    ensures
        report::csv_line(s) == joined(fields_of(s)) + seq!['\n'],
        lacks(joined(fields_of(s)), '\n'),
        joined(fields_of(s)).len() > 0,
        joined(fields_of(s)).last() != '\r',
{
    let f = fields_of(s);
    lemma_line_is_joined(s);
    lemma_fields(s);
    lemma_joined_lacks(f, '\n');
    lemma_joined_begins(f);
    lemma_joined_step(f, 12);
    assert(f.take(13) =~= f);
    assert(joined(f).last() == f.last().last());
}

/// The rows of scenarios put behind whole lines are lines of their own.
proof fn lemma_rows_are_lines(a: Seq<char>, samples: Seq<SampleView>)
    requires
        whole_lines(a),
        forall|i: int| 0 <= i < samples.len() ==> is_plain(#[trigger] samples[i]),
    ensures
        text::lines_of(a + report::csv_lines(samples)) == text::lines_of(a) + bodies(samples),
        whole_lines(a + report::csv_lines(samples)),
    decreases samples.len(),
{
    if samples.len() == 0 {
        assert(a + report::csv_lines(samples) =~= a);
        assert(text::lines_of(a) + bodies(samples) =~= text::lines_of(a));
    } else {
        let front = samples.drop_last();
        let s = samples.last();
        assert(is_plain(samples[samples.len() - 1]));
        assert forall|i: int| 0 <= i < front.len() implies is_plain(#[trigger] front[i]) by {
            assert(front[i] == samples[i]);
        }
        lemma_rows_are_lines(a, front);
        let before = a + report::csv_lines(front);
        let row = joined(fields_of(s));
        lemma_row_is_a_line(s);
        lemma_lines_append(before, row);
        assert(a + report::csv_lines(samples) =~= before + (row + seq!['\n']));
        assert(bodies(samples) =~= bodies(front).push(row));
        assert(text::lines_of(a) + bodies(front).push(row) =~= (text::lines_of(a) + bodies(
            front,
        )).push(row));
    }
}

/// The rows of sections put behind whole lines are lines of their own.
proof fn lemma_sections_are_lines(a: Seq<char>, sections: Seq<Section>)
    requires
        whole_lines(a),
        forall|i: int|
            0 <= i < scenarios(sections).len() ==> is_plain(#[trigger] scenarios(sections)[i]),
    ensures
        text::lines_of(a + report::csv_sections(sections)) == text::lines_of(a) + bodies(
            scenarios(sections),
        ),
        whole_lines(a + report::csv_sections(sections)),
    decreases sections.len(),
{
    if sections.len() == 0 {
        assert(a + report::csv_sections(sections) =~= a);
        assert(text::lines_of(a) + bodies(scenarios(sections)) =~= text::lines_of(a));
    } else {
        let front = sections.drop_last();
        let last = sections.last().samples@;
        let all = scenarios(sections);
        assert forall|i: int| 0 <= i < scenarios(front).len() implies is_plain(
            #[trigger] scenarios(front)[i],
        ) by {
            assert(scenarios(front)[i] == all[i]);
        }
        assert forall|i: int| 0 <= i < last.len() implies is_plain(#[trigger] last[i]) by {
            assert(last[i] == all[scenarios(front).len() as int + i]);
        }
        lemma_sections_are_lines(a, front);
        let before = a + report::csv_sections(front);
        lemma_rows_are_lines(before, last);
        assert(a + report::csv_sections(sections) =~= before + report::csv_lines(last));
        assert(text::lines_of(a) + bodies(all) =~= text::lines_of(a) + bodies(scenarios(front))
            + bodies(last));
    }
}

/// Reading the rows of scenarios gives their figures.
proof fn lemma_rows_read_back(samples: Seq<SampleView>)
    requires
        forall|i: int| 0 <= i < samples.len() ==> is_plain(#[trigger] samples[i]),
    ensures
        comparison::rows_of(bodies(samples)) == figures(samples),
    decreases samples.len(),
{
    if samples.len() > 0 {
        let front = samples.drop_last();
        assert forall|i: int| 0 <= i < front.len() implies is_plain(#[trigger] front[i]) by {
            assert(front[i] == samples[i]);
        }
        lemma_rows_read_back(front);
        assert(is_plain(samples[samples.len() - 1]));
        law_row_round_trip(samples.last());
        assert(bodies(samples).drop_last() =~= bodies(front));
        assert(bodies(samples).last() == joined(fields_of(samples.last())));
    } else {
        assert(bodies(samples) =~= Seq::empty());
    }
}

/// The header row is one line.
proof fn lemma_header_is_a_line()
    ensures
        ({
            let header =
                "regime,label,count,min_ns,p50_ns,p99_ns,p99_99_ns,max_ns,msgs_per_sec,ctx_voluntary,ctx_involuntary,minor_faults,major_faults\n"@;
            whole_lines(header) && text::lines_of(header).len() == 1
        }),
{
    reveal_strlit(
        "regime,label,count,min_ns,p50_ns,p99_ns,p99_99_ns,max_ns,msgs_per_sec,ctx_voluntary,ctx_involuntary,minor_faults,major_faults\n",
    );
    let header =
        "regime,label,count,min_ns,p50_ns,p99_ns,p99_99_ns,max_ns,msgs_per_sec,ctx_voluntary,ctx_involuntary,minor_faults,major_faults\n"@;
    let n = header.len() - 1;
    lemma_first_place(header, '\n', n, 0);
    assert(header.skip(n + 1) =~= Seq::empty());
    assert(text::lines_of(Seq::empty()) =~= Seq::empty());
    assert(text::lines_of(header) =~= seq![text::without_cr(header.take(n))]);
}

/// What a report writes, a comparison reads: the rows of a report are read back
/// as the figures of its scenarios, by label and regime.
pub proof fn law_report_round_trip(r: Report)
    requires
        forall|i: int|
            0 <= i < scenarios(r.sections@).len() ==> is_plain(#[trigger] scenarios(r.sections@)[i]),
    ensures
        comparison::csv_rows(report::csv_of(r)) == figures(scenarios(r.sections@)),
{
    let header =
        "regime,label,count,min_ns,p50_ns,p99_ns,p99_99_ns,max_ns,msgs_per_sec,ctx_voluntary,ctx_involuntary,minor_faults,major_faults\n"@;
    lemma_header_is_a_line();
    lemma_sections_are_lines(header, r.sections@);
    let all = text::lines_of(report::csv_of(r));
    assert(all.skip(1) =~= bodies(scenarios(r.sections@)));
    lemma_rows_read_back(scenarios(r.sections@));
}

/// A run compared with itself: every row has the same figures on both sides.
pub proof fn law_run_matches_itself(rows: Seq<PairRow>, run: Map<Key, Metrics>)
    requires
        comparison::compares(rows, run, run),
    ensures
        forall|i: int|
            0 <= i < rows.len() ==> (#[trigger] rows[i]).base == rows[i].cur && rows[i].base is Some,
{
}

/// Scenarios of different regimes are never compared: a label measured in one
/// regime before and in another one now has a row of its own for each, with one
/// side missing.
pub proof fn law_regimes_stay_apart(
    rows: Seq<PairRow>,
    base: Map<Key, Metrics>,
    cur: Map<Key, Metrics>,
    i: int,
)
    requires
        comparison::compares(rows, base, cur),
        0 <= i < rows.len(),
        base.contains_key(rows[i].key()),
        !cur.contains_key(rows[i].key()),
    ensures
        rows[i].base == Some(base[rows[i].key()]),
        rows[i].cur is None,
{
}

proof fn lemma_not_blank(s: Seq<char>, i: int)
    requires
        0 <= i < s.len(),
        !text::is_white(s[i]),
    ensures
        text::trimmed(s).len() > 0,
{
    let ends = text::law_trim_takes_off_white_ends(s);
    if ends.0 == ends.1 {
        assert(text::is_white(s[i]));
    }
}

/// A line is a row just if it has nine fields or more and its fifth to seventh are
/// numbers, which are its percentiles. The first field is its regime and the second
/// its label; what comes behind the ninth does not matter.
pub proof fn law_row_is_read_by_its_fields(f: Seq<Seq<char>>)
    requires
        f.len() > 1,
        forall|i: int| 0 <= i < f.len() ==> lacks(#[trigger] f[i], ','),
    ensures
        ({
            let row = comparison::row_of(joined(f));
            let a = text::number(f[4], u64::MAX as nat);
            let b = text::number(f[5], u64::MAX as nat);
            let c = text::number(f[6], u64::MAX as nat);
            &&& row is Some <==> f.len() >= 9 && a is Some && b is Some && c is Some
            &&& row matches Some((key, figures)) ==> {
                &&& key == (f[1], f[0])
                &&& figures.p50 == a->0
                &&& figures.p99 == b->0
                &&& figures.p99_99 == c->0
            }
        }),
{
    lemma_joined_split(f);
    let front = joined(f.drop_last());
    assert(joined(f)[front.len() as int] == ',');
    lemma_not_blank(joined(f), front.len() as int);
    if f.len() >= 9 {
        text::law_only_digits_make_a_number(f[4], u64::MAX as nat);
        text::law_only_digits_make_a_number(f[5], u64::MAX as nat);
        text::law_only_digits_make_a_number(f[6], u64::MAX as nat);
    }
}

/// A blank line is no row.
pub proof fn law_blank_line_is_no_row(line: Seq<char>)
    requires
        forall|i: int| 0 <= i < line.len() ==> text::is_white(#[trigger] line[i]),
    ensures
        comparison::row_of(line) is None,
{
    let ends = text::law_trim_takes_off_white_ends(line);
}

/// The first line of a report is its header. Every further line that is a row counts
/// under its label and regime, and of several with the same ones the last does.
pub proof fn law_later_rows_replace_earlier_ones(lines: Seq<Seq<char>>, line: Seq<char>, key: Key)
    ensures
        comparison::rows_of(Seq::empty()) == Map::<Key, Metrics>::empty(),
        comparison::row_of(line) is None ==> comparison::rows_of(lines.push(line))
            == comparison::rows_of(lines),
        comparison::row_of(line) matches Some((read, figures)) ==> {
            let after = comparison::rows_of(lines.push(line));
            let before = comparison::rows_of(lines);
            &&& after.contains_key(read) && after[read] == figures
            &&& key != read ==> after.contains_key(key) == before.contains_key(key) && after[key]
                == before[key]
        },
{
    assert(lines.push(line).drop_last() =~= lines);
}

/// A comparison has one row for every label and regime of either run, and no other,
/// each with the figures of both sides as far as they have them. The rows are ordered
/// by label.
pub proof fn law_comparison_pairs_both_runs(
    rows: Seq<PairRow>,
    base: Map<Key, Metrics>,
    cur: Map<Key, Metrics>,
    key: Key,
)
    requires
        comparison::compares(rows, base, cur),
    ensures
        base.contains_key(key) || cur.contains_key(key) <==> exists|i: int|
            0 <= i < rows.len() && (#[trigger] rows[i]).label@ == key.0 && rows[i].regime@ == key.1,
        forall|i: int|
            0 <= i < rows.len() && (#[trigger] rows[i]).label@ == key.0 && rows[i].regime@ == key.1
                ==> {
                &&& rows[i].base is Some <==> base.contains_key(key)
                &&& rows[i].cur is Some <==> cur.contains_key(key)
                &&& rows[i].base is Some ==> rows[i].base->0 == base[key]
                &&& rows[i].cur is Some ==> rows[i].cur->0 == cur[key]
            },
        forall|i: int, j: int|
            0 <= i < j < rows.len() ==> (#[trigger] rows[i]).label@ != (
            #[trigger] rows[j]).label@ || rows[i].regime@ != rows[j].regime@,
        forall|i: int, j: int|
            0 <= i < j < rows.len() ==> !comparison::before(
                (#[trigger] rows[j]).label@,
                (#[trigger] rows[i]).label@,
            ),
{
    if base.contains_key(key) || cur.contains_key(key) {
        assert(comparison::has_row(rows, key));
        let i = choose|i: int| 0 <= i < rows.len() && (#[trigger] rows[i]).key() == key;
        assert(rows[i].label@ == key.0 && rows[i].regime@ == key.1);
    }
    assert forall|i: int|
        0 <= i < rows.len() && (#[trigger] rows[i]).label@ == key.0 && rows[i].regime@
            == key.1 implies {
        &&& rows[i].base is Some <==> base.contains_key(key)
        &&& rows[i].cur is Some <==> cur.contains_key(key)
        &&& rows[i].base is Some ==> rows[i].base->0 == base[key]
        &&& rows[i].cur is Some ==> rows[i].cur->0 == cur[key]
    } by {
        assert(rows[i].key() == key);
    }
    assert forall|i: int, j: int| 0 <= i < j < rows.len() implies (#[trigger] rows[i]).label@ != (
    #[trigger] rows[j]).label@ || rows[i].regime@ != rows[j].regime@ by {
        assert(rows[i].key() != rows[j].key());
    }
}

} // verus!
