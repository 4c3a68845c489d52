//! Reports of a run: tables, comma-separated rows and plot scripts.
use super::env;
use super::env::RunEnv;
use super::stats::{ArrivalModel, RunStats};
use crate::telemetry::Figures;
use crate::text;
use crate::text::{push_decimal, push_signed, push_str};
use vstd::prelude::*;

verus! {

/// How a headline number is derived from two scenarios.
#[derive(Copy, Clone, Debug, PartialEq, Eq, Structural)]
pub enum Delta {
    /// The difference of the medians.
    Sub,
    /// The difference of the medians divided by a count, towards zero.
    SubPerN(u64),
}

/// What a report shows of one scenario. Numbers that are not whole come as text.
pub struct SampleView {
    pub figures: Figures,
    /// The count in thousands or millions.
    pub count_text: String,
    /// The ratio of the tail to the median.
    pub tail_text: String,
    /// Millions of messages per second.
    pub rate_text: String,
    pub arrival_model: ArrivalModel,
    pub stats: RunStats,
    pub overloaded: bool,
}

/// A group of scenarios under one heading.
pub struct Section {
    pub title: String,
    pub samples: Vec<SampleView>,
}

/// A headline number with its derivation.
pub struct DeltaRow {
    pub name: String,
    pub value: i64,
    pub note: String,
}

/// The environment, the sections and the headline numbers of a run.
pub struct Report {
    pub env: RunEnv,
    pub title: String,
    pub scope: String,
    pub sections: Vec<Section>,
    pub deltas: Vec<DeltaRow>,
}

/// `a / n`, rounded towards zero.
pub open spec fn quotient(a: int, n: int) -> int {
    if a >= 0 {
        a / n
    } else {
        -((-a) / n)
    }
}

/// The headline number of two medians.
pub open spec fn delta_value(lhs: u64, rhs: u64, op: Delta) -> int {
    match op {
        Delta::Sub => lhs - rhs,
        Delta::SubPerN(n) => if n == 0 {
            0
        } else {
            quotient(lhs - rhs, n as int)
        },
    }
}

/// The headline number of two medians.
pub fn headline(lhs: u64, rhs: u64, op: Delta) -> (value: i64)
    requires
        i64::MIN <= lhs - rhs <= i64::MAX,
    ensures
        value == delta_value(lhs, rhs, op),
{
    let (ahead, gap): (bool, u64) = if lhs >= rhs {
        (true, lhs - rhs)
    } else {
        (false, rhs - lhs)
    };
    let magnitude: u64 = match op {
        Delta::Sub => gap,
        Delta::SubPerN(n) => if n == 0 {
            0
        } else {
            proof {
                assert(gap / n <= gap) by (nonlinear_arith)
                    requires
                        n > 0,
                ;
            }
            gap / n
        },
    };
    if ahead {
        magnitude as i64
    } else if magnitude == 0x8000_0000_0000_0000 {
        i64::MIN
    } else {
        -(magnitude as i64)
    }
}

pub open spec fn regime_word(m: ArrivalModel) -> Seq<char> {
    match m {
        ArrivalModel::BackToBack => "back_to_back"@,
        ArrivalModel::OpenLoop { .. } => "open_loop"@,
    }
}

/// The word for an arrival model in comma-separated rows.
pub fn regime_tag(m: ArrivalModel) -> (r: &'static str)
    ensures
        r@ == regime_word(m),
{
    match m {
        ArrivalModel::BackToBack => "back_to_back",
        ArrivalModel::OpenLoop { .. } => "open_loop",
    }
}

/// The samples were driven in different ways.
pub open spec fn mixed(samples: Seq<SampleView>) -> bool {
    exists|i: int|
        0 <= i < samples.len() && (#[trigger] samples[i]).arrival_model != samples[0].arrival_model
}

/// Some sample could not keep its schedule.
pub open spec fn any_overloaded(samples: Seq<SampleView>) -> bool {
    exists|i: int| 0 <= i < samples.len() && (#[trigger] samples[i]).overloaded
}

/// How the samples of a section were measured, according to the first one.
pub open spec fn measured_word(samples: Seq<SampleView>) -> Seq<char> {
    if samples.len() == 0 {
        "no samples"@
    } else {
        match samples[0].arrival_model {
            ArrivalModel::BackToBack => "measured under: back-to-back (service time)"@,
            ArrivalModel::OpenLoop { interval_ns } => "measured under: open-loop @ "@
                + text::decimal(interval_ns as nat)
                + "ns interval (CO-corrected latency under load)"@,
        }
    }
}

/// The stamp that says how a section was measured, and what is wrong with that.
pub open spec fn measured_stamp(samples: Seq<SampleView>) -> Seq<char> {
    measured_word(samples) + if mixed(samples) {
        " ⚠ MIXED arrival models in one section"@
    } else {
        Seq::empty()
    } + if any_overloaded(samples) {
        " ⚠ OVERLOADED (target rate unachievable)"@
    } else {
        Seq::empty()
    }
}

/// The stamp that says how a section was measured.
pub fn measured_under(section: &Section) -> (r: String)
    ensures
        r@ == measured_stamp(section.samples@),
{
    let samples = &section.samples;
    let mut stamp = if samples.len() == 0 {
        "no samples".to_string()
    } else {
        match samples[0].arrival_model {
            ArrivalModel::BackToBack => "measured under: back-to-back (service time)".to_string(),
            ArrivalModel::OpenLoop { interval_ns } => {
                let mut s = "measured under: open-loop @ ".to_string();
                push_decimal(&mut s, interval_ns);
                push_str(&mut s, "ns interval (CO-corrected latency under load)");
                s
            },
        }
    };
    let mut differ: bool = false;
    let mut late: bool = false;
    let mut i: usize = 0;
    while i < samples.len()
        invariant
            i <= samples.len(),
            differ == exists|k: int|
                0 <= k < i && (#[trigger] samples@[k]).arrival_model != samples@[0].arrival_model,
            late == exists|k: int| 0 <= k < i && (#[trigger] samples@[k]).overloaded,
        decreases samples.len() - i,
    {
        if samples[i].arrival_model != samples[0].arrival_model {
            differ = true;
            assert(samples@[i as int].arrival_model != samples@[0].arrival_model);
        }
        if samples[i].overloaded {
            late = true;
            assert(samples@[i as int].overloaded);
        }
        i = i + 1;
    }
    let ghost s0 = stamp@;
    if differ {
        push_str(&mut stamp, " ⚠ MIXED arrival models in one section");
    }
    assert(stamp@ =~= s0 + if mixed(samples@) {
        " ⚠ MIXED arrival models in one section"@
    } else {
        Seq::empty()
    });
    let ghost s1 = stamp@;
    if late {
        push_str(&mut stamp, " ⚠ OVERLOADED (target rate unachievable)");
    }
    assert(stamp@ =~= s1 + if any_overloaded(samples@) {
        " ⚠ OVERLOADED (target rate unachievable)"@
    } else {
        Seq::empty()
    });
    stamp
}

/// One row of a section's table.
pub open spec fn table_line(s: SampleView) -> Seq<char> {
    "| "@ + s.figures.label@ + " | "@ + s.count_text@ + " | "@ + text::decimal(s.figures.min as nat) + " | "@
        + text::decimal(s.figures.p50 as nat) + " | "@ + text::decimal(s.figures.p99 as nat) + " | "@
        + text::decimal(s.figures.p99_99 as nat) + " | "@ + s.tail_text@ + "× | "@ + s.rate_text@
        + "M | "@ + text::decimal(s.stats.ctx_involuntary as nat) + " | "@ + text::decimal(
        s.stats.major_faults as nat,
    ) + " |"@
}

/// One row of a section's table.
pub fn table_row(sample: &SampleView) -> (r: String)
    ensures
        r@ == table_line(*sample),
{
    let mut s = "| ".to_string();
    push_str(&mut s, sample.figures.label.as_str());
    push_str(&mut s, " | ");
    push_str(&mut s, sample.count_text.as_str());
    push_str(&mut s, " | ");
    push_decimal(&mut s, sample.figures.min);
    push_str(&mut s, " | ");
    push_decimal(&mut s, sample.figures.p50);
    push_str(&mut s, " | ");
    push_decimal(&mut s, sample.figures.p99);
    push_str(&mut s, " | ");
    push_decimal(&mut s, sample.figures.p99_99);
    push_str(&mut s, " | ");
    push_str(&mut s, sample.tail_text.as_str());
    push_str(&mut s, "× | ");
    push_str(&mut s, sample.rate_text.as_str());
    push_str(&mut s, "M | ");
    push_decimal(&mut s, sample.stats.ctx_involuntary);
    push_str(&mut s, " | ");
    push_decimal(&mut s, sample.stats.major_faults);
    push_str(&mut s, " |");
    s
}

/// The rows of a section's table.
pub open spec fn table_lines(samples: Seq<SampleView>) -> Seq<char>
    decreases samples.len(),
{
    if samples.len() == 0 {
        Seq::empty()
    } else {
        table_lines(samples.drop_last()) + table_line(samples.last()) + "\n"@
    }
}

/// A section: its heading, the head of its table, and its rows.
pub open spec fn section_text(section: Section) -> Seq<char> {
    "\n**"@ + section.title@ + "**  _"@ + measured_stamp(section.samples@)
        + "_\n\n| scenario | n | min | p50 | p99 | p99.99 | tail | M/s | inv-cs | maj-flt |\n|---|--:|--:|--:|--:|--:|--:|--:|--:|--:|\n"@
        + table_lines(section.samples@)
}

fn render_section(section: &Section) -> (r: String)
    ensures
        r@ == section_text(*section),
{
    let mut s = "\n**".to_string();
    push_str(&mut s, section.title.as_str());
    push_str(&mut s, "**  _");
    push_str(&mut s, measured_under(section).as_str());
    push_str(
        &mut s,
        "_\n\n| scenario | n | min | p50 | p99 | p99.99 | tail | M/s | inv-cs | maj-flt |\n|---|--:|--:|--:|--:|--:|--:|--:|--:|--:|\n",
    );
    let ghost head = s@;
    let samples = &section.samples;
    let mut i: usize = 0;
    assert(head + table_lines(samples@.take(0)) =~= head);
    while i < samples.len()
        invariant
            i <= samples.len(),
            s@ == head + table_lines(samples@.take(i as int)),
        decreases samples.len() - i,
    {
        let row = table_row(&samples[i]);
        push_str(&mut s, row.as_str());
        push_str(&mut s, "\n");
        i = i + 1;
        proof {
            assert(samples@.take(i as int).drop_last() =~= samples@.take(i - 1));
            assert(s@ =~= head + table_lines(samples@.take(i as int)));
        }
    }
    assert(samples@.take(i as int) =~= samples@);
    s
}

pub open spec fn sections_text(sections: Seq<Section>) -> Seq<char>
    decreases sections.len(),
{
    if sections.len() == 0 {
        Seq::empty()
    } else {
        sections_text(sections.drop_last()) + section_text(sections.last())
    }
}

pub open spec fn delta_line(d: DeltaRow) -> Seq<char> {
    "| "@ + d.name@ + " | "@ + text::signed_decimal(d.value as int) + " | "@ + d.note@ + " |\n"@
}

fn render_delta(d: &DeltaRow) -> (r: String)
    ensures
        r@ == delta_line(*d),
{
    let mut s = "| ".to_string();
    push_str(&mut s, d.name.as_str());
    push_str(&mut s, " | ");
    push_signed(&mut s, d.value);
    push_str(&mut s, " | ");
    push_str(&mut s, d.note.as_str());
    push_str(&mut s, " |\n");
    s
}

pub open spec fn delta_lines(deltas: Seq<DeltaRow>) -> Seq<char>
    decreases deltas.len(),
{
    if deltas.len() == 0 {
        Seq::empty()
    } else {
        delta_lines(deltas.drop_last()) + delta_line(deltas.last())
    }
}

/// A report as text: the header, the sections, and the headline numbers.
pub open spec fn markdown_of(report: Report) -> Seq<char> {
    env::header_of(report.env, report.title@, report.scope@) + if report.sections@.len() > 0 {
        "- `inv-cs`/`maj-flt`: involuntary context switches / major page faults during that scenario's measure phase. Nonzero marks a tail spike as OS noise.\n"@
    } else {
        Seq::empty()
    } + sections_text(report.sections@) + if report.deltas@.len() > 0 {
        "\n**Headline deltas (p50, ns)**\n\n| metric | ns | derivation |\n|---|--:|---|\n"@
            + delta_lines(report.deltas@)
    } else {
        Seq::empty()
    }
}

/// One comma-separated row.
pub open spec fn csv_line(s: SampleView) -> Seq<char> {
    regime_word(s.arrival_model) + ","@ + s.figures.separated(","@) + ","@ + text::decimal(
        s.stats.ctx_voluntary as nat,
    ) + ","@ + text::decimal(s.stats.ctx_involuntary as nat) + ","@ + text::decimal(
        s.stats.minor_faults as nat,
    ) + ","@ + text::decimal(s.stats.major_faults as nat) + "\n"@
}

fn csv_row(sample: &SampleView) -> (r: String)
    ensures
        r@ == csv_line(*sample),
{
    let mut s = regime_tag(sample.arrival_model).to_string();
    push_str(&mut s, ",");
    push_str(&mut s, sample.figures.render_csv().as_str());
    push_str(&mut s, ",");
    push_decimal(&mut s, sample.stats.ctx_voluntary);
    push_str(&mut s, ",");
    push_decimal(&mut s, sample.stats.ctx_involuntary);
    push_str(&mut s, ",");
    push_decimal(&mut s, sample.stats.minor_faults);
    push_str(&mut s, ",");
    push_decimal(&mut s, sample.stats.major_faults);
    push_str(&mut s, "\n");
    s
}

pub open spec fn csv_lines(samples: Seq<SampleView>) -> Seq<char>
    decreases samples.len(),
{
    if samples.len() == 0 {
        Seq::empty()
    } else {
        csv_lines(samples.drop_last()) + csv_line(samples.last())
    }
}

pub open spec fn csv_sections(sections: Seq<Section>) -> Seq<char>
    decreases sections.len(),
{
    if sections.len() == 0 {
        Seq::empty()
    } else {
        csv_sections(sections.drop_last()) + csv_lines(sections.last().samples@)
    }
}

/// A report as comma-separated rows, one per scenario, with a header row.
pub open spec fn csv_of(report: Report) -> Seq<char> {
    "regime,label,count,min_ns,p50_ns,p99_ns,p99_99_ns,max_ns,msgs_per_sec,ctx_voluntary,ctx_involuntary,minor_faults,major_faults\n"@
        + csv_sections(report.sections@)
}

impl Report {
    pub fn new(env: RunEnv, title: &str, scope: &str) -> (r: Report)
        ensures
            r.env == env,
            r.title@ == title@,
            r.scope@ == scope@,
            r.sections@ == Seq::<Section>::empty(),
            r.deltas@ == Seq::<DeltaRow>::empty(),
    {
        Report {
            env,
            title: title.to_string(),
            scope: scope.to_string(),
            sections: Vec::new(),
            deltas: Vec::new(),
        }
    }

    /// Add a group of scenarios under a heading, and hand the report on.
    pub fn section(&mut self, title: &str, samples: Vec<SampleView>) -> (r: &mut Report)
        ensures
            *final(self) == *final(r),
            r.env == old(self).env,
            r.title == old(self).title,
            r.scope == old(self).scope,
            r.deltas == old(self).deltas,
            r.sections@.len() == old(self).sections@.len() + 1,
            r.sections@.drop_last() == old(self).sections@,
            r.sections@.last().title@ == title@,
            r.sections@.last().samples == samples,
    {
        self.sections.push(Section { title: title.to_string(), samples });
        assert(self.sections@.drop_last() =~= old(self).sections@);
        self
    }

    /// Add a headline number derived from the medians of two scenarios that were
    /// driven in the same way, and hand the report on.
    pub fn delta(
        &mut self,
        name: &str,
        lhs: &SampleView,
        rhs: &SampleView,
        op: Delta,
        note: &str,
    ) -> (r: &mut Report)
        requires
            lhs.arrival_model == rhs.arrival_model,
            i64::MIN <= lhs.figures.p50 - rhs.figures.p50 <= i64::MAX,
        ensures
            *final(self) == *final(r),
            r.env == old(self).env,
            r.title == old(self).title,
            r.scope == old(self).scope,
            r.sections == old(self).sections,
            r.deltas@.len() == old(self).deltas@.len() + 1,
            r.deltas@.drop_last() == old(self).deltas@,
            r.deltas@.last().name@ == name@,
            r.deltas@.last().value == delta_value(lhs.figures.p50, rhs.figures.p50, op),
            r.deltas@.last().note@ == note@,
    {
        let value: i64 = headline(lhs.figures.p50, rhs.figures.p50, op);
        self.deltas.push(DeltaRow { name: name.to_string(), value, note: note.to_string() });
        assert(self.deltas@.drop_last() =~= old(self).deltas@);
        self
    }

    /// The report as text.
    pub fn to_markdown(&self) -> (r: String)
        ensures
            r@ == markdown_of(*self),
    {
        let mut s = self.env.header(self.title.as_str(), self.scope.as_str());
        let ghost head = s@;
        if self.sections.len() > 0 {
            push_str(
                &mut s,
                "- `inv-cs`/`maj-flt`: involuntary context switches / major page faults during that scenario's measure phase. Nonzero marks a tail spike as OS noise.\n",
            );
        }
        assert(s@ =~= head + if self.sections@.len() > 0 {
            "- `inv-cs`/`maj-flt`: involuntary context switches / major page faults during that scenario's measure phase. Nonzero marks a tail spike as OS noise.\n"@
        } else {
            Seq::empty()
        });
        let ghost s1 = s@;
        let mut i: usize = 0;
        assert(s1 + sections_text(self.sections@.take(0)) =~= s1);
        while i < self.sections.len()
            invariant
                i <= self.sections.len(),
                s@ == s1 + sections_text(self.sections@.take(i as int)),
            decreases self.sections.len() - i,
        {
            let part = render_section(&self.sections[i]);
            push_str(&mut s, part.as_str());
            i = i + 1;
            proof {
                assert(self.sections@.take(i as int).drop_last() =~= self.sections@.take(i - 1));
                assert(s@ =~= s1 + sections_text(self.sections@.take(i as int)));
            }
        }
        assert(self.sections@.take(i as int) =~= self.sections@);
        let ghost s2 = s@;
        if self.deltas.len() > 0 {
            let mut part =
                "\n**Headline deltas (p50, ns)**\n\n| metric | ns | derivation |\n|---|--:|---|\n".to_string();
            let ghost p0 = part@;
            let mut k: usize = 0;
            assert(p0 + delta_lines(self.deltas@.take(0)) =~= p0);
            while k < self.deltas.len()
                invariant
                    k <= self.deltas.len(),
                    part@ == p0 + delta_lines(self.deltas@.take(k as int)),
                decreases self.deltas.len() - k,
            {
                let line = render_delta(&self.deltas[k]);
                push_str(&mut part, line.as_str());
                k = k + 1;
                proof {
                    assert(self.deltas@.take(k as int).drop_last() =~= self.deltas@.take(k - 1));
                    assert(part@ =~= p0 + delta_lines(self.deltas@.take(k as int)));
                }
            }
            assert(self.deltas@.take(k as int) =~= self.deltas@);
            push_str(&mut s, part.as_str());
        } else {
            assert(s2 =~= s2 + Seq::<char>::empty());
        }
        s
    }

    /// The report as comma-separated rows.
    pub fn to_csv(&self) -> (r: String)
        ensures
            r@ == csv_of(*self),
    {
        let mut s =
            "regime,label,count,min_ns,p50_ns,p99_ns,p99_99_ns,max_ns,msgs_per_sec,ctx_voluntary,ctx_involuntary,minor_faults,major_faults\n".to_string();
        let ghost head = s@;
        let mut i: usize = 0;
        assert(head + csv_sections(self.sections@.take(0)) =~= head);
        while i < self.sections.len()
            invariant
                i <= self.sections.len(),
                s@ == head + csv_sections(self.sections@.take(i as int)),
            decreases self.sections.len() - i,
        {
            let samples = &self.sections[i].samples;
            let ghost before = s@;
            let mut k: usize = 0;
            assert(before + csv_lines(samples@.take(0)) =~= before);
            while k < samples.len()
                invariant
                    k <= samples.len(),
                    s@ == before + csv_lines(samples@.take(k as int)),
                decreases samples.len() - k,
            {
                let row = csv_row(&samples[k]);
                push_str(&mut s, row.as_str());
                k = k + 1;
                proof {
                    assert(samples@.take(k as int).drop_last() =~= samples@.take(k - 1));
                    assert(s@ =~= before + csv_lines(samples@.take(k as int)));
                }
            }
            assert(samples@.take(k as int) =~= samples@);
            i = i + 1;
            proof {
                assert(self.sections@.take(i as int).drop_last() =~= self.sections@.take(i - 1));
                assert(s@ =~= head + csv_sections(self.sections@.take(i as int)));
            }
        }
        assert(self.sections@.take(i as int) =~= self.sections@);
        s
    }
}

/// A headline number is the difference of two medians, or that difference divided by
/// a count and rounded towards zero: what the division leaves is smaller than the
/// count and on the same side of zero.
pub proof fn law_headline_divides_towards_zero(lhs: u64, rhs: u64, n: u64)
    ensures
        delta_value(lhs, rhs, Delta::Sub) + rhs == lhs,
        delta_value(lhs, rhs, Delta::SubPerN(0)) == 0,
        n > 0 ==> {
            let left = lhs - rhs - delta_value(lhs, rhs, Delta::SubPerN(n)) * n;
            &&& -n < left < n
            &&& lhs >= rhs ==> left >= 0
            &&& lhs <= rhs ==> left <= 0
        },
{
    if n > 0 {
        let gap: int = if lhs >= rhs {
            lhs - rhs
        } else {
            rhs - lhs
        };
        let q = gap / n as int;
        vstd::arithmetic::div_mod::lemma_fundamental_div_mod(gap, n as int);
        vstd::arithmetic::div_mod::lemma_mod_bound(gap, n as int);
        assert(q * n == n * q) by (nonlinear_arith);
        assert((-q) * n == -(n * q)) by (nonlinear_arith);
        if lhs == rhs {
            vstd::arithmetic::div_mod::lemma_basic_div(0, n as int);
            assert(0 * n == 0) by (nonlinear_arith);
        }
    }
}

/// The stamp of a section tells when its samples were not all driven alike, and when
/// one of them could not keep its schedule; otherwise it only says how they were
/// driven.
pub proof fn law_stamp_tells_what_is_wrong(samples: Seq<SampleView>)
    ensures
        ({
            let stamp = measured_stamp(samples);
            let word = measured_word(samples);
            let mixed_note = " ⚠ MIXED arrival models in one section"@;
            let late_note = " ⚠ OVERLOADED (target rate unachievable)"@;
            &&& text::occurs_at(stamp, 0, word)
            &&& (exists|i: int| 0 <= i < samples.len() && (#[trigger] samples[i]).overloaded)
                ==> text::occurs_at(stamp, stamp.len() - late_note.len(), late_note)
            &&& (exists|i: int, j: int|
                0 <= i < samples.len() && 0 <= j < samples.len() && (
                #[trigger] samples[i]).arrival_model != (#[trigger] samples[j]).arrival_model)
                ==> text::occurs_at(stamp, word.len() as int, mixed_note)
            &&& (forall|i: int| 0 <= i < samples.len() ==> !(#[trigger] samples[i]).overloaded) && (
            forall|i: int|
                0 <= i < samples.len() ==> (#[trigger] samples[i]).arrival_model
                    == samples[0].arrival_model) ==> stamp == word
        }),
{
    let stamp = measured_stamp(samples);
    let word = measured_word(samples);
    let mixed_note = " ⚠ MIXED arrival models in one section"@;
    let late_note = " ⚠ OVERLOADED (target rate unachievable)"@;
    assert(stamp.subrange(0, word.len() as int) =~= word);
    if any_overloaded(samples) {
        let at = stamp.len() - late_note.len();
        assert(stamp.subrange(at, stamp.len() as int) =~= late_note);
    }
    if exists|i: int, j: int|
        0 <= i < samples.len() && 0 <= j < samples.len() && (
        #[trigger] samples[i]).arrival_model != (#[trigger] samples[j]).arrival_model {
        let (i, j) = choose|i: int, j: int|
            0 <= i < samples.len() && 0 <= j < samples.len() && (
            #[trigger] samples[i]).arrival_model != (#[trigger] samples[j]).arrival_model;
        assert(samples[i].arrival_model != samples[0].arrival_model
            || samples[j].arrival_model != samples[0].arrival_model);
        assert(mixed(samples));
        assert(stamp.subrange(word.len() as int, (word.len() + mixed_note.len()) as int)
            =~= mixed_note);
    }
    if !any_overloaded(samples) && !mixed(samples) {
        assert(stamp =~= word);
    }
}

} // verus!
