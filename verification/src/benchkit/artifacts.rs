//! The names of a run's files, and the script that plots its latency curves.
use super::report::{SampleView, Section};
use crate::text;
use crate::text::{chars_of, push_char, push_str};
use vstd::prelude::*;

verus! {

/// Whether `c` is a letter or a digit of any script.
pub uninterp spec fn alphanumeric(c: char) -> bool;

/// `char::is_alphanumeric`: whether `c` is a letter or a digit of any script. Of
/// ASCII characters, exactly the letters and digits are.
#[verifier::external_body]
fn is_alphanumeric(c: char) -> (r: bool)
    ensures
        r == alphanumeric(c),
        c as u32 <= 0x7F ==> r == ('0' <= c <= '9' || 'A' <= c <= 'Z' || 'a' <= c <= 'z'),
{
    c.is_alphanumeric()
}

/// A label with everything but letters and digits replaced by underscores.
pub open spec fn file_label(label: Seq<char>) -> Seq<char> {
    label.map_values(
        |c: char|
            if alphanumeric(c) {
                c
            } else {
                '_'
            },
    )
}

/// A label fit for a file name.
pub fn sanitize(label: &str) -> (r: String)
    ensures
        r@ == file_label(label@),
{
    let chars = chars_of(label);
    let mut out = String::new();
    let mut i: usize = 0;
    while i < chars.len()
        invariant
            i <= chars.len(),
            chars@ == label@,
            out@ == file_label(label@).take(i as int),
        decreases chars.len() - i,
    {
        if is_alphanumeric(chars[i]) {
            push_char(&mut out, chars[i]);
        } else {
            push_char(&mut out, '_');
        }
        i = i + 1;
        assert(out@ =~= file_label(label@).take(i as int));
    }
    assert(out@ =~= file_label(label@));
    out
}

/// What stands for one character in a quoted string of a plot script.
pub open spec fn escaped_char(c: char) -> Seq<char> {
    if c == '\\' {
        seq!['\\', '\\']
    } else if c == '"' {
        seq!['\\', '"']
    } else if c == '\'' {
        Seq::empty()
    } else {
        seq![c]
    }
}

/// What stands for `s` in a quoted string of a plot script.
pub open spec fn escaped(s: Seq<char>) -> Seq<char>
    decreases s.len(),
{
    if s.len() == 0 {
        Seq::empty()
    } else {
        escaped(s.drop_last()) + escaped_char(s.last())
    }
}

/// `s` for use in a quoted string of a plot script: backslashes and double
/// quotes are escaped, single quotes left out.
pub fn gp_escape(s: &str) -> (r: String)
    ensures
        r@ == escaped(s@),
{
    let chars = chars_of(s);
    let mut out = String::new();
    let mut i: usize = 0;
    while i < chars.len()
        invariant
            i <= chars.len(),
            out@ == escaped(chars@.take(i as int)),
        decreases chars.len() - i,
    {
        let c: char = chars[i];
        let ghost before = out@;
        if c == '\\' || c == '"' {
            push_char(&mut out, '\\');
        }
        if c != '\'' {
            push_char(&mut out, c);
        }
        i = i + 1;
        proof {
            assert(chars@.take(i as int).drop_last() =~= chars@.take(i - 1));
            assert(out@ =~= before + escaped_char(c));
        }
    }
    assert(chars@.take(i as int) =~= chars@);
    out
}

/// No single quote is left in an escaped string, so none can end a quoted one.
pub proof fn law_escaped_text_has_no_quote(s: Seq<char>)
    ensures
        !escaped(s).contains('\''),
    decreases s.len(),
{
    if s.len() > 0 {
        law_escaped_text_has_no_quote(s.drop_last());
        let a = escaped(s.drop_last());
        let b = escaped_char(s.last());
        assert forall|i: int| 0 <= i < (a + b).len() implies (a + b)[i] != '\'' by {
            if i < a.len() {
                assert(a.contains(a[i]));
            }
        }
    }
}

/// The plot command of one curve.
pub open spec fn curve_text(dir: Seq<char>, label: Seq<char>, last: bool) -> Seq<char> {
    "  '"@ + dir + "/"@ + label + ".hdr' using 4:1 with lines lw 2 title '"@ + escaped(label) + if last {
        "'\n"@
    } else {
        "', \\\n"@
    }
}

/// The plot commands of the first `n` curves.
pub open spec fn curves_text(dir: Seq<char>, labels: Seq<Seq<char>>, n: nat) -> Seq<char>
    decreases n,
{
    if n == 0 {
        Seq::empty()
    } else {
        curves_text(dir, labels, (n - 1) as nat) + curve_text(dir, labels[n - 1], n == labels.len())
    }
}

/// A plot script: one latency curve per label, over a logarithmic percentile
/// axis.
pub open spec fn script_text(
    title: Seq<char>,
    dir: Seq<char>,
    svg: Seq<char>,
    labels: Seq<Seq<char>>,
) -> Seq<char> {
    "# benchkit latency curve — render with: gnuplot <this file> (run from bench-runs/)\nset terminal svg size 1100,680 font 'sans,11'\nset output '"@
        + svg + "'\nset title \""@ + escaped(title)
        + " — latency by percentile\"\nset xlabel 'Percentile'\nset ylabel 'Latency (ns)'\nset logscale x\nset grid\nset key outside right top\nset xtics ('p50' 2, 'p90' 10, 'p99' 100, 'p99.9' 1000, 'p99.99' 10000, 'p99.999' 100000)\nset datafile commentschars '#'\nplot \\\n"@
        + curves_text(dir, labels, labels.len()) + if labels.len() == 0 {
        "  NaN notitle\n"@
    } else {
        Seq::empty()
    }
}

/// The plot script of a run. Its paths are relative to the script's directory.
pub fn gnuplot_script(title: &str, hdr_dirname: &str, svg_name: &str, labels: &Vec<String>) -> (r:
    String)
    ensures
        r@ == script_text(title@, hdr_dirname@, svg_name@, text::strings(labels@)),
{
    let ghost names = text::strings(labels@);
    let mut s =
        "# benchkit latency curve — render with: gnuplot <this file> (run from bench-runs/)\nset terminal svg size 1100,680 font 'sans,11'\nset output '".to_string();
    push_str(&mut s, svg_name);
    push_str(&mut s, "'\nset title \"");
    push_str(&mut s, gp_escape(title).as_str());
    push_str(
        &mut s,
        " — latency by percentile\"\nset xlabel 'Percentile'\nset ylabel 'Latency (ns)'\nset logscale x\nset grid\nset key outside right top\nset xtics ('p50' 2, 'p90' 10, 'p99' 100, 'p99.9' 1000, 'p99.99' 10000, 'p99.999' 100000)\nset datafile commentschars '#'\nplot \\\n",
    );
    let ghost head = s@;
    let n: usize = labels.len();
    let mut i: usize = 0;
    assert(head + curves_text(hdr_dirname@, names, 0) =~= head);
    while i < n
        invariant
            i <= n == labels.len(),
            names == text::strings(labels@),
            s@ == head + curves_text(hdr_dirname@, names, i as nat),
        decreases n - i,
    {
        let ghost before = s@;
        let mut curve = "  '".to_string();
        push_str(&mut curve, hdr_dirname);
        push_str(&mut curve, "/");
        push_str(&mut curve, labels[i].as_str());
        push_str(&mut curve, ".hdr' using 4:1 with lines lw 2 title '");
        push_str(&mut curve, gp_escape(labels[i].as_str()).as_str());
        if i + 1 < n {
            push_str(&mut curve, "', \\\n");
        } else {
            push_str(&mut curve, "'\n");
        }
        push_str(&mut s, curve.as_str());
        i = i + 1;
        proof {
            assert(names[i - 1] == labels@[i - 1]@);
            assert(s@ =~= head + curves_text(hdr_dirname@, names, i as nat));
        }
    }
    let ghost body = s@;
    if n == 0 {
        push_str(&mut s, "  NaN notitle\n");
    } else {
        assert(body =~= body + Seq::<char>::empty());
    }
    s
}

/// The file labels of the scenarios of a run, in order.
pub open spec fn labels_of(sections: Seq<Section>) -> Seq<Seq<char>>
    decreases sections.len(),
{
    if sections.len() == 0 {
        Seq::empty()
    } else {
        labels_of(sections.drop_last()) + sample_labels(sections.last().samples@)
    }
}

/// The file labels of some scenarios, in order.
pub open spec fn sample_labels(samples: Seq<SampleView>) -> Seq<Seq<char>> {
    samples.map_values(|s: SampleView| file_label(s.figures.label@))
}

/// The file labels of the scenarios of a run, in order.
pub fn safe_labels(sections: &Vec<Section>) -> (r: Vec<String>)
    ensures
        text::strings(r@) == labels_of(sections@),
{
    let mut out: Vec<String> = Vec::new();
    let mut i: usize = 0;
    assert(text::strings(out@) =~= labels_of(sections@.take(0)));
    while i < sections.len()
        invariant
            i <= sections.len(),
            text::strings(out@) == labels_of(sections@.take(i as int)),
        decreases sections.len() - i,
    {
        let samples = &sections[i].samples;
        let ghost before = text::strings(out@);
        let ghost names = sample_labels(samples@);
        let mut k: usize = 0;
        assert(before + names.take(0) =~= before);
        while k < samples.len()
            invariant
                k <= samples.len(),
                names == sample_labels(samples@),
                text::strings(out@) == before + names.take(k as int),
            decreases samples.len() - k,
        {
            let ghost held = out@;
            let label = sanitize(samples[k].figures.label.as_str());
            out.push(label);
            k = k + 1;
            assert(text::strings(out@) =~= text::strings(held).push(label@));
            assert(names.take(k as int) =~= names.take(k - 1).push(label@));
            assert(text::strings(out@) =~= before + names.take(k as int));
        }
        assert(names.take(k as int) =~= names);
        i = i + 1;
        assert(sections@.take(i as int).drop_last() =~= sections@.take(i - 1));
    }
    assert(sections@.take(i as int) =~= sections@);
    out
}

/// The files of a run.
pub struct RunPaths {
    pub markdown: String,
    pub csv: String,
    pub hdr_dir: String,
    pub gnuplot: String,
    pub svg: String,
}

/// A name and an identity, then an ending.
pub open spec fn artifact(name: Seq<char>, id: Seq<char>, ending: Seq<char>) -> Seq<char> {
    name + "_"@ + id + ending
}

fn artifact_name(name: &str, id: &str, ending: &str) -> (r: String)
    ensures
        r@ == artifact(name@, id@, ending@),
{
    let mut s = name.to_string();
    push_str(&mut s, "_");
    push_str(&mut s, id);
    push_str(&mut s, ending);
    s
}

impl RunPaths {
    /// The file names of the run `id` of the suite `name`, within the directory
    /// of all runs.
    pub fn named(name: &str, id: &str) -> (r: RunPaths)
        ensures
            r.markdown@ == artifact(name@, id@, ".md"@),
            r.csv@ == artifact(name@, id@, ".csv"@),
            r.hdr_dir@ == artifact(name@, id@, "_hdr"@),
            r.gnuplot@ == artifact(name@, id@, ".gnuplot"@),
            r.svg@ == artifact(name@, id@, ".svg"@),
    {
        RunPaths {
            markdown: artifact_name(name, id, ".md"),
            csv: artifact_name(name, id, ".csv"),
            hdr_dir: artifact_name(name, id, "_hdr"),
            gnuplot: artifact_name(name, id, ".gnuplot"),
            svg: artifact_name(name, id, ".svg"),
        }
    }
}

/// A file label is as long as the label: letters and digits stay, and everything else
/// becomes an underscore.
pub proof fn law_file_label_keeps_letters_and_digits(label: Seq<char>, i: int)
    requires
        0 <= i < label.len(),
    ensures
        file_label(label).len() == label.len(),
        alphanumeric(label[i]) ==> file_label(label)[i] == label[i],
        !alphanumeric(label[i]) ==> file_label(label)[i] == '_',
{
}

/// Escaping works character by character: backslashes and double quotes get a
/// backslash in front, single quotes are left out, and everything else stays.
pub proof fn law_escaping_is_by_character(s: Seq<char>, c: char)
    ensures
        escaped(Seq::empty()) == Seq::<char>::empty(),
        c == '\\' || c == '"' ==> escaped(s.push(c)) == escaped(s).push('\\').push(c),
        c == '\'' ==> escaped(s.push(c)) == escaped(s),
        c != '\\' && c != '"' && c != '\'' ==> escaped(s.push(c)) == escaped(s).push(c),
{
    assert(s.push(c).drop_last() =~= s);
    if c == '\\' {
        assert(escaped(s.push(c)) =~= escaped(s).push('\\').push(c));
    } else if c == '"' {
        assert(escaped(s.push(c)) =~= escaped(s).push('\\').push(c));
    } else if c == '\'' {
        assert(escaped(s.push(c)) =~= escaped(s));
    } else {
        assert(escaped(s.push(c)) =~= escaped(s).push(c));
    }
}

/// The curve of the `i`-th scenario.
spec fn curve_at(dir: Seq<char>, labels: Seq<Seq<char>>, i: int) -> Seq<char> {
    curve_text(dir, labels[i], i == labels.len() - 1)
}

proof fn lemma_curve_inside(dir: Seq<char>, labels: Seq<Seq<char>>, n: nat, i: int)
    requires
        0 <= i < n <= labels.len(),
    ensures
        exists|at: int| #[trigger]
            text::occurs_at(curves_text(dir, labels, n), at, curve_at(dir, labels, i)),
    decreases n,
{
    let before = curves_text(dir, labels, (n - 1) as nat);
    let whole = curves_text(dir, labels, n);
    let curve = curve_at(dir, labels, i);
    if i == n - 1 {
        assert(whole.subrange(before.len() as int, whole.len() as int) =~= curve);
        assert(text::occurs_at(whole, before.len() as int, curve));
    } else {
        lemma_curve_inside(dir, labels, (n - 1) as nat, i);
        let at = choose|at: int| #[trigger] text::occurs_at(before, at, curve);
        assert(whole.subrange(at, at + curve.len()) =~= before.subrange(at, at + curve.len()));
        assert(text::occurs_at(whole, at, curve));
    }
}

/// A plot script draws a curve for every scenario, from the scenario's own file.
pub proof fn law_every_scenario_has_a_curve(
    title: Seq<char>,
    dir: Seq<char>,
    svg: Seq<char>,
    labels: Seq<Seq<char>>,
    i: int,
)
    requires
        0 <= i < labels.len(),
    ensures
        exists|at: int| #[trigger]
            text::occurs_at(script_text(title, dir, svg, labels), at, dir + "/"@ + labels[i] + ".hdr' using 4:1"@),
{
    let curves = curves_text(dir, labels, labels.len());
    let curve = curve_at(dir, labels, i);
    lemma_curve_inside(dir, labels, labels.len(), i);
    let at = choose|at: int| #[trigger] text::occurs_at(curves, at, curve);
    let file = dir + "/"@ + labels[i] + ".hdr' using 4:1"@;
    reveal_strlit("  '");
    reveal_strlit(".hdr' using 4:1");
    reveal_strlit(".hdr' using 4:1 with lines lw 2 title '");
    assert(curve.subrange(3, 3 + file.len() as int) =~= file);
    let whole = script_text(title, dir, svg, labels);
    let lead = whole.len() - curves.len();
    assert(whole.subrange(lead + at + 3, lead + at + 3 + file.len()) =~= curves.subrange(
        at,
        at + curve.len(),
    ).subrange(3, 3 + file.len() as int));
    assert(text::occurs_at(whole, lead + at + 3, file));
}

/// The files of a run are named after the suite and the run: the suite's name, an
/// underscore, the run's id and the ending.
pub proof fn law_files_are_named_after_suite_and_run(
    name: Seq<char>,
    id: Seq<char>,
    ending: Seq<char>,
)
    ensures
        ({
            let file = artifact(name, id, ending);
            &&& file.len() == name.len() + 1 + id.len() + ending.len()
            &&& text::occurs_at(file, 0, name)
            &&& file[name.len() as int] == '_'
            &&& text::occurs_at(file, name.len() as int + 1, id)
            &&& text::occurs_at(file, file.len() - ending.len(), ending)
        }),
{
    reveal_strlit("_");
    let file = artifact(name, id, ending);
    assert(file.subrange(0, name.len() as int) =~= name);
    let at = name.len() as int + 1;
    assert(file.subrange(at, at + id.len()) =~= id);
    assert(file.subrange(file.len() - ending.len(), file.len() as int) =~= ending);
}

} // verus!
