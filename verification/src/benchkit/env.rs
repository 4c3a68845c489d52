//! The machine and process state of a run, and the header that reports it.
use super::calendar;
use super::calendar::utc_stamp;
use crate::text;
use crate::text::{
    chars_of, find_char, is_word, lines, parse_number, piece, push_decimal, push_str, reads, split,
    starts_with, string_of, trim,
};
use vstd::prelude::*;

verus! {

#[derive(Copy, Clone, Debug, PartialEq, Eq, Structural)]
pub enum Turbo {
    On,
    Off,
    Unknown,
}

/// A `Cpus_allowed_list` that names exactly one core: it is known, and has
/// neither a range nor a second entry.
pub open spec fn names_one_core(affinity: Seq<char>) -> bool {
    &&& affinity.len() > 0
    &&& affinity != "?"@
    &&& !affinity.contains('-')
    &&& !affinity.contains(',')
}

/// Whether a `Cpus_allowed_list` names exactly one core.
pub fn is_single_core(affinity: &str) -> (r: bool)
    ensures
        r == names_one_core(affinity@),
{
    let chars = chars_of(affinity);
    proof {
        text::lemma_next_place(chars@, '-', 0);
        text::lemma_next_place(chars@, ',', 0);
    }
    let dash: usize = find_char(&chars, '-', 0);
    let comma: usize = find_char(&chars, ',', 0);
    chars.len() > 0 && !reads(&chars, "?") && dash == chars.len() && comma == chars.len()
}

/// The numbers from `a` up to and including `b`.
pub open spec fn span(a: nat, b: nat) -> Seq<u32> {
    if a <= b {
        Seq::new((b - a + 1) as nat, |i: int| (a + i) as u32)
    } else {
        Seq::empty()
    }
}

/// The cores that one entry of a core list names: one core, or a range of them.
/// An entry that is neither names none.
pub open spec fn cores_of_entry(entry: Seq<char>) -> Seq<u32> {
    let dash = text::next_place(entry, '-', 0);
    if 0 <= dash < entry.len() {
        match (
            text::number(entry.take(dash), u32::MAX as nat),
            text::number(entry.skip(dash + 1), u32::MAX as nat),
        ) {
            (Some(a), Some(b)) => span(a, b),
            _ => Seq::empty(),
        }
    } else {
        match text::number(entry, u32::MAX as nat) {
            Some(v) => seq![v as u32],
            None => Seq::empty(),
        }
    }
}

/// The cores that the entries of a list name, in order.
pub open spec fn cores_of_entries(entries: Seq<Seq<char>>) -> Seq<u32>
    decreases entries.len(),
{
    if entries.len() == 0 {
        Seq::empty()
    } else {
        cores_of_entries(entries.drop_last()) + cores_of_entry(text::trimmed(entries.last()))
    }
}

/// The cores that a list such as `0-1,4` names.
pub open spec fn cores_of_list(list: Seq<char>) -> Seq<u32> {
    cores_of_entries(text::split_on(list, ','))
}

/// Read one entry of a core list.
fn parse_entry(entry: &Vec<char>) -> (r: Vec<u32>)
    ensures
        r@ == cores_of_entry(entry@),
{
    let mut out: Vec<u32> = Vec::new();
    let dash: usize = find_char(entry, '-', 0);
    if dash < entry.len() {
        let low = piece(entry, 0, dash);
        let high = piece(entry, dash + 1, entry.len());
        assert(low@ =~= entry@.take(dash as int));
        assert(high@ =~= entry@.skip(dash + 1));
        match (parse_number(&low, u32::MAX as u64), parse_number(&high, u32::MAX as u64)) {
            (Some(a), Some(b)) => {
                let mut i: u64 = a;
                while i <= b
                    invariant
                        a <= i,
                        b <= u32::MAX,
                        i <= b + 1 || i == a,
                        out@ == (if i > a {
                            span(a as nat, (i - 1) as nat)
                        } else {
                            Seq::empty()
                        }),
                    decreases b + 1 - i,
                {
                    let ghost before = out@;
                    out.push(i as u32);
                    i = i + 1;
                    assert(out@ =~= span(a as nat, (i - 1) as nat));
                }
                assert(out@ =~= span(a as nat, b as nat));
            },
            _ => {},
        }
    } else {
        match parse_number(entry, u32::MAX as u64) {
            Some(v) => {
                out.push(v as u32);
                assert(out@ =~= seq![v as u32]);
            },
            None => {},
        }
    }
    out
}

/// The cores that a list such as `2,6` or `0-3` names. Entries that name no core
/// are passed over.
pub fn parse_cpu_list(s: &str) -> (r: Vec<u32>)
    ensures
        r@ == cores_of_list(s@),
{
    let parts = split(&chars_of(s), ',');
    let ghost entries = text::texts(parts@);
    let mut out: Vec<u32> = Vec::new();
    let mut i: usize = 0;
    while i < parts.len()
        invariant
            i <= parts.len(),
            entries == text::texts(parts@),
            out@ == cores_of_entries(entries.take(i as int)),
        decreases parts.len() - i,
    {
        let mut cores = parse_entry(&trim(&parts[i]));
        let ghost before = out@;
        let ghost added = cores@;
        out.append(&mut cores);
        i = i + 1;
        proof {
            assert(entries.take(i as int).drop_last() =~= entries.take(i - 1));
            assert(entries.take(i as int).last() == entries[i - 1]);
            assert(out@ =~= before + added);
        }
    }
    assert(entries.take(i as int) =~= entries);
    out
}

/// The value of the first line that begins with `key`: what stands between the
/// first and the second colon of the line, without white space around it.
pub open spec fn field_of(lines: Seq<Seq<char>>, key: Seq<char>) -> Option<Seq<char>>
    decreases lines.len(),
{
    if lines.len() == 0 {
        None
    } else if text::occurs_at(lines[0], 0, key) {
        let parts = text::split_on(lines[0], ':');
        if parts.len() > 1 {
            Some(text::trimmed(parts[1]))
        } else {
            None
        }
    } else {
        field_of(lines.skip(1), key)
    }
}

/// The value of `key` in the text of a `/proc` file.
fn proc_field(content: &str, key: &str) -> (r: Option<String>)
    ensures
        match r {
            Some(v) => field_of(text::lines_of(text::trimmed(content@)), key@) == Some(v@),
            None => field_of(text::lines_of(text::trimmed(content@)), key@) is None,
        },
{
    let all = lines(&trim(&chars_of(content)));
    let ghost whole = text::texts(all@);
    let mut i: usize = 0;
    assert(whole.skip(0) =~= whole);
    while i < all.len()
        invariant
            i <= all.len(),
            whole == text::texts(all@),
            whole == text::lines_of(text::trimmed(content@)),
            field_of(whole, key@) == field_of(whole.skip(i as int), key@),
        decreases all.len() - i,
    {
        assert(whole.skip(i as int)[0] == all[i as int]@);
        if starts_with(&all[i], key) {
            let parts = split(&all[i], ':');
            if parts.len() > 1 {
                let value = trim(&parts[1]);
                assert(text::texts(parts@)[1] == parts[1]@);
                assert(value@.subrange(0, value@.len() as int) =~= value@);
                return Some(string_of(&value, 0, value.len()));
            }
            return None;
        }
        assert(whole.skip(i as int).skip(1) =~= whole.skip(i + 1));
        i = i + 1;
    }
    None
}

/// What an unread or empty file stands for.
pub open spec fn content_or(content: Option<String>, default: Seq<char>) -> Seq<char> {
    match content {
        Some(s) => if text::trimmed(s@).len() > 0 {
            text::trimmed(s@)
        } else {
            default
        },
        None => default,
    }
}

fn trimmed_or(content: &Option<String>, default: &str) -> (r: String)
    ensures
        r@ == content_or(*content, default@),
{
    match content {
        Some(s) => {
            let t = trim(&chars_of(s.as_str()));
            if t.len() > 0 {
                assert(t@.subrange(0, t@.len() as int) =~= t@);
                string_of(&t, 0, t.len())
            } else {
                default.to_string()
            }
        },
        None => default.to_string(),
    }
}

/// The processor model, from the text of `/proc/cpuinfo`.
pub fn cpu_model(cpuinfo: &Option<String>) -> (r: String)
    ensures
        r@ == match *cpuinfo {
            Some(s) => match field_of(text::lines_of(text::trimmed(s@)), "model name"@) {
                Some(v) => v,
                None => "unknown"@,
            },
            None => "unknown"@,
        },
{
    match cpuinfo {
        Some(s) => match proc_field(s.as_str(), "model name") {
            Some(v) => v,
            None => "unknown".to_string(),
        },
        None => "unknown".to_string(),
    }
}

/// The list of cores that the process may run on, from the text of
/// `/proc/self/status`.
pub fn affinity_of(status: &Option<String>) -> (r: String)
    ensures
        r@ == match *status {
            Some(s) => match field_of(text::lines_of(text::trimmed(s@)), "Cpus_allowed_list:"@) {
                Some(v) => v,
                None => "?"@,
            },
            None => "?"@,
        },
{
    match status {
        Some(s) => match proc_field(s.as_str(), "Cpus_allowed_list:") {
            Some(v) => v,
            None => "?".to_string(),
        },
        None => "?".to_string(),
    }
}

/// The turbo state, from the text of the driver's `no_turbo` file.
pub fn turbo_of(no_turbo: &Option<String>) -> (r: Turbo)
    ensures
        r == match *no_turbo {
            Some(s) => if text::trimmed(s@) == "1"@ {
                Turbo::Off
            } else if text::trimmed(s@) == "0"@ {
                Turbo::On
            } else {
                Turbo::Unknown
            },
            None => Turbo::Unknown,
        },
{
    match no_turbo {
        Some(s) => {
            let t = trim(&chars_of(s.as_str()));
            if reads(&t, "1") {
                Turbo::Off
            } else if reads(&t, "0") {
                Turbo::On
            } else {
                Turbo::Unknown
            }
        },
        None => Turbo::Unknown,
    }
}

/// The core that a pinned process runs on.
pub open spec fn core_of(affinity: Seq<char>) -> Option<u32> {
    if names_one_core(affinity) {
        match text::number(affinity, u32::MAX as nat) {
            Some(v) => Some(v as u32),
            None => None,
        }
    } else {
        None
    }
}

/// The core that a process with this affinity is pinned to, if it is pinned.
pub fn bench_core(affinity: &str) -> (r: Option<u32>)
    ensures
        r == core_of(affinity@),
{
    if is_single_core(affinity) {
        match parse_number(&chars_of(affinity), u32::MAX as u64) {
            Some(v) => Some(v as u32),
            None => None,
        }
    } else {
        None
    }
}

/// A frequency in kHz, from the text of a `cpufreq` file.
pub open spec fn khz(content: Option<String>) -> Option<nat> {
    match content {
        Some(s) => text::number(text::trimmed(s@), u64::MAX as nat),
        None => None,
    }
}

fn read_khz(content: &Option<String>) -> (r: Option<u64>)
    ensures
        match r {
            Some(v) => khz(*content) == Some(v as nat),
            None => khz(*content) is None,
        },
{
    match content {
        Some(s) => parse_number(&trim(&chars_of(s.as_str())), u64::MAX),
        None => None,
    }
}

/// A core whose `online` file reads 1 is online, and so is one without such a
/// file: it cannot be taken offline.
pub open spec fn is_online(content: Option<String>) -> bool {
    match content {
        Some(s) => text::trimmed(s@) == "1"@,
        None => true,
    }
}

fn online(content: &Option<String>) -> (r: bool)
    ensures
        r == is_online(*content),
{
    match content {
        Some(s) => reads(&trim(&chars_of(s.as_str())), "1"),
        None => true,
    }
}

/// The cores other than `core` in a list of siblings, with the text of their
/// `online` files, that are online.
pub open spec fn online_of(core: u32, siblings: Seq<(u32, Option<String>)>) -> Seq<u32>
    decreases siblings.len(),
{
    if siblings.len() == 0 {
        Seq::empty()
    } else {
        let rest = online_of(core, siblings.drop_last());
        if siblings.last().0 != core && is_online(siblings.last().1) {
            rest.push(siblings.last().0)
        } else {
            rest
        }
    }
}

/// The online siblings of `core`.
pub fn online_siblings(core: u32, siblings: &Vec<(u32, Option<String>)>) -> (r: Vec<u32>)
    ensures
        r@ == online_of(core, siblings@),
{
    let mut out: Vec<u32> = Vec::new();
    let mut i: usize = 0;
    while i < siblings.len()
        invariant
            i <= siblings.len(),
            out@ == online_of(core, siblings@.take(i as int)),
        decreases siblings.len() - i,
    {
        let (sibling, content) = &siblings[i];
        let up: bool = online(content);
        if *sibling != core && up {
            out.push(*sibling);
        }
        i = i + 1;
        assert(siblings@.take(i as int).drop_last() =~= siblings@.take(i - 1));
    }
    assert(siblings@.take(i as int) =~= siblings@);
    out
}

/// The commit of a checkout, from what `git rev-parse` printed; none if it
/// printed nothing.
pub fn commit_of(stdout: &Option<String>) -> (r: Option<String>)
    ensures
        match *stdout {
            Some(s) => if text::trimmed(s@).len() > 0 {
                r is Some && r->0@ == text::trimmed(s@)
            } else {
                r is None
            },
            None => r is None,
        },
{
    match stdout {
        Some(s) => {
            let t = trim(&chars_of(s.as_str()));
            if t.len() > 0 {
                assert(t@.subrange(0, t@.len() as int) =~= t@);
                Some(string_of(&t, 0, t.len()))
            } else {
                None
            }
        },
        None => None,
    }
}

/// What was read from the machine for one run. The per-core readings are those
/// of the core that the process is pinned to.
pub struct Readings {
    pub cpuinfo: Option<String>,
    pub status: Option<String>,
    pub governor: Option<String>,
    pub no_turbo: Option<String>,
    pub isolated: Option<String>,
    /// The clock rate in GHz, to two decimals.
    pub tsc_ghz: String,
    pub unix_secs: u64,
    pub git_head: Option<String>,
    pub dirty: bool,
    pub rustc: String,
    pub rustflags: String,
    pub profile: String,
    pub min_freq: Option<String>,
    pub max_freq: Option<String>,
    pub siblings: Vec<(u32, Option<String>)>,
}

/// The machine and process state of one run.
pub struct RunEnv {
    pub cpu_model: String,
    pub governor: String,
    pub turbo: Turbo,
    /// `none` if no cores are isolated.
    pub isolated: String,
    pub affinity: String,
    /// The affinity names exactly one core.
    pub pinned: bool,
    /// The clock rate in GHz, to two decimals.
    pub tsc_ghz: String,
    pub unix_secs: u64,
    /// The UTC time as `YYYY-MM-DD_HH-MM-SS`.
    pub stamp: String,
    pub commit: Option<String>,
    /// Tracked files were modified since the commit.
    pub dirty: bool,
    pub rustc: String,
    pub rustflags: String,
    pub profile: String,
    /// The core that the process is pinned to; only for it are the clock limits
    /// and the siblings known.
    pub bench_core: Option<u32>,
    pub clock_min_khz: Option<u64>,
    pub clock_max_khz: Option<u64>,
    pub smt_siblings_online: Vec<u32>,
}

/// An optional number, as a mathematical one.
pub open spec fn wide(n: Option<u64>) -> Option<nat> {
    match n {
        Some(v) => Some(v as nat),
        None => None,
    }
}

impl RunEnv {
    /// The state that the readings show.
    pub fn detect(r: Readings) -> (env: RunEnv)
        ensures
            env.cpu_model@ == match r.cpuinfo {
                Some(s) => match field_of(text::lines_of(text::trimmed(s@)), "model name"@) {
                    Some(v) => v,
                    None => "unknown"@,
                },
                None => "unknown"@,
            },
            env.governor@ == content_or(r.governor, "unknown"@),
            env.turbo == match r.no_turbo {
                Some(s) => if text::trimmed(s@) == "1"@ {
                    Turbo::Off
                } else if text::trimmed(s@) == "0"@ {
                    Turbo::On
                } else {
                    Turbo::Unknown
                },
                None => Turbo::Unknown,
            },
            env.isolated@ == content_or(r.isolated, "none"@),
            env.affinity@ == match r.status {
                Some(s) => match field_of(text::lines_of(text::trimmed(s@)), "Cpus_allowed_list:"@) {
                    Some(v) => v,
                    None => "?"@,
                },
                None => "?"@,
            },
            env.pinned == names_one_core(env.affinity@),
            env.tsc_ghz == r.tsc_ghz,
            env.unix_secs == r.unix_secs,
            env.stamp@ == calendar::stamp_text(
                calendar::date_of(r.unix_secs as int / 86_400),
                (r.unix_secs as nat % 86_400) / 3600,
                (r.unix_secs as nat % 3600) / 60,
                r.unix_secs as nat % 60,
            ),
            env.commit is Some == (r.git_head is Some && text::trimmed(r.git_head->0@).len() > 0),
            env.commit is Some ==> env.commit->0@ == text::trimmed(r.git_head->0@),
            env.dirty == r.dirty,
            env.rustc == r.rustc,
            env.rustflags == r.rustflags,
            env.profile == r.profile,
            env.bench_core == core_of(env.affinity@),
            wide(env.clock_min_khz) == if env.bench_core is Some {
                khz(r.min_freq)
            } else {
                None
            },
            wide(env.clock_max_khz) == if env.bench_core is Some {
                khz(r.max_freq)
            } else {
                None
            },
            env.smt_siblings_online@ == match env.bench_core {
                Some(core) => online_of(core, r.siblings@),
                None => Seq::empty(),
            },
    {
        let affinity = affinity_of(&r.status);
        let pinned: bool = is_single_core(affinity.as_str());
        let core = bench_core(affinity.as_str());
        let (clock_min_khz, clock_max_khz) = match core {
            Some(_) => (read_khz(&r.min_freq), read_khz(&r.max_freq)),
            None => (None, None),
        };
        let smt_siblings_online = match core {
            Some(c) => online_siblings(c, &r.siblings),
            None => Vec::new(),
        };
        RunEnv {
            cpu_model: cpu_model(&r.cpuinfo),
            governor: trimmed_or(&r.governor, "unknown"),
            turbo: turbo_of(&r.no_turbo),
            isolated: trimmed_or(&r.isolated, "none"),
            affinity,
            pinned,
            tsc_ghz: r.tsc_ghz,
            unix_secs: r.unix_secs,
            stamp: utc_stamp(r.unix_secs),
            commit: commit_of(&r.git_head),
            dirty: r.dirty,
            rustc: r.rustc,
            rustflags: r.rustflags,
            profile: r.profile,
            bench_core: core,
            clock_min_khz,
            clock_max_khz,
            smt_siblings_online,
        }
    }
}

/// The names of cores, separated by commas.
pub open spec fn core_names(cores: Seq<u32>) -> Seq<char>
    decreases cores.len(),
{
    if cores.len() == 0 {
        Seq::empty()
    } else if cores.len() == 1 {
        "cpu"@ + text::decimal(cores[0] as nat)
    } else {
        core_names(cores.drop_last()) + ", cpu"@ + text::decimal(cores.last() as nat)
    }
}

fn join_cores(cores: &Vec<u32>) -> (r: String)
    ensures
        r@ == core_names(cores@),
{
    let mut out = String::new();
    let mut i: usize = 0;
    while i < cores.len()
        invariant
            i <= cores.len(),
            out@ == core_names(cores@.take(i as int)),
        decreases cores.len() - i,
    {
        let ghost before = out@;
        if i == 0 {
            push_str(&mut out, "cpu");
        } else {
            push_str(&mut out, ", cpu");
        }
        push_decimal(&mut out, cores[i] as u64);
        i = i + 1;
        proof {
            assert(cores@.take(i as int).drop_last() =~= cores@.take(i - 1));
            if i == 1 {
                assert(out@ =~= "cpu"@ + text::decimal(cores@[0] as nat));
            }
        }
    }
    assert(cores@.take(i as int) =~= cores@);
    out
}

/// The core that warnings speak of.
pub open spec fn spoken_core(env: RunEnv) -> nat {
    match env.bench_core {
        Some(c) => c as nat,
        None => 0,
    }
}

pub open spec fn unpinned_warning(env: RunEnv) -> Seq<char> {
    "process not pinned to one core (affinity `"@ + env.affinity@
        + "`): tails include OS migration jitter — re-run under `taskset -c <core>`"@
}

pub open spec fn governor_warning(env: RunEnv) -> Seq<char> {
    "governor `"@ + env.governor@ + "` (not `performance`): clock may scale during the run"@
}

pub open spec fn clock_warning(env: RunEnv) -> Seq<char> {
    "clock not pinned on cpu"@ + text::decimal(spoken_core(env)) + " (scaling min="@
        + text::decimal(env.clock_min_khz->0 as nat) + " max="@ + text::decimal(
        env.clock_max_khz->0 as nat,
    ) + " kHz): the rate can move mid-run — pin it: sudo cpupower -c "@ + text::decimal(
        spoken_core(env),
    ) + " frequency-set -d <khz> -u <khz>"@
}

pub open spec fn sibling_warning(env: RunEnv) -> Seq<char> {
    "SMT sibling "@ + core_names(env.smt_siblings_online@) + " of bench cpu"@ + text::decimal(
        spoken_core(env),
    )
        + " is online: an OS thread there shares the physical core's pipelines and caches and pollutes tails — offline it: echo 0 | sudo tee /sys/devices/system/cpu/cpu<N>/online"@
}

/// One entry if `on`, else none.
pub open spec fn when(on: bool, entry: Seq<char>) -> Seq<Seq<char>> {
    if on {
        seq![entry]
    } else {
        Seq::empty()
    }
}

/// The clock limits of the bench core are known and differ.
pub open spec fn clock_moves(env: RunEnv) -> bool {
    env.clock_min_khz is Some && env.clock_max_khz is Some && env.clock_min_khz->0
        != env.clock_max_khz->0
}

/// What makes the latencies of a run untrustworthy.
pub open spec fn warnings_of(env: RunEnv) -> Seq<Seq<char>> {
    when(!env.pinned, unpinned_warning(env)) + when(
        env.governor@ != "performance"@ && env.governor@ != "unknown"@,
        governor_warning(env),
    ) + when(clock_moves(env), clock_warning(env)) + when(
        env.smt_siblings_online@.len() > 0,
        sibling_warning(env),
    )
}

/// What identifies the artifacts of a run: the commit, marked if the tree was
/// modified, or the time where there is no commit.
pub open spec fn run_id_of(env: RunEnv) -> Seq<char> {
    match env.commit {
        Some(sha) => if env.dirty {
            sha@ + "-dirty"@
        } else {
            sha@
        },
        None => env.stamp@,
    }
}

pub open spec fn code_line(env: RunEnv) -> Seq<char> {
    match env.commit {
        Some(sha) => if env.dirty {
            "- code: `"@ + sha@ + "` + uncommitted changes (dirty)\n"@
        } else {
            "- code: `"@ + sha@ + "`\n"@
        },
        None => "- code: unknown (not a git checkout)\n"@,
    }
}

pub open spec fn build_line(env: RunEnv) -> Seq<char> {
    let head = "- build: "@ + env.rustc@ + " · profile `"@ + env.profile@ + "` · rustflags "@;
    if env.rustflags@.len() == 0 {
        head + "(none)\n"@
    } else {
        head + "`"@ + env.rustflags@ + "`\n"@
    }
}

pub open spec fn turbo_word(turbo: Turbo) -> Seq<char> {
    match turbo {
        Turbo::On => "on"@,
        Turbo::Off => "off"@,
        Turbo::Unknown => "?"@,
    }
}

pub open spec fn pinned_mark(pinned: bool) -> Seq<char> {
    if pinned {
        "(pinned ✓)\n"@
    } else {
        "(NOT pinned ⚠)\n"@
    }
}

pub open spec fn machine_line(env: RunEnv) -> Seq<char> {
    "- governor `"@ + env.governor@ + "` · turbo `"@ + turbo_word(env.turbo)
        + "` · isolated cores `"@ + env.isolated@ + "` · affinity `"@ + env.affinity@ + "` "@
        + pinned_mark(env.pinned)
}

pub open spec fn clock_line(env: RunEnv) -> Seq<char> {
    if env.bench_core is Some && env.clock_min_khz is Some && env.clock_max_khz is Some {
        "- clock: cpu"@ + text::decimal(env.bench_core->0 as nat) + " scaling min="@
            + text::decimal(env.clock_min_khz->0 as nat) + " max="@ + text::decimal(
            env.clock_max_khz->0 as nat,
        ) + " kHz "@ + pinned_mark(env.clock_min_khz->0 == env.clock_max_khz->0)
    } else {
        Seq::empty()
    }
}

/// The lines of warnings at the end of a header.
pub open spec fn warning_lines(warnings: Seq<Seq<char>>) -> Seq<char>
    decreases warnings.len(),
{
    if warnings.len() == 0 {
        Seq::empty()
    } else {
        warning_lines(warnings.drop_last()) + "- ⚠ "@ + warnings.last() + "\n"@
    }
}

/// The block that says how a run was measured.
pub open spec fn header_of(env: RunEnv, title: Seq<char>, scope: Seq<char>) -> Seq<char> {
    "# "@ + title + " — "@ + env.stamp@ + " UTC (unix "@ + text::decimal(env.unix_secs as nat)
        + ")\n\n**Hardware:** "@ + env.cpu_model@ + "\n"@ + code_line(env) + build_line(env)
        + machine_line(env) + clock_line(env) + "- TSC rate ~"@ + env.tsc_ghz@
        + " GHz\n- scope: "@ + scope
        + "\n- latencies in **ns**; `M/s` is derived `1/mean` (single-core upper bound, not sustained). Read p50 first.\n"@
        + warning_lines(warnings_of(env))
}

impl RunEnv {
    /// What identifies the artifacts of this run.
    pub fn run_id(&self) -> (r: String)
        ensures
            r@ == run_id_of(*self),
    {
        match &self.commit {
            Some(sha) => {
                let mut out = sha.clone();
                if self.dirty {
                    push_str(&mut out, "-dirty");
                }
                out
            },
            None => self.stamp.clone(),
        }
    }

    /// What makes the latencies of this run untrustworthy; nothing for a clean
    /// run.
    pub fn warnings(&self) -> (r: Vec<String>)
        ensures
            text::strings(r@) == warnings_of(*self),
    {
        let mut w: Vec<String> = Vec::new();
        let core: u64 = match self.bench_core {
            Some(c) => c as u64,
            None => 0,
        };
        let ghost s0 = text::strings(w@);
        if !self.pinned {
            let mut s = "process not pinned to one core (affinity `".to_string();
            push_str(&mut s, self.affinity.as_str());
            push_str(
                &mut s,
                "`): tails include OS migration jitter — re-run under `taskset -c <core>`",
            );
            w.push(s);
        }
        assert(text::strings(w@) =~= when(!self.pinned, unpinned_warning(*self)));
        let ghost s1 = text::strings(w@);
        let scaled: bool = !is_word(&self.governor, "performance") && !is_word(
            &self.governor,
            "unknown",
        );
        if scaled {
            let mut s = "governor `".to_string();
            push_str(&mut s, self.governor.as_str());
            push_str(&mut s, "` (not `performance`): clock may scale during the run");
            w.push(s);
        }
        assert(text::strings(w@) =~= s1 + when(scaled, governor_warning(*self)));
        let ghost s2 = text::strings(w@);
        match (self.clock_min_khz, self.clock_max_khz) {
            (Some(min), Some(max)) => {
                if min != max {
                    let mut s = "clock not pinned on cpu".to_string();
                    push_decimal(&mut s, core);
                    push_str(&mut s, " (scaling min=");
                    push_decimal(&mut s, min);
                    push_str(&mut s, " max=");
                    push_decimal(&mut s, max);
                    push_str(
                        &mut s,
                        " kHz): the rate can move mid-run — pin it: sudo cpupower -c ",
                    );
                    push_decimal(&mut s, core);
                    push_str(&mut s, " frequency-set -d <khz> -u <khz>");
                    w.push(s);
                }
            },
            _ => {},
        }
        assert(text::strings(w@) =~= s2 + when(clock_moves(*self), clock_warning(*self)));
        let ghost s3 = text::strings(w@);
        if self.smt_siblings_online.len() > 0 {
            let mut s = "SMT sibling ".to_string();
            push_str(&mut s, join_cores(&self.smt_siblings_online).as_str());
            push_str(&mut s, " of bench cpu");
            push_decimal(&mut s, core);
            push_str(
                &mut s,
                " is online: an OS thread there shares the physical core's pipelines and caches and pollutes tails — offline it: echo 0 | sudo tee /sys/devices/system/cpu/cpu<N>/online",
            );
            w.push(s);
        }
        assert(text::strings(w@) =~= s3 + when(
            self.smt_siblings_online@.len() > 0,
            sibling_warning(*self),
        ));
        w
    }

    fn code(&self) -> (r: String)
        ensures
            r@ == code_line(*self),
    {
        match &self.commit {
            Some(sha) => {
                let mut s = "- code: `".to_string();
                push_str(&mut s, sha.as_str());
                if self.dirty {
                    push_str(&mut s, "` + uncommitted changes (dirty)\n");
                } else {
                    push_str(&mut s, "`\n");
                }
                s
            },
            None => "- code: unknown (not a git checkout)\n".to_string(),
        }
    }

    fn build(&self) -> (r: String)
        ensures
            r@ == build_line(*self),
    {
        let mut s = "- build: ".to_string();
        push_str(&mut s, self.rustc.as_str());
        push_str(&mut s, " · profile `");
        push_str(&mut s, self.profile.as_str());
        push_str(&mut s, "` · rustflags ");
        if self.rustflags.as_str().is_empty() {
            push_str(&mut s, "(none)\n");
        } else {
            push_str(&mut s, "`");
            push_str(&mut s, self.rustflags.as_str());
            push_str(&mut s, "`\n");
        }
        s
    }

    fn machine(&self) -> (r: String)
        ensures
            r@ == machine_line(*self),
    {
        let mut s = "- governor `".to_string();
        push_str(&mut s, self.governor.as_str());
        push_str(&mut s, "` · turbo `");
        push_str(
            &mut s,
            match self.turbo {
                Turbo::On => "on",
                Turbo::Off => "off",
                Turbo::Unknown => "?",
            },
        );
        push_str(&mut s, "` · isolated cores `");
        push_str(&mut s, self.isolated.as_str());
        push_str(&mut s, "` · affinity `");
        push_str(&mut s, self.affinity.as_str());
        push_str(&mut s, "` ");
        push_str(
            &mut s,
            if self.pinned {
                "(pinned ✓)\n"
            } else {
                "(NOT pinned ⚠)\n"
            },
        );
        s
    }

    fn clock(&self) -> (r: String)
        ensures
            r@ == clock_line(*self),
    {
        match (self.bench_core, self.clock_min_khz, self.clock_max_khz) {
            (Some(core), Some(min), Some(max)) => {
                let mut s = "- clock: cpu".to_string();
                push_decimal(&mut s, core as u64);
                push_str(&mut s, " scaling min=");
                push_decimal(&mut s, min);
                push_str(&mut s, " max=");
                push_decimal(&mut s, max);
                push_str(&mut s, " kHz ");
                push_str(
                    &mut s,
                    if min == max {
                        "(pinned ✓)\n"
                    } else {
                        "(NOT pinned ⚠)\n"
                    },
                );
                s
            },
            _ => String::new(),
        }
    }

    /// The block that says how this run was measured, with its warnings.
    pub fn header(&self, title: &str, scope: &str) -> (r: String)
        ensures
            r@ == header_of(*self, title@, scope@),
    {
        let mut s = "# ".to_string();
        push_str(&mut s, title);
        push_str(&mut s, " — ");
        push_str(&mut s, self.stamp.as_str());
        push_str(&mut s, " UTC (unix ");
        push_decimal(&mut s, self.unix_secs);
        push_str(&mut s, ")\n\n**Hardware:** ");
        push_str(&mut s, self.cpu_model.as_str());
        push_str(&mut s, "\n");
        push_str(&mut s, self.code().as_str());
        push_str(&mut s, self.build().as_str());
        push_str(&mut s, self.machine().as_str());
        push_str(&mut s, self.clock().as_str());
        push_str(&mut s, "- TSC rate ~");
        push_str(&mut s, self.tsc_ghz.as_str());
        push_str(&mut s, " GHz\n- scope: ");
        push_str(&mut s, scope);
        push_str(
            &mut s,
            "\n- latencies in **ns**; `M/s` is derived `1/mean` (single-core upper bound, not sustained). Read p50 first.\n",
        );
        let warnings = self.warnings();
        let ghost all = text::strings(warnings@);
        let ghost head = s@;
        let mut i: usize = 0;
        assert(head + warning_lines(all.take(0)) =~= head);
        while i < warnings.len()
            invariant
                i <= warnings.len(),
                all == text::strings(warnings@),
                s@ == head + warning_lines(all.take(i as int)),
            decreases warnings.len() - i,
        {
            let ghost before = s@;
            push_str(&mut s, "- ⚠ ");
            push_str(&mut s, warnings[i].as_str());
            push_str(&mut s, "\n");
            i = i + 1;
            proof {
                assert(all.take(i as int).drop_last() =~= all.take(i - 1));
                assert(all.take(i as int).last() == warnings[i - 1]@);
                assert(s@ =~= head + warning_lines(all.take(i as int)));
            }
        }
        assert(all.take(i as int) =~= all);
        s
    }
}

/// A run on one pinned core with a fixed clock and no sibling online has no
/// warnings.
pub proof fn law_clean_run_has_no_warnings(env: RunEnv)
    requires
        env.pinned,
        env.governor@ == "performance"@ || env.governor@ == "unknown"@,
        !clock_moves(env),
        env.smt_siblings_online@.len() == 0,
    ensures
        warnings_of(env) == Seq::<Seq<char>>::empty(),
{
    assert(warnings_of(env) =~= Seq::<Seq<char>>::empty());
}

/// A process is pinned if its affinity names one core: it is known, and is neither a
/// range nor a list.
pub proof fn law_pinned_means_no_range_and_no_list(affinity: Seq<char>)
    ensures
        names_one_core(affinity) <==> affinity.len() > 0 && affinity != "?"@ && forall|i: int|
            0 <= i < affinity.len() ==> #[trigger] affinity[i] != '-' && affinity[i] != ',',
{
    if names_one_core(affinity) {
        assert forall|i: int| 0 <= i < affinity.len() implies #[trigger] affinity[i] != '-'
            && affinity[i] != ',' by {
            assert(affinity.contains(affinity[i]));
        }
    }
}

proof fn lemma_entries_add(a: Seq<Seq<char>>, b: Seq<Seq<char>>)
    ensures
        cores_of_entries(a + b) == cores_of_entries(a) + cores_of_entries(b),
    decreases b.len(),
{
    if b.len() == 0 {
        assert(a + b =~= a);
        assert(cores_of_entries(a) + cores_of_entries(b) =~= cores_of_entries(a));
    } else {
        assert((a + b).drop_last() =~= a + b.drop_last());
        lemma_entries_add(a, b.drop_last());
        assert(cores_of_entries(a + b) =~= cores_of_entries(a) + cores_of_entries(b));
    }
}

/// A list of cores is read entry by entry.
pub proof fn law_core_list_is_read_entry_by_entry(a: Seq<char>, b: Seq<char>)
    ensures
        cores_of_list(a.push(',') + b) == cores_of_list(a) + cores_of_list(b),
{
    text::law_split_goes_on_behind_a_separator(a, ',', b);
    lemma_entries_add(text::split_on(a, ','), text::split_on(b, ','));
}

proof fn lemma_single_entry(entry: Seq<char>)
    requires
        forall|i: int| 0 <= i < entry.len() ==> #[trigger] entry[i] != ',',
        entry.len() > 0 ==> !text::is_white(entry[0]) && !text::is_white(entry.last()),
    ensures
        cores_of_list(entry) == cores_of_entry(entry),
{
    text::law_first_place(entry, ',', Seq::empty());
    text::law_trim_keeps_what_has_no_white_ends(entry);
    let parts = text::split_on(entry, ',');
    assert(parts =~= seq![entry]);
    assert(parts.drop_last() =~= Seq::empty());
    assert(cores_of_entries(parts.drop_last()) =~= Seq::empty());
    assert(cores_of_list(entry) =~= cores_of_entry(entry));
}

/// A number stands for one core, and a range for every core from its first to its
/// last, in ascending order.
pub proof fn law_core_ranges_hold_every_core(a: u32, b: u32)
    ensures
        cores_of_list(text::decimal(a as nat)) == seq![a],
        ({
            let cores = cores_of_list(text::decimal(a as nat).push('-') + text::decimal(b as nat));
            &&& a <= b ==> cores.len() == b - a + 1 && forall|i: int|
                0 <= i < cores.len() ==> #[trigger] cores[i] == a + i
            &&& a > b ==> cores.len() == 0
        }),
{
    let x = text::decimal(a as nat);
    let y = text::decimal(b as nat);
    text::law_decimal_is_digits_only(a as nat);
    text::law_decimal_is_digits_only(b as nat);
    text::law_decimal_round_trip(a as nat, u32::MAX as nat);
    text::law_decimal_round_trip(b as nat, u32::MAX as nat);
    assert(x[x.len() - 1] == x.last());
    assert(y[y.len() - 1] == y.last());
    lemma_single_entry(x);
    text::law_first_place(x, '-', y);
    assert(cores_of_entry(x) =~= seq![a]);
    let range = x.push('-') + y;
    assert forall|i: int| 0 <= i < range.len() implies #[trigger] range[i] != ',' by {
        if i < x.len() {
            assert(range[i] == x[i]);
        } else if i > x.len() {
            assert(range[i] == y[i - x.len() - 1]);
        }
    }
    assert(range[0] == x[0]);
    assert(range.last() == y.last());
    lemma_single_entry(range);
    assert(range.take(x.len() as int) =~= x);
    assert(range.skip(x.len() as int + 1) =~= y);
}

/// What is no number stands for no core.
pub proof fn law_unreadable_entries_name_no_core(entry: Seq<char>)
    requires
        forall|i: int| 0 <= i < entry.len() ==> #[trigger] entry[i] != ',' && entry[i] != '-',
        entry.len() > 0 ==> !text::is_white(entry[0]) && !text::is_white(entry.last()),
        text::number(entry, u32::MAX as nat) is None,
    ensures
        cores_of_list(entry) == Seq::<u32>::empty(),
{
    lemma_single_entry(entry);
    text::law_first_place(entry, '-', Seq::empty());
}

/// Of the siblings of a core, exactly the other ones that are online are listed, in
/// their order. A core that cannot be taken offline is online.
pub proof fn law_online_siblings_are_the_other_cores(
    core: u32,
    siblings: Seq<(u32, Option<String>)>,
    next: (u32, Option<String>),
)
    ensures
        online_of(core, Seq::empty()) == Seq::<u32>::empty(),
        next.0 == core ==> online_of(core, siblings.push(next)) == online_of(core, siblings),
        next.0 != core && next.1 is None ==> online_of(core, siblings.push(next)) == online_of(
            core,
            siblings,
        ).push(next.0),
        next.0 != core && next.1 is Some && text::trimmed(next.1->0@) == "1"@ ==> online_of(
            core,
            siblings.push(next),
        ) == online_of(core, siblings).push(next.0),
        next.1 is Some && text::trimmed(next.1->0@) != "1"@ ==> online_of(core, siblings.push(next))
            == online_of(core, siblings),
{
    assert(siblings.push(next).drop_last() =~= siblings);
}

/// There is one warning for each thing that disturbs a measurement, and no other: not
/// being pinned, a governor that may scale the clock, a clock whose limits differ, and
/// siblings that are online. They come in this order.
pub proof fn law_each_disturbance_is_warned_of(env: RunEnv)
    ensures
        ({
            let w = warnings_of(env);
            let a = if env.pinned {
                0int
            } else {
                1
            };
            let b = if env.governor@ == "performance"@ || env.governor@ == "unknown"@ {
                0int
            } else {
                1
            };
            let c = match (env.clock_min_khz, env.clock_max_khz) {
                (Some(low), Some(high)) => if low == high {
                    0int
                } else {
                    1
                },
                _ => 0,
            };
            let d = if env.smt_siblings_online@.len() == 0 {
                0int
            } else {
                1
            };
            &&& w.len() == a + b + c + d
            &&& a == 1 ==> w[0] == unpinned_warning(env)
            &&& b == 1 ==> w[a] == governor_warning(env)
            &&& c == 1 ==> w[a + b] == clock_warning(env)
            &&& d == 1 ==> w[a + b + c] == sibling_warning(env)
        }),
{
}

/// The text holds the part somewhere.
pub open spec fn holds_text(whole: Seq<char>, part: Seq<char>) -> bool {
    exists|at: int| #[trigger] text::occurs_at(whole, at, part)
}

pub proof fn lemma_holds_middle(a: Seq<char>, part: Seq<char>, b: Seq<char>)
    ensures
        holds_text(a + part + b, part),
{
    let whole = a + part + b;
    assert(whole.subrange(a.len() as int, (a.len() + part.len()) as int) =~= part);
    assert(text::occurs_at(whole, a.len() as int, part));
}

pub proof fn lemma_holds_inside(a: Seq<char>, middle: Seq<char>, b: Seq<char>, part: Seq<char>)
    requires
        holds_text(middle, part),
    ensures
        holds_text(a + middle + b, part),
{
    let at = choose|at: int| #[trigger] text::occurs_at(middle, at, part);
    let whole = a + middle + b;
    assert(whole.subrange(a.len() + at, a.len() + at + part.len()) =~= middle.subrange(
        at,
        at + part.len(),
    ));
    assert(text::occurs_at(whole, a.len() + at, part));
}

proof fn lemma_warning_is_shown(w: Seq<Seq<char>>, i: int)
    requires
        0 <= i < w.len(),
    ensures
        holds_text(warning_lines(w), w[i]),
    decreases w.len(),
{
    let front = w.drop_last();
    if i == w.len() - 1 {
        lemma_holds_middle(warning_lines(front) + "- ⚠ "@, w.last(), "\n"@);
    } else {
        lemma_warning_is_shown(front, i);
        lemma_holds_inside(
            Seq::empty(),
            warning_lines(front),
            "- ⚠ "@ + w.last() + "\n"@,
            w[i],
        );
        assert(Seq::<char>::empty() + warning_lines(front) + ("- ⚠ "@ + w.last() + "\n"@)
            =~= warning_lines(w));
    }
}

/// The header of a report shows every warning.
pub proof fn law_header_shows_every_warning(
    env: RunEnv,
    title: Seq<char>,
    scope: Seq<char>,
    i: int,
)
    requires
        0 <= i < warnings_of(env).len(),
    ensures
        holds_text(header_of(env, title, scope), warnings_of(env)[i]),
{
    let tail = warning_lines(warnings_of(env));
    let whole = header_of(env, title, scope);
    let head = whole.take(whole.len() - tail.len());
    lemma_warning_is_shown(warnings_of(env), i);
    lemma_holds_inside(head, tail, Seq::empty(), warnings_of(env)[i]);
    assert(head + tail + Seq::<char>::empty() =~= whole);
}

/// The header of a report begins with the title of the suite.
pub proof fn law_header_begins_with_the_title(env: RunEnv, title: Seq<char>, scope: Seq<char>)
    ensures
        text::occurs_at(header_of(env, title, scope), 2, title),
        text::occurs_at(header_of(env, title, scope), 0, "# "@),
{
    reveal_strlit("# ");
    let whole = header_of(env, title, scope);
    assert(whole.subrange(0, 2) =~= "# "@);
    assert(whole.subrange(2, 2 + title.len() as int) =~= title);
}

/// A run is named after its commit, marked if files were changed since; without a
/// commit it is named after its time.
pub proof fn law_run_is_named_after_its_commit(env: RunEnv)
    ensures
        env.commit is None ==> run_id_of(env) == env.stamp@,
        env.commit is Some && !env.dirty ==> run_id_of(env) == env.commit->0@,
        env.commit is Some && env.dirty ==> run_id_of(env) == env.commit->0@ + "-dirty"@,
{
}

/// A field is read from the first line that begins with its key: it is what stands
/// between the first and the second colon, without the white space around it. Lines
/// before do not matter.
pub proof fn law_field_is_read_from_its_first_line(
    lines: Seq<Seq<char>>,
    key: Seq<char>,
    k: int,
)
    requires
        0 <= k <= lines.len(),
        forall|i: int| 0 <= i < k ==> !text::occurs_at(#[trigger] lines[i], 0, key),
        k < lines.len() ==> text::occurs_at(lines[k], 0, key),
    ensures
        k == lines.len() ==> field_of(lines, key) is None,
        k < lines.len() ==> field_of(lines, key) == if text::occurrences(lines[k], ':') == 0 {
            None
        } else {
            Some(text::trimmed(text::split_on(lines[k], ':')[1]))
        },
    decreases k,
{
    if k > 0 {
        let rest = lines.skip(1);
        assert(!text::occurs_at(lines[0], 0, key));
        assert forall|i: int| 0 <= i < k - 1 implies !text::occurs_at(
            #[trigger] rest[i],
            0,
            key,
        ) by {
            assert(rest[i] == lines[i + 1]);
        }
        law_field_is_read_from_its_first_line(rest, key, k - 1);
    } else if lines.len() > 0 {
        text::law_split_parts_make_up_the_text(lines[0], ':');
    }
}

proof fn lemma_decimal_trims(n: nat, tail: Seq<char>)
    requires
        forall|i: int| 0 <= i < tail.len() ==> text::is_white(#[trigger] tail[i]),
    ensures
        text::trimmed(text::decimal(n) + tail) == text::decimal(n),
{
    text::law_decimal_is_digits_only(n);
    lemma_white_tail(text::decimal(n), tail);
}

proof fn lemma_white_tail(s: Seq<char>, tail: Seq<char>)
    requires
        s.len() > 0,
        !text::is_white(s[0]),
        !text::is_white(s[s.len() - 1]),
        forall|i: int| 0 <= i < tail.len() ==> text::is_white(#[trigger] tail[i]),
    ensures
        text::trimmed(s + tail) == s,
{
    let whole = s + tail;
    let ends = text::law_trim_takes_off_white_ends(whole);
    assert(whole[0] == s[0]);
    let last = s.len() - 1;
    assert(whole[last] == s[last]);
    if ends.0 > 0 {
        assert(text::is_white(whole[0]));
    }
    if ends.1 <= last {
        assert(text::is_white(whole[last]));
    }
    if ends.1 > s.len() {
        assert(whole[ends.1 - 1] == tail[ends.1 - 1 - s.len()]);
    }
    assert(whole.subrange(0, s.len() as int) =~= s);
}

/// A process pinned to one core runs on the core that its affinity names, and one with
/// a range or a list of cores has none to itself.
pub proof fn law_pinned_process_has_its_core(c: u32, affinity: Seq<char>)
    ensures
        core_of(text::decimal(c as nat)) == Some(c),
        affinity.contains('-') || affinity.contains(',') || affinity.len() == 0 ==> core_of(
            affinity,
        ) is None,
        text::number(affinity, u32::MAX as nat) is None ==> core_of(affinity) is None,
{
    let d = text::decimal(c as nat);
    text::law_decimal_is_digits_only(c as nat);
    text::law_decimal_round_trip(c as nat, u32::MAX as nat);
    reveal_strlit("?");
    assert("?"@[0] == '?');
    law_pinned_means_no_range_and_no_list(d);
}

/// A clock limit is the number in its file, whatever white space ends the file; without
/// a file there is no limit.
pub proof fn law_clock_limit_is_the_number_in_its_file(s: String, n: u64, tail: Seq<char>)
    requires
        s@ == text::decimal(n as nat) + tail,
        forall|i: int| 0 <= i < tail.len() ==> text::is_white(#[trigger] tail[i]),
    ensures
        khz(Some(s)) == Some(n as nat),
        khz(None) is None,
{
    lemma_decimal_trims(n as nat, tail);
    text::law_decimal_round_trip(n as nat, u64::MAX as nat);
}

/// What a file says is its text without the white space around it, and the stand-in
/// where there is none.
pub proof fn law_blank_files_have_a_stand_in(s: String, word: Seq<char>, tail: Seq<char>)
    requires
        s@ == word + tail,
        word.len() > 0 ==> !text::is_white(word[0]) && !text::is_white(word[word.len() - 1]),
        forall|i: int| 0 <= i < tail.len() ==> text::is_white(#[trigger] tail[i]),
    ensures
        forall|default: Seq<char>|
            word.len() > 0 ==> #[trigger] content_or(Some(s), default) == word,
        forall|default: Seq<char>|
            word.len() == 0 ==> #[trigger] content_or(Some(s), default) == default,
        forall|default: Seq<char>| #[trigger] content_or(None, default) == default,
{
    if word.len() > 0 {
        lemma_white_tail(word, tail);
    } else {
        assert(s@ =~= tail);
        let ends = text::law_trim_takes_off_white_ends(s@);
    }
}

} // verus!
