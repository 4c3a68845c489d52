//! Comparison of two runs.
//!
//! Rows of two comma-separated reports are matched by label and regime. A
//! scenario is as good as the worst of its three percentiles: a flat median does
//! not excuse a longer tail.
use crate::text;
use crate::text::{
    chars_of, lines, parse_number, push_decimal, push_str, same_text, split, string_of, trim,
};
use vstd::prelude::*;

verus! {

#[derive(Copy, Clone, Debug, PartialEq, Eq, Structural)]
pub enum Verdict {
    Improved,
    Regressed,
    WithinNoise,
    /// The scenario is missing on one side, or a baseline figure is 0.
    Incomparable,
}

/// The percentiles that a comparison goes by.
#[derive(Copy, Clone, Debug, PartialEq, Eq, Structural)]
pub enum Metric {
    P50,
    P99,
    P99_99,
}

/// The compared figures of one row.
#[derive(Copy, Clone, Debug, PartialEq, Eq, Structural)]
pub struct Metrics {
    pub p50: u64,
    pub p99: u64,
    pub p99_99: u64,
}

/// A row of a report.
pub struct CsvRow {
    pub label: String,
    pub regime: String,
    pub metrics: Metrics,
}

/// A label and a regime.
pub type Key = (Seq<char>, Seq<char>);

impl CsvRow {
    pub open spec fn key(self) -> Key {
        (self.label@, self.regime@)
    }
}

/// The row that a line of a report holds, if it holds one: at least nine fields,
/// of which the three percentiles are numbers.
pub open spec fn row_of(line: Seq<char>) -> Option<(Key, Metrics)> {
    let f = text::split_on(line, ',');
    if text::trimmed(line).len() == 0 || f.len() < 9 {
        None
    } else {
        match (
            text::number(f[4], u64::MAX as nat),
            text::number(f[5], u64::MAX as nat),
            text::number(f[6], u64::MAX as nat),
        ) {
            (Some(a), Some(b), Some(c)) => Some(
                (
                    (f[1], f[0]),
                    Metrics { p50: a as u64, p99: b as u64, p99_99: c as u64 },
                ),
            ),
            _ => None,
        }
    }
}

/// The rows that lines hold; of two rows for one key the later one counts.
pub open spec fn rows_of(lines: Seq<Seq<char>>) -> Map<Key, Metrics>
    decreases lines.len(),
{
    if lines.len() == 0 {
        Map::empty()
    } else {
        let front = rows_of(lines.drop_last());
        match row_of(lines.last()) {
            Some((key, metrics)) => front.insert(key, metrics),
            None => front,
        }
    }
}

/// The rows of a report, whose first line is the header.
pub open spec fn csv_rows(body: Seq<char>) -> Map<Key, Metrics> {
    let all = text::lines_of(body);
    if all.len() == 0 {
        Map::empty()
    } else {
        rows_of(all.skip(1))
    }
}

/// `rows` lists exactly the entries of `m`, each once.
pub open spec fn lists(rows: Seq<CsvRow>, m: Map<Key, Metrics>) -> bool {
    &&& forall|i: int, j: int|
        0 <= i < j < rows.len() ==> (#[trigger] rows[i]).key() != (#[trigger] rows[j]).key()
    &&& forall|i: int|
        0 <= i < rows.len() ==> m.contains_key((#[trigger] rows[i]).key()) && m[rows[i].key()]
            == rows[i].metrics
    &&& forall|k: Key| #[trigger]
        m.contains_key(k) ==> exists|i: int| 0 <= i < rows.len() && (#[trigger] rows[i]).key() == k
}

fn same_string(a: &String, b: &String) -> (r: bool)
    ensures
        r == (a@ == b@),
{
    same_text(&chars_of(a.as_str()), &chars_of(b.as_str()))
}

/// The place of the row with this label and regime, or the number of rows.
fn find_row(rows: &Vec<CsvRow>, label: &String, regime: &String) -> (r: usize)
    ensures
        r <= rows.len(),
        r < rows.len() ==> rows[r as int].key() == (label@, regime@),
        forall|i: int| 0 <= i < r ==> (#[trigger] rows[i]).key() != (label@, regime@),
{
    let mut i: usize = 0;
    while i < rows.len()
        invariant
            i <= rows.len(),
            forall|k: int| 0 <= k < i ==> (#[trigger] rows[k]).key() != (label@, regime@),
        decreases rows.len() - i,
    {
        if same_string(&rows[i].label, label) && same_string(&rows[i].regime, regime) {
            return i;
        }
        i = i + 1;
    }
    i
}

/// Read one line of a report.
fn parse_row(line: &Vec<char>) -> (r: Option<CsvRow>)
    ensures
        match r {
            Some(row) => row_of(line@) == Some((row.key(), row.metrics)),
            None => row_of(line@) is None,
        },
{
    if trim(line).len() == 0 {
        return None;
    }
    let f = split(line, ',');
    assert(text::texts(f@).len() == f.len());
    if f.len() < 9 {
        return None;
    }
    assert(forall|i: int| 0 <= i < f.len() ==> #[trigger] text::texts(f@)[i] == f[i]@);
    assert(text::texts(f@)[4] == f[4]@ && text::texts(f@)[5] == f[5]@ && text::texts(f@)[6]
        == f[6]@ && text::texts(f@)[0] == f[0]@ && text::texts(f@)[1] == f[1]@);
    match (
        parse_number(&f[4], u64::MAX),
        parse_number(&f[5], u64::MAX),
        parse_number(&f[6], u64::MAX),
    ) {
        (Some(p50), Some(p99), Some(p99_99)) => {
            let label = string_of(&f[1], 0, f[1].len());
            let regime = string_of(&f[0], 0, f[0].len());
            assert(label@ =~= f[1]@);
            assert(regime@ =~= f[0]@);
            Some(CsvRow { label, regime, metrics: Metrics { p50, p99, p99_99 } })
        },
        _ => None,
    }
}

/// Put `row` in place of the row with its key, or behind all others.
fn put_row(rows: &mut Vec<CsvRow>, row: CsvRow, Ghost(m): Ghost<Map<Key, Metrics>>)
    requires
        lists(old(rows)@, m),
    ensures
        lists(final(rows)@, m.insert(row.key(), row.metrics)),
{
    let ghost key = row.key();
    let ghost metrics = row.metrics;
    let at: usize = find_row(rows, &row.label, &row.regime);
    if at < rows.len() {
        rows.set(at, row);
        assert forall|k: Key| #[trigger] m.insert(key, metrics).contains_key(k) implies exists|
            i: int,
        |
            0 <= i < rows.len() && (#[trigger] rows[i]).key() == k by {
            if k == key {
                assert(rows[at as int].key() == k);
            } else {
                let i = choose|i: int|
                    0 <= i < old(rows)@.len() && (#[trigger] old(rows)@[i]).key() == k;
                assert(rows[i].key() == k);
            }
        }
    } else {
        rows.push(row);
        assert forall|k: Key| #[trigger] m.insert(key, metrics).contains_key(k) implies exists|
            i: int,
        |
            0 <= i < rows.len() && (#[trigger] rows[i]).key() == k by {
            if k == key {
                assert(rows[rows.len() - 1].key() == k);
            } else {
                let i = choose|i: int|
                    0 <= i < old(rows)@.len() && (#[trigger] old(rows)@[i]).key() == k;
                assert(rows[i].key() == k);
            }
        }
    }
}

/// The rows of a report. Lines that are no rows are passed over.
pub fn parse_csv(body: &str) -> (r: Vec<CsvRow>)
    ensures
        lists(r@, csv_rows(body@)),
{
    let all = lines(&chars_of(body));
    let ghost whole = text::texts(all@);
    let mut rows: Vec<CsvRow> = Vec::new();
    if all.len() == 0 {
        return rows;
    }
    let ghost data = whole.skip(1);
    let mut i: usize = 1;
    assert(data.take(0) =~= Seq::empty());
    while i < all.len()
        invariant
            1 <= i <= all.len(),
            whole == text::texts(all@),
            data == whole.skip(1),
            lists(rows@, rows_of(data.take(i - 1))),
        decreases all.len() - i,
    {
        let ghost m = rows_of(data.take(i - 1));
        assert(data.take(i as int).drop_last() =~= data.take(i - 1));
        assert(data.take(i as int).last() == all[i as int]@);
        match parse_row(&all[i]) {
            Some(row) => put_row(&mut rows, row, Ghost(m)),
            None => {},
        }
        i = i + 1;
    }
    assert(data.take(i - 1) =~= data);
    rows
}

/// `a` comes before `b` in the order of their characters.
pub open spec fn before(a: Seq<char>, b: Seq<char>) -> bool
    decreases a.len(),
{
    if b.len() == 0 {
        false
    } else if a.len() == 0 {
        true
    } else if a[0] == b[0] {
        before(a.skip(1), b.skip(1))
    } else {
        a[0] < b[0]
    }
}

/// What does not come before comes at or after, and that carries over.
proof fn lemma_order_transitive(a: Seq<char>, b: Seq<char>, c: Seq<char>)
    requires
        !before(b, a),
        !before(c, b),
    ensures
        !before(c, a),
    decreases a.len(),
{
    if a.len() > 0 && b.len() > 0 && c.len() > 0 && a[0] == b[0] && b[0] == c[0] {
        lemma_order_transitive(a.skip(1), b.skip(1), c.skip(1));
    }
}

/// Of two texts at most one comes before the other.
proof fn lemma_order_asymmetric(a: Seq<char>, b: Seq<char>)
    ensures
        !(before(a, b) && before(b, a)),
    decreases a.len(),
{
    if a.len() > 0 && b.len() > 0 && a[0] == b[0] {
        lemma_order_asymmetric(a.skip(1), b.skip(1));
    }
}

/// Whether `a` comes before `b`.
fn comes_before(a: &String, b: &String) -> (r: bool)
    ensures
        r == before(a@, b@),
{
    let x = chars_of(a.as_str());
    let y = chars_of(b.as_str());
    let mut i: usize = 0;
    assert(x@.skip(0) =~= x@);
    assert(y@.skip(0) =~= y@);
    while i < x.len() && i < y.len() && x[i] == y[i]
        invariant
            i <= x.len(),
            i <= y.len(),
            before(x@, y@) == before(x@.skip(i as int), y@.skip(i as int)),
        decreases x.len() - i,
    {
        assert(x@.skip(i as int).skip(1) =~= x@.skip(i + 1));
        assert(y@.skip(i as int).skip(1) =~= y@.skip(i + 1));
        i = i + 1;
    }
    if i == y.len() {
        false
    } else if i == x.len() {
        true
    } else {
        x[i] < y[i]
    }
}

/// The figures of one scenario on both sides.
pub struct PairRow {
    pub label: String,
    pub regime: String,
    pub base: Option<Metrics>,
    pub cur: Option<Metrics>,
}

impl PairRow {
    pub open spec fn key(self) -> Key {
        (self.label@, self.regime@)
    }
}

/// The entry of `m` for `k`, if there is one.
pub open spec fn entry(m: Map<Key, Metrics>, k: Key) -> Option<Metrics> {
    if m.contains_key(k) {
        Some(m[k])
    } else {
        None
    }
}

/// Ordered by label.
pub open spec fn by_label(rows: Seq<PairRow>) -> bool {
    forall|i: int, j: int|
        0 <= i < j < rows.len() ==> !before(
            (#[trigger] rows[j]).label@,
            (#[trigger] rows[i]).label@,
        )
}

/// Each row holds a key of one of the two sides with what both have for it, and
/// no key occurs twice.
pub open spec fn pairs_up(
    rows: Seq<PairRow>,
    base: Map<Key, Metrics>,
    cur: Map<Key, Metrics>,
) -> bool {
    &&& forall|i: int, j: int|
        0 <= i < j < rows.len() ==> (#[trigger] rows[i]).key() != (#[trigger] rows[j]).key()
    &&& forall|i: int|
        0 <= i < rows.len() ==> {
            let r = #[trigger] rows[i];
            &&& r.base == entry(base, r.key())
            &&& r.cur == entry(cur, r.key())
            &&& base.contains_key(r.key()) || cur.contains_key(r.key())
        }
}

/// `rows` has a row for `k`.
pub open spec fn has_row(rows: Seq<PairRow>, k: Key) -> bool {
    exists|i: int| 0 <= i < rows.len() && (#[trigger] rows[i]).key() == k
}

/// The complete comparison of two sides: every key of either one has its row, and
/// the rows are ordered by label.
pub open spec fn compares(
    rows: Seq<PairRow>,
    base: Map<Key, Metrics>,
    cur: Map<Key, Metrics>,
) -> bool {
    &&& pairs_up(rows, base, cur)
    &&& by_label(rows)
    &&& forall|k: Key| #[trigger] base.contains_key(k) ==> has_row(rows, k)
    &&& forall|k: Key| #[trigger] cur.contains_key(k) ==> has_row(rows, k)
}

/// Put a row behind the rows whose label does not come after its own.
fn insert_row(rows: &mut Vec<PairRow>, row: PairRow)
    requires
        by_label(old(rows)@),
    ensures
        by_label(final(rows)@),
        exists|at: int|
            0 <= at <= old(rows)@.len() && final(rows)@ == #[trigger] old(rows)@.insert(at, row),
{
    let mut at: usize = 0;
    while at < rows.len() && !comes_before(&row.label, &rows[at].label)
        invariant
            at <= rows.len(),
            rows@ == old(rows)@,
            forall|k: int| 0 <= k < at ==> !before(row.label@, (#[trigger] rows@[k]).label@),
        decreases rows.len() - at,
    {
        at = at + 1;
    }
    let ghost label = row.label@;
    let ghost held = rows@;
    rows.insert(at, row);
    proof {
        assert forall|i: int, j: int| 0 <= i < j < rows@.len() implies !before(
            (#[trigger] rows@[j]).label@,
            (#[trigger] rows@[i]).label@,
        ) by {
            let i0 = if i < at { i } else { i - 1 };
            let j0 = if j < at { j } else { j - 1 };
            if i == at {
                assert(rows@[j] == held[j0]);
                assert(before(label, held[at as int].label@));
                lemma_order_asymmetric(label, held[at as int].label@);
                if j0 > at {
                    assert(!before(held[j0].label@, held[at as int].label@));
                    lemma_order_transitive(label, held[at as int].label@, held[j0].label@);
                }
            } else if j == at {
                assert(rows@[i] == held[i0]);
            } else {
                assert(rows@[i] == held[i0] && rows@[j] == held[j0]);
            }
        }
    }
}

/// Adding a row for a new key to a comparison.
proof fn lemma_row_added(
    rows: Seq<PairRow>,
    after: Seq<PairRow>,
    row: PairRow,
    base: Map<Key, Metrics>,
    cur: Map<Key, Metrics>,
)
    requires
        pairs_up(rows, base, cur),
        !has_row(rows, row.key()),
        row.base == entry(base, row.key()),
        row.cur == entry(cur, row.key()),
        base.contains_key(row.key()) || cur.contains_key(row.key()),
        exists|at: int| 0 <= at <= rows.len() && after == #[trigger] rows.insert(at, row),
    ensures
        pairs_up(after, base, cur),
        forall|k: Key| #[trigger] has_row(after, k) <==> has_row(rows, k) || k == row.key(),
{
    let at = choose|at: int| 0 <= at <= rows.len() && after == #[trigger] rows.insert(at, row);
    assert forall|i: int, j: int| 0 <= i < j < after.len() implies (#[trigger] after[i]).key() != (
    #[trigger] after[j]).key() by {
        let i0 = if i < at { i } else { i - 1 };
        let j0 = if j < at { j } else { j - 1 };
        if i == at {
            assert(after[j] == rows[j0]);
        } else if j == at {
            assert(after[i] == rows[i0]);
        } else {
            assert(after[i] == rows[i0] && after[j] == rows[j0]);
        }
    }
    assert forall|i: int| 0 <= i < after.len() implies {
        let r = #[trigger] after[i];
        &&& r.base == entry(base, r.key())
        &&& r.cur == entry(cur, r.key())
        &&& base.contains_key(r.key()) || cur.contains_key(r.key())
    } by {
        if i != at {
            assert(after[i] == rows[if i < at { i } else { i - 1 }]);
        }
    }
    assert forall|k: Key| #[trigger] has_row(after, k) <==> has_row(rows, k) || k == row.key() by {
        if has_row(rows, k) {
            let i = choose|i: int| 0 <= i < rows.len() && (#[trigger] rows[i]).key() == k;
            assert(after[if i < at { i } else { i + 1 }].key() == k);
        }
        if k == row.key() {
            assert(after[at].key() == k);
        }
        if has_row(after, k) && k != row.key() {
            let i = choose|i: int| 0 <= i < after.len() && (#[trigger] after[i]).key() == k;
            assert(rows[if i < at { i } else { i - 1 }].key() == k);
        }
    }
}

/// Match the rows of two reports by label and regime.
fn pair_rows(base: &Vec<CsvRow>, cur: &Vec<CsvRow>) -> (r: Vec<PairRow>)
    requires
        exists|m: Map<Key, Metrics>| lists(base@, m),
        exists|m: Map<Key, Metrics>| lists(cur@, m),
    ensures
        forall|m: Map<Key, Metrics>, n: Map<Key, Metrics>|
            lists(base@, m) && lists(cur@, n) ==> #[trigger] compares(r@, m, n),
{
    let ghost m = choose|m: Map<Key, Metrics>| lists(base@, m);
    let ghost n = choose|n: Map<Key, Metrics>| lists(cur@, n);
    let mut rows: Vec<PairRow> = Vec::new();
    let mut i: usize = 0;
    while i < base.len()
        invariant
            i <= base.len(),
            lists(base@, m),
            lists(cur@, n),
            pairs_up(rows@, m, n),
            by_label(rows@),
            forall|k: Key| #[trigger]
                has_row(rows@, k) <==> exists|j: int| 0 <= j < i && (#[trigger] base[j]).key() == k,
        decreases base.len() - i,
    {
        let b = &base[i];
        let at: usize = find_row(cur, &b.label, &b.regime);
        let other = if at < cur.len() {
            Some(cur[at].metrics)
        } else {
            None
        };
        let row = PairRow {
            label: b.label.clone(),
            regime: b.regime.clone(),
            base: Some(b.metrics),
            cur: other,
        };
        let ghost held = rows@;
        proof {
            assert(m.contains_key(base[i as int].key()));
            if at < cur.len() {
                assert(n.contains_key(cur[at as int].key()));
            } else if n.contains_key(row.key()) {
                let j = choose|j: int| 0 <= j < cur.len() && (#[trigger] cur[j]).key() == row.key();
                assert(cur[j].key() != row.key());
            }
        }
        insert_row(&mut rows, row);
        i = i + 1;
        proof {
            lemma_row_added(held, rows@, row, m, n);
            assert forall|k: Key| #[trigger] has_row(rows@, k) <==> exists|j: int|
                0 <= j < i && (#[trigger] base[j]).key() == k by {
                if k == row.key() {
                    assert(base[i - 1].key() == k);
                }
            }
        }
    }
    let mut c: usize = 0;
    while c < cur.len()
        invariant
            c <= cur.len(),
            lists(base@, m),
            lists(cur@, n),
            pairs_up(rows@, m, n),
            by_label(rows@),
            forall|k: Key| #[trigger]
                has_row(rows@, k) <==> m.contains_key(k) || exists|j: int|
                    0 <= j < c && (#[trigger] cur[j]).key() == k,
        decreases cur.len() - c,
    {
        let x = &cur[c];
        let at: usize = find_row(base, &x.label, &x.regime);
        let ghost held = rows@;
        if at == base.len() {
            let row = PairRow {
                label: x.label.clone(),
                regime: x.regime.clone(),
                base: None,
                cur: Some(x.metrics),
            };
            proof {
                assert(n.contains_key(cur[c as int].key()));
                if m.contains_key(row.key()) {
                    let j = choose|j: int|
                        0 <= j < base.len() && (#[trigger] base[j]).key() == row.key();
                    assert(base[j].key() != row.key());
                }
                assert(!has_row(held, row.key()));
            }
            insert_row(&mut rows, row);
            proof {
                lemma_row_added(held, rows@, row, m, n);
            }
        } else {
            assert(m.contains_key(base[at as int].key()));
        }
        c = c + 1;
        proof {
            assert forall|k: Key| #[trigger] has_row(rows@, k) <==> m.contains_key(k) || exists|
                j: int,
            |
                0 <= j < c && (#[trigger] cur[j]).key() == k by {
                if k == cur[c - 1].key() {
                    assert(has_row(rows@, k));
                }
            }
        }
    }
    proof {
        assert(compares(rows@, m, n));
        assert forall|m2: Map<Key, Metrics>, n2: Map<Key, Metrics>|
            lists(base@, m2) && lists(cur@, n2) implies #[trigger] compares(rows@, m2, n2) by {
            lemma_listed_map_unique(base@, m, m2);
            lemma_listed_map_unique(cur@, n, n2);
        }
    }
    rows
}

/// A list of rows lists one map only.
proof fn lemma_listed_map_unique(rows: Seq<CsvRow>, m: Map<Key, Metrics>, m2: Map<Key, Metrics>)
    requires
        lists(rows, m),
        lists(rows, m2),
    ensures
        m == m2,
{
    assert forall|k: Key| m.contains_key(k) implies m2.contains_key(k) && m2[k] == m[k] by {
        let i = choose|i: int| 0 <= i < rows.len() && (#[trigger] rows[i]).key() == k;
        assert(m2.contains_key(rows[i].key()));
    }
    assert forall|k: Key| m2.contains_key(k) implies m.contains_key(k) by {
        let i = choose|i: int| 0 <= i < rows.len() && (#[trigger] rows[i]).key() == k;
        assert(m.contains_key(rows[i].key()));
    }
    assert(m =~= m2);
}

/// Match the rows of two reports by label and regime.
pub fn match_reports(baseline_csv: &str, current_csv: &str) -> (r: Vec<PairRow>)
    ensures
        compares(r@, csv_rows(baseline_csv@), csv_rows(current_csv@)),
{
    let base = parse_csv(baseline_csv);
    let cur = parse_csv(current_csv);
    pair_rows(&base, &cur)
}

/// How a figure changed against its baseline. The rank of a change beyond the
/// noise band orders such changes by size.
#[derive(Copy, Clone, Debug, PartialEq, Eq, Structural)]
pub enum Change {
    WithinNoise,
    Worse { rank: u64 },
    Better { rank: u64 },
}

pub open spec fn worse_rank(c: Change) -> Option<u64> {
    match c {
        Change::Worse { rank } => Some(rank),
        _ => None,
    }
}

pub open spec fn better_rank(c: Change) -> Option<u64> {
    match c {
        Change::Better { rank } => Some(rank),
        _ => None,
    }
}

/// The first of the three figures with the greatest rank.
pub open spec fn leading(a: Option<u64>, b: Option<u64>, c: Option<u64>) -> Option<Metric> {
    if a is Some && (b is None || a->0 >= b->0) && (c is None || a->0 >= c->0) {
        Some(Metric::P50)
    } else if b is Some && (c is None || b->0 >= c->0) {
        Some(Metric::P99)
    } else if c is Some {
        Some(Metric::P99_99)
    } else {
        None
    }
}

/// The verdict on a scenario and the figure that decided it. A baseline of 0
/// leaves nothing to compare with; any regression outweighs all improvements.
pub open spec fn judgement(base: Metrics, p50: Change, p99: Change, p99_99: Change) -> (
    Verdict,
    Option<Metric>,
) {
    let worst = leading(worse_rank(p50), worse_rank(p99), worse_rank(p99_99));
    let best = leading(better_rank(p50), better_rank(p99), better_rank(p99_99));
    if base.p50 == 0 || base.p99 == 0 || base.p99_99 == 0 {
        (Verdict::Incomparable, None)
    } else if worst is Some {
        (Verdict::Regressed, worst)
    } else if best is Some {
        (Verdict::Improved, best)
    } else {
        (Verdict::WithinNoise, None)
    }
}

fn rank_if(c: Change, worse: bool) -> (r: Option<u64>)
    ensures
        r == if worse {
            worse_rank(c)
        } else {
            better_rank(c)
        },
{
    match c {
        Change::Worse { rank } => if worse {
            Some(rank)
        } else {
            None
        },
        Change::Better { rank } => if worse {
            None
        } else {
            Some(rank)
        },
        Change::WithinNoise => None,
    }
}

/// The figure that leads in one direction: a later one takes over only with a
/// strictly greater rank.
fn leader(p50: Change, p99: Change, p99_99: Change, worse: bool) -> (r: Option<Metric>)
    ensures
        r == if worse {
            leading(worse_rank(p50), worse_rank(p99), worse_rank(p99_99))
        } else {
            leading(better_rank(p50), better_rank(p99), better_rank(p99_99))
        },
{
    let mut lead: Option<(Metric, u64)> = None;
    match rank_if(p50, worse) {
        Some(rank) => {
            lead = Some((Metric::P50, rank));
        },
        None => {},
    }
    match rank_if(p99, worse) {
        Some(rank) => {
            let ahead: bool = match lead {
                Some((_, top)) => rank > top,
                None => true,
            };
            if ahead {
                lead = Some((Metric::P99, rank));
            }
        },
        None => {},
    }
    match rank_if(p99_99, worse) {
        Some(rank) => {
            let ahead: bool = match lead {
                Some((_, top)) => rank > top,
                None => true,
            };
            if ahead {
                lead = Some((Metric::P99_99, rank));
            }
        },
        None => {},
    }
    match lead {
        Some((metric, _)) => Some(metric),
        None => None,
    }
}

/// The verdict on a scenario and the figure that decided it.
pub fn classify_pair(base: &Metrics, p50: Change, p99: Change, p99_99: Change) -> (r: (
    Verdict,
    Option<Metric>,
))
    ensures
        r == judgement(*base, p50, p99, p99_99),
{
    if base.p50 == 0 || base.p99 == 0 || base.p99_99 == 0 {
        return (Verdict::Incomparable, None);
    }
    let worst = leader(p50, p99, p99_99, true);
    let best = leader(p50, p99, p99_99, false);
    match worst {
        Some(metric) => (Verdict::Regressed, Some(metric)),
        None => match best {
            Some(metric) => (Verdict::Improved, Some(metric)),
            None => (Verdict::WithinNoise, None),
        },
    }
}

/// The worst metric decides: a regression of any one figure is a regression of
/// the scenario, whatever the other figures do.
pub proof fn law_worst_metric_decides(base: Metrics, p50: Change, p99: Change, p99_99: Change)
    requires
        base.p50 > 0 && base.p99 > 0 && base.p99_99 > 0,
    ensures
        judgement(base, p50, p99, p99_99).0 == Verdict::Regressed <==> (p50 is Worse || p99 is Worse
            || p99_99 is Worse),
        judgement(base, p50, p99, p99_99).0 == Verdict::WithinNoise <==> (p50 is WithinNoise
            && p99 is WithinNoise && p99_99 is WithinNoise),
{
}

/// A row of a comparison with its verdict. The changes in percent come as text.
pub struct CompRow {
    pub label: String,
    pub regime: String,
    pub base: Option<Metrics>,
    pub cur: Option<Metrics>,
    pub p50_pct: String,
    pub p99_pct: String,
    pub p99_99_pct: String,
    pub verdict: Verdict,
    pub driver: Option<Metric>,
}

/// The changes of the three figures of a row, and how they read in percent.
pub struct RowChanges {
    pub p50: Change,
    pub p99: Change,
    pub p99_99: Change,
    pub p50_pct: String,
    pub p99_pct: String,
    pub p99_99_pct: String,
}

/// The verdict on a matched row: incomparable unless both sides have it.
pub fn judge(row: PairRow, changes: RowChanges) -> (r: CompRow)
    ensures
        r.label == row.label,
        r.regime == row.regime,
        r.base == row.base,
        r.cur == row.cur,
        r.p50_pct == changes.p50_pct,
        r.p99_pct == changes.p99_pct,
        r.p99_99_pct == changes.p99_99_pct,
        (r.verdict, r.driver) == if row.base is Some && row.cur is Some {
            judgement(row.base->0, changes.p50, changes.p99, changes.p99_99)
        } else {
            (Verdict::Incomparable, None)
        },
{
    let (verdict, driver) = match (row.base, row.cur) {
        (Some(base), Some(_)) => classify_pair(&base, changes.p50, changes.p99, changes.p99_99),
        _ => (Verdict::Incomparable, None),
    };
    CompRow {
        label: row.label,
        regime: row.regime,
        base: row.base,
        cur: row.cur,
        p50_pct: changes.p50_pct,
        p99_pct: changes.p99_pct,
        p99_99_pct: changes.p99_99_pct,
        verdict,
        driver,
    }
}

/// A table cell with the figures of both sides and the change between them.
pub open spec fn cell_text(base: Option<u64>, cur: Option<u64>, pct: Seq<char>) -> Seq<char> {
    match (base, cur) {
        (Some(b), Some(c)) => if b > 0 {
            text::decimal(b as nat) + "→"@ + text::decimal(c as nat) + " ("@ + pct + ")"@
        } else {
            text::decimal(b as nat) + "→"@ + text::decimal(c as nat)
        },
        (Some(b), None) => text::decimal(b as nat) + "→—"@,
        (None, Some(c)) => "—→"@ + text::decimal(c as nat),
        (None, None) => "—"@,
    }
}

/// A table cell: `base→current (change)`, with a dash for a missing side.
pub fn delta_cell(base: Option<u64>, cur: Option<u64>, pct: &str) -> (r: String)
    ensures
        r@ == cell_text(base, cur, pct@),
{
    match (base, cur) {
        (Some(b), Some(c)) => {
            let mut s = text::decimal_string(b);
            push_str(&mut s, "→");
            push_decimal(&mut s, c);
            if b > 0 {
                push_str(&mut s, " (");
                push_str(&mut s, pct);
                push_str(&mut s, ")");
            }
            s
        },
        (Some(b), None) => {
            let mut s = text::decimal_string(b);
            push_str(&mut s, "→—");
            s
        },
        (None, Some(c)) => {
            let mut s = "—→".to_string();
            push_decimal(&mut s, c);
            s
        },
        (None, None) => "—".to_string(),
    }
}

pub open spec fn metric_word(m: Metric) -> Seq<char> {
    match m {
        Metric::P50 => "p50"@,
        Metric::P99 => "p99"@,
        Metric::P99_99 => "p99.99"@,
    }
}

fn metric_name(m: Metric) -> (r: &'static str)
    ensures
        r@ == metric_word(m),
{
    match m {
        Metric::P50 => "p50",
        Metric::P99 => "p99",
        Metric::P99_99 => "p99.99",
    }
}

pub open spec fn verdict_text(verdict: Verdict, driver: Option<Metric>) -> Seq<char> {
    match (verdict, driver) {
        (Verdict::Improved, Some(m)) => "✓ improved ("@ + metric_word(m) + ")"@,
        (Verdict::Improved, None) => "✓ improved"@,
        (Verdict::Regressed, Some(m)) => "✗ REGRESSED ("@ + metric_word(m) + ")"@,
        (Verdict::Regressed, None) => "✗ REGRESSED"@,
        (Verdict::WithinNoise, _) => "· within noise"@,
        (Verdict::Incomparable, _) => "? incomparable"@,
    }
}

fn render_verdict(verdict: Verdict, driver: Option<Metric>) -> (r: String)
    ensures
        r@ == verdict_text(verdict, driver),
{
    match (verdict, driver) {
        (Verdict::Improved, Some(m)) => {
            let mut s = "✓ improved (".to_string();
            push_str(&mut s, metric_name(m));
            push_str(&mut s, ")");
            s
        },
        (Verdict::Improved, None) => "✓ improved".to_string(),
        (Verdict::Regressed, Some(m)) => {
            let mut s = "✗ REGRESSED (".to_string();
            push_str(&mut s, metric_name(m));
            push_str(&mut s, ")");
            s
        },
        (Verdict::Regressed, None) => "✗ REGRESSED".to_string(),
        (Verdict::WithinNoise, _) => "· within noise".to_string(),
        (Verdict::Incomparable, _) => "? incomparable".to_string(),
    }
}

pub open spec fn p50_of(m: Option<Metrics>) -> Option<u64> {
    match m {
        Some(m) => Some(m.p50),
        None => None,
    }
}

pub open spec fn p99_of(m: Option<Metrics>) -> Option<u64> {
    match m {
        Some(m) => Some(m.p99),
        None => None,
    }
}

pub open spec fn p99_99_of(m: Option<Metrics>) -> Option<u64> {
    match m {
        Some(m) => Some(m.p99_99),
        None => None,
    }
}

fn figure(m: &Option<Metrics>, which: Metric) -> (r: Option<u64>)
    ensures
        r == match which {
            Metric::P50 => p50_of(*m),
            Metric::P99 => p99_of(*m),
            Metric::P99_99 => p99_99_of(*m),
        },
{
    match m {
        Some(m) => Some(
            match which {
                Metric::P50 => m.p50,
                Metric::P99 => m.p99,
                Metric::P99_99 => m.p99_99,
            },
        ),
        None => None,
    }
}

/// One row of a comparison's table.
pub open spec fn row_text(r: CompRow) -> Seq<char> {
    "| "@ + r.label@ + " | "@ + r.regime@ + " | "@ + cell_text(
        p50_of(r.base),
        p50_of(r.cur),
        r.p50_pct@,
    ) + " | "@ + cell_text(p99_of(r.base), p99_of(r.cur), r.p99_pct@) + " | "@ + cell_text(
        p99_99_of(r.base),
        p99_99_of(r.cur),
        r.p99_99_pct@,
    ) + " | "@ + verdict_text(r.verdict, r.driver) + " |\n"@
}

fn render_row(r: &CompRow) -> (out: String)
    ensures
        out@ == row_text(*r),
{
    let mut s = "| ".to_string();
    push_str(&mut s, r.label.as_str());
    push_str(&mut s, " | ");
    push_str(&mut s, r.regime.as_str());
    push_str(&mut s, " | ");
    push_str(
        &mut s,
        delta_cell(
            figure(&r.base, Metric::P50),
            figure(&r.cur, Metric::P50),
            r.p50_pct.as_str(),
        ).as_str(),
    );
    push_str(&mut s, " | ");
    push_str(
        &mut s,
        delta_cell(
            figure(&r.base, Metric::P99),
            figure(&r.cur, Metric::P99),
            r.p99_pct.as_str(),
        ).as_str(),
    );
    push_str(&mut s, " | ");
    push_str(
        &mut s,
        delta_cell(
            figure(&r.base, Metric::P99_99),
            figure(&r.cur, Metric::P99_99),
            r.p99_99_pct.as_str(),
        ).as_str(),
    );
    push_str(&mut s, " | ");
    push_str(&mut s, render_verdict(r.verdict, r.driver).as_str());
    push_str(&mut s, " |\n");
    s
}

pub open spec fn rows_text(rows: Seq<CompRow>) -> Seq<char>
    decreases rows.len(),
{
    if rows.len() == 0 {
        Seq::empty()
    } else {
        rows_text(rows.drop_last()) + row_text(rows.last())
    }
}

/// The comparison of two runs.
pub struct Comparison {
    pub rows: Vec<CompRow>,
    /// The noise band in percent, to one decimal.
    pub noise_text: String,
}

impl Comparison {
    pub fn new(rows: Vec<CompRow>, noise_text: String) -> (c: Comparison)
        ensures
            c.rows == rows,
            c.noise_text == noise_text,
    {
        Comparison { rows, noise_text }
    }

    /// The comparison as a table.
    pub fn to_markdown(&self) -> (r: String)
        ensures
            r@ == "# Benchmark comparison (noise band ±"@ + self.noise_text@
                + "%)\n\nEach cell is `base→current (Δ%)` in ns. The verdict is the worst metric of the three.\n\n| scenario | regime | p50 | p99 | p99.99 | verdict |\n|---|---|--:|--:|--:|---|\n"@
                + rows_text(self.rows@),
    {
        let mut s = "# Benchmark comparison (noise band ±".to_string();
        push_str(&mut s, self.noise_text.as_str());
        push_str(
            &mut s,
            "%)\n\nEach cell is `base→current (Δ%)` in ns. The verdict is the worst metric of the three.\n\n| scenario | regime | p50 | p99 | p99.99 | verdict |\n|---|---|--:|--:|--:|---|\n",
        );
        let ghost head = s@;
        let mut i: usize = 0;
        assert(head + rows_text(self.rows@.take(0)) =~= head);
        while i < self.rows.len()
            invariant
                i <= self.rows.len(),
                s@ == head + rows_text(self.rows@.take(i as int)),
            decreases self.rows.len() - i,
        {
            let line = render_row(&self.rows[i]);
            push_str(&mut s, line.as_str());
            i = i + 1;
            proof {
                assert(self.rows@.take(i as int).drop_last() =~= self.rows@.take(i - 1));
                assert(s@ =~= head + rows_text(self.rows@.take(i as int)));
            }
        }
        assert(self.rows@.take(i as int) =~= self.rows@);
        s
    }

    /// Whether any scenario regressed.
    pub fn any_regressed(&self) -> (r: bool)
        ensures
            r == exists|i: int|
                0 <= i < self.rows@.len() && (#[trigger] self.rows@[i]).verdict
                    == Verdict::Regressed,
    {
        let mut i: usize = 0;
        while i < self.rows.len()
            invariant
                i <= self.rows.len(),
                forall|k: int|
                    0 <= k < i ==> (#[trigger] self.rows@[k]).verdict != Verdict::Regressed,
            decreases self.rows.len() - i,
        {
            if self.rows[i].verdict == Verdict::Regressed {
                assert(self.rows@[i as int].verdict == Verdict::Regressed);
                return true;
            }
            i = i + 1;
        }
        false
    }
}

/// The change of one of the three figures.
pub open spec fn change_of(p50: Change, p99: Change, p99_99: Change, m: Metric) -> Change {
    match m {
        Metric::P50 => p50,
        Metric::P99 => p99,
        Metric::P99_99 => p99_99,
    }
}

/// A verdict names the figure that decided it: the one that changed most in the
/// direction of the verdict, and of several the first. Without a baseline there is
/// nothing to compare, and without a change beyond the noise no figure decides.
pub proof fn law_verdict_names_the_greatest_change(
    base: Metrics,
    p50: Change,
    p99: Change,
    p99_99: Change,
)
    ensures
        ({
            let (verdict, driver) = judgement(base, p50, p99, p99_99);
            let no_base = base.p50 == 0 || base.p99 == 0 || base.p99_99 == 0;
            &&& no_base <==> verdict == Verdict::Incomparable
            &&& verdict == Verdict::Incomparable || verdict == Verdict::WithinNoise ==> driver is None
            &&& verdict == Verdict::Regressed ==> {
                let lead = change_of(p50, p99, p99_99, driver->0);
                &&& driver is Some
                &&& lead is Worse
                &&& forall|other: Metric|
                    (#[trigger] change_of(p50, p99, p99_99, other)) is Worse ==> change_of(
                        p50,
                        p99,
                        p99_99,
                        other,
                    )->Worse_rank <= lead->Worse_rank
            }
            &&& verdict == Verdict::Improved ==> {
                let lead = change_of(p50, p99, p99_99, driver->0);
                &&& driver is Some
                &&& lead is Better
                &&& forall|other: Metric|
                    (#[trigger] change_of(p50, p99, p99_99, other)) is Better ==> change_of(
                        p50,
                        p99,
                        p99_99,
                        other,
                    )->Better_rank <= lead->Better_rank
            }
            &&& verdict == Verdict::Improved <==> !no_base && !(p50 is Worse) && !(p99 is Worse) && !(
            p99_99 is Worse) && (p50 is Better || p99 is Better || p99_99 is Better)
            &&& driver == Some(Metric::P99) && verdict == Verdict::Regressed && p50 is Worse
                ==> p50->Worse_rank < p99->Worse_rank
            &&& driver == Some(Metric::P99_99) && verdict == Verdict::Regressed ==> (p50 is Worse
                ==> p50->Worse_rank < p99_99->Worse_rank) && (p99 is Worse ==> p99->Worse_rank
                < p99_99->Worse_rank)
            &&& driver == Some(Metric::P99) && verdict == Verdict::Improved && p50 is Better
                ==> p50->Better_rank < p99->Better_rank
            &&& driver == Some(Metric::P99_99) && verdict == Verdict::Improved ==> (p50 is Better
                ==> p50->Better_rank < p99_99->Better_rank) && (p99 is Better ==> p99->Better_rank
                < p99_99->Better_rank)
        }),
{
}

/// Labels are ordered by the first character in which they differ, and a label comes
/// before every longer one that begins with it.
pub proof fn law_labels_are_ordered_by_first_difference(a: Seq<char>, b: Seq<char>, k: int)
    requires
        0 <= k <= a.len(),
        k <= b.len(),
        forall|i: int| 0 <= i < k ==> #[trigger] a[i] == b[i],
    ensures
        k == a.len() && k < b.len() ==> before(a, b) && !before(b, a),
        k < a.len() && k < b.len() && a[k] < b[k] ==> before(a, b) && !before(b, a),
        a == b ==> !before(a, b),
    decreases a.len(),
{
    if a == b && a.len() > 0 {
        let n = a.len() - 1;
        assert(a.skip(1) == b.skip(1));
        law_labels_are_ordered_by_first_difference(a.skip(1), b.skip(1), 0);
    }
    if k > 0 {
        assert(a[0] == b[0]);
        let x = a.skip(1);
        let y = b.skip(1);
        assert forall|i: int| 0 <= i < k - 1 implies #[trigger] x[i] == y[i] by {
            assert(a[i + 1] == b[i + 1]);
        }
        law_labels_are_ordered_by_first_difference(x, y, k - 1);
    }
}

} // verus!
