//! Latency histograms.
//!
//! A [`Histogram`] keeps every latency to three significant decimal digits in an
//! `hdrhistogram::Histogram`. What that crate's histogram holds is named here by
//! [`samples`], the recorded values rounded down to their bucket, and by
//! [`least`] and [`greatest`], the extremes that it reports.
use super::clock::Nanos;
use hdrhistogram::Histogram as HdrHistogram;
use vstd::multiset::Multiset;
use vstd::prelude::*;

verus! {

/// The histogram of `hdrhistogram`, with counts of 64 bits. Its type parameter is
/// bounded by a trait of that crate, so it is held here behind an opaque struct.
#[verifier::external_body]
pub struct Hdr {
    pub inner: HdrHistogram<u64>,
}

/// Why `hdrhistogram` could not make a histogram.
#[verifier::external_type_specification]
#[verifier::external_body]
pub struct ExCreationError(hdrhistogram::CreationError);

/// Why `hdrhistogram` could not record a value.
#[verifier::external_type_specification]
#[verifier::external_body]
pub struct ExRecordError(hdrhistogram::RecordError);

/// Why `hdrhistogram` could not add a histogram.
#[verifier::external_type_specification]
#[verifier::external_body]
pub struct ExAdditionError(hdrhistogram::AdditionError);

/// The recorded values, each rounded down to the first value of its bucket.
pub uninterp spec fn samples(h: Hdr) -> Multiset<u64>;

/// What `Histogram::min` reports.
pub uninterp spec fn least(h: Hdr) -> u64;

/// What `Histogram::max` reports.
pub uninterp spec fn greatest(h: Hdr) -> u64;

/// The highest trackable value and the significant digits that the histogram was
/// made with.
pub uninterp spec fn limits(h: Hdr) -> (u64, u8);

/// Every `u64` can be recorded, to three significant digits.
pub open spec fn full_range(h: Hdr) -> bool {
    limits(h) == (u64::MAX, 3u8)
}

/// The width of the bucket of `v`: one below 2048, twice as wide for each
/// further power of two.
pub open spec fn width(v: nat) -> nat
    decreases v,
{
    if v < 2048 {
        1
    } else {
        2 * width(v / 2)
    }
}

/// The first value of the bucket of `v`.
pub open spec fn floor(v: u64) -> u64 {
    (v - v as nat % width(v as nat)) as u64
}

/// A bucket is at most a 1024th as wide as its values are large.
proof fn lemma_width(v: nat)
    ensures
        width(v) >= 1,
        v >= 2048 ==> 1024 * width(v) <= v,
        v < 2048 ==> width(v) == 1,
    decreases v,
{
    if v >= 2048 {
        lemma_width(v / 2);
    }
}

/// Three significant digits: rounding a value down to its bucket takes off no more
/// than a thousandth of it.
pub proof fn law_three_significant_digits(v: u64)
    ensures
        floor(v) <= v,
        v - floor(v) <= v / 1000,
{
    lemma_width(v as nat);
    vstd::arithmetic::div_mod::lemma_mod_bound(v as int, width(v as nat) as int);
    vstd::arithmetic::div_mod::lemma_mod_decreases(v as nat, width(v as nat));
}

/// What the histogram reports as its least value if `v` is the least recorded
/// one: the first value of its bucket, and `u64::MAX` itself for `u64::MAX`.
pub open spec fn low(v: u64) -> u64 {
    if v == u64::MAX {
        v
    } else {
        floor(v)
    }
}

/// What the histogram reports as its greatest value if `v` is the greatest
/// recorded one: the last value of its bucket, where `u64::MAX` counts as the end
/// of the last bucket only for `u64::MAX` itself.
pub open spec fn high(v: u64) -> u64 {
    if v == u64::MAX {
        v
    } else if floor(v) + width(v as nat) > u64::MAX {
        (u64::MAX - 1) as u64
    } else {
        (floor(v) + width(v as nat) - 1) as u64
    }
}

pub open spec fn lesser(a: u64, b: u64) -> u64 {
    if a <= b {
        a
    } else {
        b
    }
}

pub open spec fn greater(a: u64, b: u64) -> u64 {
    if a >= b {
        a
    } else {
        b
    }
}

/// What a histogram holds.
#[verifier::ext_equal]
pub struct HistogramModel {
    pub samples: Multiset<u64>,
    pub least: u64,
    pub greatest: u64,
}

impl HistogramModel {
    /// A histogram without samples is the empty one.
    pub open spec fn wf(self) -> bool {
        self.samples.len() == 0 ==> self == HistogramModel::empty()
    }

    /// A histogram without samples; it reports 0 for both extremes.
    pub open spec fn empty() -> HistogramModel {
        HistogramModel { samples: Multiset::empty(), least: 0, greatest: 0 }
    }

    /// The histogram after `v` is recorded.
    pub open spec fn plus(self, v: u64) -> HistogramModel {
        HistogramModel {
            samples: self.samples.insert(floor(v)),
            least: if self.samples.len() == 0 {
                low(v)
            } else {
                lesser(self.least, low(v))
            },
            greatest: greater(self.greatest, high(v)),
        }
    }

    /// The histogram after a series of values is recorded.
    pub open spec fn recorded(self, xs: Seq<u64>) -> HistogramModel
        decreases xs.len(),
    {
        if xs.len() == 0 {
            self
        } else {
            self.recorded(xs.drop_last()).plus(xs.last())
        }
    }

    /// The histogram after `missing`, `missing - interval` and so on are
    /// recorded, down to the last value that is not below `interval`.
    pub open spec fn backfilled(self, missing: nat, interval: nat) -> HistogramModel
        decreases missing,
    {
        if interval == 0 || missing < interval {
            self
        } else {
            self.plus(missing as u64).backfilled((missing - interval) as nat, interval)
        }
    }

    /// The histogram after `v` is recorded with the samples that were missed
    /// while operations expected every `interval` waited for it.
    pub open spec fn corrected(self, v: u64, interval: u64) -> HistogramModel {
        if v > interval {
            self.plus(v).backfilled((v - interval) as nat, interval as nat)
        } else {
            self.plus(v)
        }
    }

    /// The histogram after all samples of `other` are added.
    pub open spec fn merged(self, other: HistogramModel) -> HistogramModel {
        if other.samples.len() == 0 {
            self
        } else if self.samples.len() == 0 {
            other
        } else {
            HistogramModel {
                samples: self.samples.add(other.samples),
                least: lesser(self.least, other.least),
                greatest: greater(self.greatest, other.greatest),
            }
        }
    }
}

/// What the histogram of `hdrhistogram` holds.
pub open spec fn contents(h: Hdr) -> HistogramModel {
    HistogramModel { samples: samples(h), least: least(h), greatest: greatest(h) }
}

/// How many samples a corrected recording adds.
pub open spec fn corrected_count(v: u64, interval: u64) -> nat {
    if 0 < interval <= v {
        v as nat / interval as nat
    } else {
        1
    }
}

/// `hdrhistogram::Histogram::new_with_max`: an empty histogram for values up to
/// `high`. It fails for a limit below 2 and for more than five digits.
#[verifier::external_body]
fn hdr_new(high: u64, sigfig: u8) -> (r: Result<
    Hdr,
    hdrhistogram::CreationError,
>)
    ensures
        match r {
            Ok(h) => {
                &&& high >= 2 && sigfig <= 5
                &&& limits(h) == (high, sigfig)
                &&& contents(h) == HistogramModel::empty()
            },
            Err(_) => high < 2 || sigfig > 5,
        },
{
    HdrHistogram::<u64>::new_with_max(high, sigfig).map(|inner| Hdr { inner })
}

/// `hdrhistogram::Histogram::record`: one more sample of `value`. A histogram of
/// the full range takes every value.
#[verifier::external_body]
fn hdr_record(h: &mut Hdr, value: u64) -> (r: Result<
    (),
    hdrhistogram::RecordError,
>)
    requires
        full_range(*old(h)),
        samples(*old(h)).len() < u64::MAX,
    ensures
        r is Ok,
        limits(*final(h)) == limits(*old(h)),
        contents(*final(h)) == contents(*old(h)).plus(value),
{
    h.inner.record(value)
}

/// `hdrhistogram::Histogram::record_correct`: one more sample of `value`, and
/// the ones that coordinated omission has left out.
#[verifier::external_body]
fn hdr_record_correct(
    h: &mut Hdr,
    value: u64,
    interval: u64,
) -> (r: Result<(), hdrhistogram::RecordError>)
    requires
        full_range(*old(h)),
        samples(*old(h)).len() + corrected_count(value, interval) <= u64::MAX,
    ensures
        r is Ok,
        limits(*final(h)) == limits(*old(h)),
        contents(*final(h)) == contents(*old(h)).corrected(value, interval),
{
    h.inner.record_correct(value, interval)
}

/// `hdrhistogram::Histogram::len`: how many samples there are.
#[verifier::external_body]
fn hdr_len(h: &Hdr) -> (n: u64)
    requires
        samples(*h).len() <= u64::MAX,
    ensures
        n == samples(*h).len(),
{
    h.inner.len()
}

/// `hdrhistogram::Histogram::min`: the least sample, to the bucket's resolution.
#[verifier::external_body]
fn hdr_min(h: &Hdr) -> (v: u64)
    ensures
        v == least(*h),
{
    h.inner.min()
}

/// `hdrhistogram::Histogram::max`: the greatest sample, to the bucket's
/// resolution.
#[verifier::external_body]
fn hdr_max(h: &Hdr) -> (v: u64)
    ensures
        v == greatest(*h),
{
    h.inner.max()
}

/// `hdrhistogram::Histogram::add`: add the samples of another histogram. Between
/// histograms of the full range it fails just if the other one holds
/// `u64::MAX`, which lies beyond the reported end of the last bucket.
#[verifier::external_body]
fn hdr_add(h: &mut Hdr, other: &Hdr) -> (r:
    Result<(), hdrhistogram::AdditionError>)
    requires
        full_range(*old(h)),
        full_range(*other),
        samples(*old(h)).len() + samples(*other).len() <= u64::MAX,
    ensures
        limits(*final(h)) == limits(*old(h)),
        match r {
            Ok(_) => {
                &&& greatest(*other) < u64::MAX
                &&& contents(*final(h)) == contents(*old(h)).merged(contents(*other))
            },
            Err(_) => {
                &&& greatest(*other) == u64::MAX
                &&& contents(*final(h)) == contents(*old(h))
            },
        },
{
    h.inner.add(&other.inner)
}

/// A labelled latency histogram.
pub struct Histogram {
    pub inner: Hdr,
    pub label: String,
}

impl View for Histogram {
    type V = HistogramModel;

    open spec fn view(&self) -> HistogramModel {
        contents(self.inner)
    }
}

impl Histogram {
    /// The histogram takes every latency.
    pub open spec fn wf(self) -> bool {
        &&& full_range(self.inner)
        &&& self@.wf()
        &&& self@.samples.len() <= u64::MAX
    }

    /// An empty histogram.
    pub fn new(label: &str) -> (h: Histogram)
        ensures
            h.wf(),
            h@ == HistogramModel::empty(),
            h.label@ == label@,
    {
        match hdr_new(u64::MAX, 3) {
            Ok(inner) => Histogram { inner, label: label.to_string() },
            Err(_) => vstd::pervasive::unreached(),
        }
    }

    /// Record one latency.
    pub fn record(&mut self, value: Nanos)
        requires
            old(self).wf(),
            old(self)@.samples.len() < u64::MAX,
        ensures
            final(self).wf(),
            final(self).label == old(self).label,
            final(self)@ == old(self)@.plus(value.0),
    {
        let _ = hdr_record(&mut self.inner, value.as_u64());
    }

    /// Record one latency and the samples that operations arriving every
    /// `expected_interval` would have added while they waited for it.
    pub fn record_correct(&mut self, value: Nanos, expected_interval: Nanos)
        requires
            old(self).wf(),
            old(self)@.samples.len() + corrected_count(value.0, expected_interval.0) <= u64::MAX,
        ensures
            final(self).wf(),
            final(self).label == old(self).label,
            final(self)@ == old(self)@.corrected(value.0, expected_interval.0),
    {
        let _ = hdr_record_correct(&mut self.inner, value.as_u64(), expected_interval.as_u64());
        proof {
            law_correction_count(old(self)@, value.0, expected_interval.0);
        }
    }

    /// How many samples there are.
    pub fn len(&self) -> (n: u64)
        requires
            self.wf(),
        ensures
            n == self@.samples.len(),
    {
        hdr_len(&self.inner)
    }

    /// The label that the histogram was made with.
    pub fn label(&self) -> (label: &str)
        ensures
            label@ == self.label@,
    {
        self.label.as_str()
    }

    /// The least latency, to the bucket's resolution.
    pub fn min(&self) -> (v: Nanos)
        ensures
            v.0 == self@.least,
    {
        Nanos(hdr_min(&self.inner))
    }

    /// The greatest latency, to the bucket's resolution.
    pub fn max(&self) -> (v: Nanos)
        ensures
            v.0 == self@.greatest,
    {
        Nanos(hdr_max(&self.inner))
    }

    /// Add all samples of `other`.
    pub fn merge(&mut self, other: &Histogram)
        requires
            old(self).wf(),
            other.wf(),
            old(self)@.samples.len() + other@.samples.len() <= u64::MAX,
            other@.greatest < u64::MAX,
        ensures
            final(self).wf(),
            final(self).label == old(self).label,
            final(self)@ == old(self)@.merged(other@),
    {
        let _ = hdr_add(&mut self.inner, &other.inner);
    }

    /// The header of the comma-separated rows that a histogram is rendered to.
    pub fn csv_header() -> (header: &'static str)
        ensures
            header@ == "label,count,min_ns,p50_ns,p99_ns,p99_99_ns,max_ns,msgs_per_sec"@,
    {
        "label,count,min_ns,p50_ns,p99_ns,p99_99_ns,max_ns,msgs_per_sec"
    }
}

/// Recording counts: every recording adds one sample.
proof fn lemma_backfill_count(m: HistogramModel, missing: nat, interval: nat)
    requires
        interval > 0,
    ensures
        m.backfilled(missing, interval).samples.len() == m.samples.len() + missing / interval,
    decreases missing,
{
    if missing >= interval {
        lemma_backfill_count(m.plus(missing as u64), (missing - interval) as nat, interval);
        vstd::arithmetic::div_mod::lemma_div_minus_one(missing as int, interval as int);
    } else {
        vstd::arithmetic::div_mod::lemma_basic_div(missing as int, interval as int);
    }
}

/// Correcting for coordinated omission: a latency of `k` expected intervals
/// stands for `k` samples, and one within the interval for a single one.
pub proof fn law_correction_count(m: HistogramModel, v: u64, interval: u64)
    ensures
        m.corrected(v, interval).samples.len() == m.samples.len() + if v > interval && interval
            > 0 {
            (v / interval) as nat
        } else {
            1
        },
        m.corrected(v, interval).samples.len() == m.samples.len() + corrected_count(v, interval),
        corrected_count(v, interval) >= 1,
{
    if v == interval && interval > 0 {
        vstd::arithmetic::div_mod::lemma_div_by_self(interval as int);
    }
    if v > interval && interval > 0 {
        assert(v / interval >= 1) by (nonlinear_arith)
            requires
                v > interval > 0,
        ;
        lemma_backfill_count(m.plus(v), (v - interval) as nat, interval as nat);
        vstd::arithmetic::div_mod::lemma_div_minus_one(v as int, interval as int);
    }
}

/// Recording into one of two histograms that are merged afterwards is recording
/// into their merge.
proof fn lemma_merge_step(a: HistogramModel, b: HistogramModel, v: u64)
    requires
        a.wf(),
        b.wf(),
    ensures
        a.merged(b).wf(),
        b.plus(v).wf(),
        a.merged(b.plus(v)) == a.merged(b).plus(v),
{
    assert(a.merged(b.plus(v)).samples =~= a.merged(b).plus(v).samples);
}

/// Merging adds up the counts, and recording two series into two histograms and
/// merging them gives what recording both into one histogram gives.
pub proof fn law_merge_is_combined_record(a: HistogramModel, xs: Seq<u64>, ys: Seq<u64>)
    requires
        a.wf(),
    ensures
        a.recorded(xs).merged(HistogramModel::empty().recorded(ys)) == a.recorded(xs + ys),
        a.recorded(xs + ys).samples.len() == a.samples.len() + xs.len() + ys.len(),
    decreases ys.len(),
{
    lemma_recorded(a, xs);
    lemma_recorded(a, xs + ys);
    if ys.len() == 0 {
        assert(xs + ys =~= xs);
    } else {
        let front = ys.drop_last();
        law_merge_is_combined_record(a, xs, front);
        lemma_recorded(HistogramModel::empty(), front);
        assert((xs + ys).drop_last() =~= xs + front);
        lemma_merge_step(a.recorded(xs), HistogramModel::empty().recorded(front), ys.last());
    }
}

/// Recording a series keeps the histogram valid and counts its values.
proof fn lemma_recorded(m: HistogramModel, xs: Seq<u64>)
    requires
        m.wf(),
    ensures
        m.recorded(xs).wf(),
        m.recorded(xs).samples.len() == m.samples.len() + xs.len(),
    decreases xs.len(),
{
    if xs.len() > 0 {
        lemma_recorded(m, xs.drop_last());
    }
}

/// The values that stand for a latency of `n` whole intervals: the latency itself, and
/// one less by an interval for each operation that it kept waiting.
pub open spec fn waited(v: int, interval: int, n: nat) -> Seq<u64> {
    Seq::new(n, |k: int| floor((v - k * interval) as u64))
}

proof fn lemma_waited_step(v: int, interval: int, n: nat)
    ensures
        waited(v, interval, n + 1) == seq![floor(v as u64)] + waited(v - interval, interval, n),
{
    let whole = waited(v, interval, n + 1);
    let rest = waited(v - interval, interval, n);
    assert forall|k: int| 0 <= k < n + 1 implies #[trigger] whole[k] == (seq![floor(v as u64)]
        + rest)[k] by {
        if k > 0 {
            assert((k - 1) * interval == k * interval - interval) by (nonlinear_arith);
        } else {
            assert(0 * interval == 0) by (nonlinear_arith);
        }
    }
    assert(whole =~= seq![floor(v as u64)] + rest);
}

proof fn lemma_added(m: Multiset<u64>, v: u64, rest: Seq<u64>)
    ensures
        m.insert(v).add(rest.to_multiset()) == m.add((seq![v] + rest).to_multiset()),
{
    broadcast use vstd::seq_lib::group_to_multiset_ensures;

    vstd::seq_lib::lemma_multiset_commutative(seq![v], rest);
    assert(seq![v] =~= Seq::empty().push(v));
    assert(seq![v].to_multiset() =~= Multiset::empty().insert(v));
    assert(m.insert(v).add(rest.to_multiset()) =~= m.add((seq![v] + rest).to_multiset()));
}

proof fn lemma_backfill_values(m: HistogramModel, missing: nat, interval: nat)
    requires
        interval > 0,
    ensures
        m.backfilled(missing, interval).samples == m.samples.add(
            waited(missing as int, interval as int, missing / interval).to_multiset(),
        ),
    decreases missing,
{
    broadcast use vstd::seq_lib::group_to_multiset_ensures;

    if missing >= interval {
        let next = m.plus(missing as u64);
        let left = (missing - interval) as nat;
        lemma_backfill_values(next, left, interval);
        vstd::arithmetic::div_mod::lemma_div_minus_one(missing as int, interval as int);
        let n = left / interval;
        assert(missing / interval == n + 1);
        lemma_waited_step(missing as int, interval as int, n);
        lemma_added(m.samples, floor(missing as u64), waited(left as int, interval as int, n));
    } else {
        vstd::arithmetic::div_mod::lemma_basic_div(missing as int, interval as int);
        let none = waited(missing as int, interval as int, 0);
        assert(none =~= Seq::empty());
        assert(m.samples.add(none.to_multiset()) =~= m.samples);
    }
}

/// Correcting for coordinated omission: a latency of at least one expected interval is
/// recorded together with the latencies of the operations that were due while it
/// lasted, each an interval shorter than the one before, down to the last that is no
/// shorter than the interval. Any other latency is recorded alone.
pub proof fn law_correction_adds_the_operations_kept_waiting(
    m: HistogramModel,
    v: u64,
    interval: u64,
)
    ensures
        0 < interval <= v ==> m.corrected(v, interval).samples == m.samples.add(
            waited(v as int, interval as int, (v / interval) as nat).to_multiset(),
        ),
        interval == 0 || v < interval ==> m.corrected(v, interval).samples == m.samples.insert(
            floor(v),
        ),
{
    broadcast use vstd::seq_lib::group_to_multiset_ensures;

    if 0 < interval <= v {
        let left = (v - interval) as nat;
        vstd::arithmetic::div_mod::lemma_div_minus_one(v as int, interval as int);
        let n = left / (interval as nat);
        assert((v / interval) as nat == n + 1);
        lemma_waited_step(v as int, interval as int, n);
        lemma_added(m.samples, floor(v), waited(left as int, interval as int, n));
        if v > interval {
            lemma_backfill_values(m.plus(v), left, interval as nat);
        } else {
            vstd::arithmetic::div_mod::lemma_basic_div(0, interval as int);
            let none = waited(left as int, interval as int, 0);
            assert(none =~= Seq::empty());
            assert(m.samples.insert(floor(v)).add(none.to_multiset()) =~= m.samples.insert(
                floor(v),
            ));
        }
    } else if interval == 0 && v > 0 {
        assert(m.plus(v).backfilled(v as nat, 0) == m.plus(v));
    }
}

proof fn lemma_extreme_values(v: u64)
    ensures
        low(v) <= v <= high(v),
        v - low(v) <= v / 1000,
        high(v) - v <= v / 1000,
{
    law_three_significant_digits(v);
    lemma_width(v as nat);
    vstd::arithmetic::div_mod::lemma_mod_bound(v as int, width(v as nat) as int);
    vstd::arithmetic::div_mod::lemma_mod_decreases(v as nat, width(v as nat));
}

/// The extremes of a histogram are those of what was recorded, to three significant
/// digits: the least is at or below every value and near one of them, and the
/// greatest at or above every value and near one of them.
pub proof fn law_extremes_are_those_of_the_values(xs: Seq<u64>)
    requires
        xs.len() > 0,
    ensures
        ({
            let m = HistogramModel::empty().recorded(xs);
            &&& forall|i: int| 0 <= i < xs.len() ==> m.least <= #[trigger] xs[i] <= m.greatest
            &&& exists|i: int|
                0 <= i < xs.len() && (#[trigger] xs[i]) - m.least <= xs[i] / 1000
            &&& exists|i: int|
                0 <= i < xs.len() && m.greatest - (#[trigger] xs[i]) <= xs[i] / 1000
        }),
    decreases xs.len(),
{
    let front = xs.drop_last();
    let last = xs.last();
    let n = xs.len() - 1;
    let m = HistogramModel::empty().recorded(xs);
    let before = HistogramModel::empty().recorded(front);
    lemma_extreme_values(last);
    lemma_recorded(HistogramModel::empty(), front);
    assert(xs[n] == last);
    if front.len() > 0 {
        law_extremes_are_those_of_the_values(front);
        assert forall|i: int| 0 <= i < xs.len() implies m.least <= #[trigger] xs[i]
            <= m.greatest by {
            if i < n {
                assert(front[i] == xs[i]);
            }
        }
        let i = choose|i: int|
            0 <= i < front.len() && (#[trigger] front[i]) - before.least <= front[i] / 1000;
        let j = choose|j: int|
            0 <= j < front.len() && before.greatest - (#[trigger] front[j]) <= front[j] / 1000;
        assert(front[i] == xs[i] && front[j] == xs[j]);
        assert(m.least == before.least || m.least == low(last));
        assert(m.greatest == before.greatest || m.greatest == high(last));
    } else {
        assert(front =~= Seq::empty());
        assert(m.least == low(last));
        assert(m.greatest == high(last));
    }
}

/// Every recording adds exactly one sample, at the start of the bucket of its value;
/// small values have buckets of their own.
pub proof fn law_recording_adds_one_sample(m: HistogramModel, v: u64)
    ensures
        m.plus(v).samples == m.samples.insert(floor(v)),
        m.plus(v).samples.len() == m.samples.len() + 1,
        v < 2048 ==> floor(v) == v,
        m.samples.len() > 0 ==> m.plus(v).least <= m.least && m.plus(v).greatest >= m.greatest,
{
    lemma_width(v as nat);
}

} // verus!
