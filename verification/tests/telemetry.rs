use dex_core::telemetry::{
    CoreId, CounterId, EventType, Figures, Histogram, MsgType, Nanos, NicTicks, PublisherId, TscTicks,
};

// ----- clock values ------------------------------------------------------------

#[test]
fn since_returns_difference() {
    assert_eq!(TscTicks(100).since(TscTicks(40)), TscTicks(60));
}

#[test]
fn since_saturates_on_underflow() {
    // earlier > self indicates a clock-source anomaly; saturate, don't wrap.
    assert_eq!(TscTicks(40).since(TscTicks(100)), TscTicks(0));
}

#[test]
fn core_id_from_aux_masks_low_byte() {
    // Linux puts (numa << 12) | cpu in TSC_AUX; we want only the cpu bits.
    assert_eq!(CoreId::from_aux(0x1_2345), CoreId(0x45));
}

#[test]
fn core_id_unknown_is_0xff() {
    assert_eq!(CoreId::unknown(), CoreId(0xFF));
}

#[test]
fn newtypes_are_repr_transparent() {
    // Same size and align as the underlying primitive.
    assert_eq!(core::mem::size_of::<TscTicks>(), 8);
    assert_eq!(core::mem::align_of::<TscTicks>(), 8);
    assert_eq!(core::mem::size_of::<NicTicks>(), 8);
    assert_eq!(core::mem::size_of::<Nanos>(), 8);
    assert_eq!(core::mem::size_of::<CoreId>(), 1);
}

// ----- histograms ----------------------------------------------------------------

fn percentile(h: &Histogram, p: f64) -> u64 {
    h.inner.inner.value_at_percentile(p)
}

#[test]
fn known_distribution_percentiles_are_correct() {
    let mut h = Histogram::new("test");
    for i in 1..=10_000u64 {
        h.record(Nanos(i));
    }
    // 3-sigfig precision → ~0.1% tolerance
    assert!((percentile(&h, 50.0) as i64 - 5000).abs() < 10);
    assert!((percentile(&h, 99.0) as i64 - 9900).abs() < 20);
}

#[test]
fn record_correct_backfills_coordinated_omission() {
    // One op stalls for 100× the expected interval. record_correct must
    // synthesize the missed in-between samples, so the tail is dragged up
    // and the count grows beyond the literal number of record calls.
    let interval = Nanos(10);
    let mut plain = Histogram::new("plain");
    let mut corrected = Histogram::new("corrected");
    for _ in 0..999 {
        plain.record(interval);
        corrected.record_correct(interval, interval);
    }
    plain.record(Nanos(1_000));
    corrected.record_correct(Nanos(1_000), interval);

    // Plain: exactly 1000 samples, p99.99 sees the lone spike modestly.
    assert_eq!(plain.len(), 1_000);
    // Corrected: the stall back-fills ~99 synthetic samples (1000/10 - 1).
    assert!(corrected.len() > plain.len(), "CO correction adds samples: {} vs {}", corrected.len(), plain.len());
    assert_eq!(corrected.len(), 999 + 100);
    // The corrected p99 is pulled up by the back-filled latencies.
    assert!(
        percentile(&corrected, 99.0) > percentile(&plain, 99.0),
        "corrected p99 {} should exceed plain p99 {}",
        percentile(&corrected, 99.0),
        percentile(&plain, 99.0)
    );
}

#[test]
fn merge_equals_combined_record() {
    let mut a = Histogram::new("a");
    let mut b = Histogram::new("b");
    let mut c = Histogram::new("c");
    for i in 1..=5_000u64 {
        a.record(Nanos(i));
        c.record(Nanos(i));
    }
    for i in 5_001..=10_000 {
        b.record(Nanos(i));
        c.record(Nanos(i));
    }
    a.merge(&b);
    assert_eq!(a.len(), c.len());
    assert_eq!(percentile(&a, 50.0), percentile(&c, 50.0));
    assert_eq!(percentile(&a, 99.0), percentile(&c, 99.0));
    assert_eq!((a.min(), a.max()), (c.min(), c.max()));
}

#[test]
fn record_zero_does_not_panic() {
    let mut h = Histogram::new("test");
    h.record(Nanos(0));
    assert_eq!(h.len(), 1);
}

#[test]
fn empty_histogram_reports_zero() {
    let h = Histogram::new("nothing yet");
    assert_eq!((h.len(), h.min().as_u64(), h.max().as_u64()), (0, 0, 0));
    assert_eq!(h.label(), "nothing yet");
}

#[test]
fn extremes_are_kept_to_the_bucket() {
    // below 2048 every value has a bucket of its own
    let mut small = Histogram::new("small");
    small.record(Nanos(2047));
    assert_eq!((small.min().as_u64(), small.max().as_u64()), (2047, 2047));

    // 4097 falls into a bucket of four values
    let mut h = Histogram::new("wide");
    h.record(Nanos(4097));
    assert_eq!((h.min().as_u64(), h.max().as_u64()), (4096, 4099));
    h.record(Nanos(10_001));
    assert_eq!((h.min().as_u64(), h.max().as_u64()), (4096, 10_007));
}

#[test]
fn the_largest_latency_can_be_recorded() {
    let mut h = Histogram::new("max");
    h.record(Nanos(u64::MAX));
    assert_eq!(h.len(), 1);
    assert_eq!((h.min().as_u64(), h.max().as_u64()), (u64::MAX, u64::MAX));
    let mut near = Histogram::new("near");
    near.record(Nanos(u64::MAX - 1));
    assert_eq!(near.max().as_u64(), u64::MAX - 1);
}

#[test]
fn three_significant_digits_are_kept() {
    for v in [1, 999, 2_047, 2_049, 4_099, 123_457, 1_000_001, 987_654_321, u64::MAX / 3] {
        let mut h = Histogram::new("digits");
        h.record(Nanos(v));
        let least = h.min().as_u64();
        assert!(least <= v && v - least <= v / 1000, "{v} became {least}");
    }
    let mut h = Histogram::new("bucket");
    h.record(Nanos(4_099));
    assert_eq!(h.min(), Nanos(4_096));
}

#[test]
fn correction_within_the_interval_is_plain() {
    let mut h = Histogram::new("h");
    h.record_correct(Nanos(10), Nanos(10));
    h.record_correct(Nanos(500), Nanos(0));
    assert_eq!(h.len(), 2);
    h.record_correct(Nanos(35), Nanos(10));
    // 35, 25 and 15
    assert_eq!(h.len(), 5);
    assert_eq!(h.inner.inner.count_at(25), 1);
    assert_eq!(h.inner.inner.count_at(15), 1);
}

#[test]
fn merging_an_empty_histogram_changes_nothing() {
    let mut a = Histogram::new("a");
    a.record(Nanos(7));
    a.merge(&Histogram::new("b"));
    assert_eq!((a.len(), a.min().as_u64(), a.max().as_u64()), (1, 7, 7));
    let mut c = Histogram::new("c");
    c.merge(&a);
    assert_eq!((c.len(), c.min().as_u64(), c.max().as_u64(), c.label()), (1, 7, 7, "c"));
}

#[test]
fn csv_header_names_eight_columns() {
    assert_eq!(Histogram::csv_header().split(',').count(), 8);
    assert!(Histogram::csv_header().starts_with("label,count,min_ns"));
}

#[test]
fn render_csv_fields_match_header() {
    let mut h = Histogram::new("my_label");
    for i in 1..=1000u64 {
        h.record(Nanos(i));
    }
    let figures = Figures {
        label: h.label().to_string(),
        count: h.len(),
        min: h.min().as_u64(),
        p50: percentile(&h, 50.0),
        p99: percentile(&h, 99.0),
        p99_99: percentile(&h, 99.99),
        max: h.max().as_u64(),
        throughput_text: format!("{:.0}", 1e9 / h.inner.inner.mean()),
    };
    let row = figures.render_csv();
    let fields: Vec<&str> = row.split(',').collect();
    assert_eq!(fields.len(), Histogram::csv_header().split(',').count());
    assert_eq!(fields[0], "my_label");
    assert_eq!(fields[1], "1000"); // count
    assert_eq!(row, "my_label,1000,1,500,990,1000,1000,1998002");
    assert_eq!(figures.render_markdown(), "| my_label | 1000 | 1 | 500 | 990 | 1000 | 1000 | 1998002 |");
}

// ----- identities ------------------------------------------------------------------

#[test]
fn identities_have_fixed_numbers() {
    assert_eq!((PublisherId::unknown().0, PublisherId::benchmark().0), (0, 999));
    assert_eq!((MsgType::Unknown.code(), MsgType::Benchmark.code()), (0, 1));
    assert_eq!((CounterId::Unknown.code(), CounterId::TelemetryDroppedCum.code()), (0, 5));
    assert_eq!((EventType::Unknown.code(), EventType::CorePinningViolation.code()), (0, 3));
}
