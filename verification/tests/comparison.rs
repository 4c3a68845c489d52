use dex_core::benchkit::comparison::{
    classify_pair, delta_cell, judge, match_reports, parse_csv, Change, Metric, Metrics, RowChanges,
};
use dex_core::benchkit::{Comparison, Verdict};
use dex_core::telemetry::Histogram;

fn csv(rows: &[(&str, &str, u64, u64, u64)]) -> String {
    let mut s = format!("regime,{}\n", Histogram::csv_header());
    for (regime, label, p50, p99, p99_99) in rows {
        // regime,label,count,min,p50,p99,p99_99,max,msgs/s
        s.push_str(&format!("{regime},{label},1000,1,{p50},{p99},{p99_99},{p99_99},0\n"));
    }
    s
}

fn percent(base: u64, cur: u64) -> f64 {
    (cur as f64 - base as f64) / base as f64 * 100.0
}

fn change(base: u64, cur: u64, noise_pct: f64) -> Change {
    let pct = percent(base, cur);
    if base == 0 || pct.abs() <= noise_pct {
        Change::WithinNoise
    } else if pct > 0.0 {
        Change::Worse { rank: pct.to_bits() }
    } else {
        Change::Better { rank: (-pct).to_bits() }
    }
}

fn from_strings(base: &str, cur: &str, noise_pct: f64) -> Comparison {
    let rows = match_reports(base, cur)
        .into_iter()
        .map(|row| {
            let none = Metrics { p50: 0, p99: 0, p99_99: 0 };
            let (b, c) = (row.base.unwrap_or(none), row.cur.unwrap_or(none));
            let changes = RowChanges {
                p50: change(b.p50, c.p50, noise_pct),
                p99: change(b.p99, c.p99, noise_pct),
                p99_99: change(b.p99_99, c.p99_99, noise_pct),
                p50_pct: format!("{:+.1}%", percent(b.p50, c.p50)),
                p99_pct: format!("{:+.1}%", percent(b.p99, c.p99)),
                p99_99_pct: format!("{:+.1}%", percent(b.p99_99, c.p99_99)),
            };
            judge(row, changes)
        })
        .collect();
    Comparison::new(rows, format!("{noise_pct:.1}"))
}

#[test]
fn within_noise_is_not_a_win() {
    let base = csv(&[("back_to_back", "cross", 100, 100, 100)]);
    let cur = csv(&[("back_to_back", "cross", 101, 101, 101)]); // +1%
    let c = from_strings(&base, &cur, 5.0);
    assert!(!c.any_regressed());
    assert!(c.to_markdown().contains("within noise"));
}

#[test]
fn regression_beyond_band_is_flagged() {
    let base = csv(&[("back_to_back", "cross", 100, 100, 100)]);
    let cur = csv(&[("back_to_back", "cross", 130, 130, 130)]); // +30%
    let c = from_strings(&base, &cur, 5.0);
    assert!(c.any_regressed());
}

#[test]
fn improvement_detected() {
    let base = csv(&[("back_to_back", "cross", 100, 100, 100)]);
    let cur = csv(&[("back_to_back", "cross", 70, 70, 70)]); // -30%
    let c = from_strings(&base, &cur, 5.0);
    assert!(!c.any_regressed());
    assert!(c.to_markdown().contains("improved"));
}

#[test]
fn same_label_different_regime_does_not_match() {
    // A back-to-back baseline and an open-loop current for the "same" label
    // are different keys → each shows as incomparable, never subtracted.
    let base = csv(&[("back_to_back", "cross", 100, 100, 100)]);
    let cur = csv(&[("open_loop", "cross", 500, 500, 500)]);
    let c = from_strings(&base, &cur, 5.0);
    assert!(!c.any_regressed(), "cross-regime must not be read as a regression");
    let md = c.to_markdown();
    assert_eq!(md.matches("incomparable").count(), 2);
}

#[test]
fn tail_regression_caught_when_p50_flat() {
    // p50 identical, p99 inside the band, p99.99 doubled. It must fail, and name
    // the driver.
    let base = csv(&[("back_to_back", "cross", 100, 200, 400)]);
    let cur = csv(&[("back_to_back", "cross", 100, 205, 800)]);
    let c = from_strings(&base, &cur, 5.0);
    assert!(c.any_regressed(), "a doubled p99.99 must fail even with a flat p50");
    assert!(c.to_markdown().contains("REGRESSED (p99.99)"));
}

#[test]
fn p50_improvement_does_not_mask_tail_regression() {
    // Halved p50, doubled p99.99: worst metric wins, so this is a regression.
    let base = csv(&[("back_to_back", "cross", 100, 200, 400)]);
    let cur = csv(&[("back_to_back", "cross", 50, 200, 800)]);
    let c = from_strings(&base, &cur, 5.0);
    assert!(c.any_regressed(), "an improved p50 must not excuse a blown tail");
    assert!(c.to_markdown().contains("REGRESSED (p99.99)"));
}

#[test]
fn comparison_table_is_exact() {
    let base = csv(&[("back_to_back", "b", 100, 200, 400), ("back_to_back", "a", 10, 10, 10)]);
    let cur = csv(&[("back_to_back", "b", 90, 200, 440)]);
    assert_eq!(
        from_strings(&base, &cur, 5.0).to_markdown(),
        "# Benchmark comparison (noise band ±5.0%)\n\n\
         Each cell is `base→current (Δ%)` in ns. The verdict is the worst metric of the three.\n\n\
         | scenario | regime | p50 | p99 | p99.99 | verdict |\n\
         |---|---|--:|--:|--:|---|\n\
         | a | back_to_back | 10→— | 10→— | 10→— | ? incomparable |\n\
         | b | back_to_back | 100→90 (-10.0%) | 200→200 (+0.0%) | 400→440 (+10.0%) | ✗ REGRESSED (p99.99) |\n"
    );
}

#[test]
fn rows_without_the_figures_are_left_out() {
    let body = "header\n\n   \nb2b,short,1,2,3\nb2b,words,1,2,x,4,5,6,7\nb2b,good,1,2,3,4,5,6,7\nb2b,good,1,2,30,40,50,6,7,0,0,0,0\n";
    let rows = parse_csv(body);
    assert_eq!(rows.len(), 1);
    assert_eq!((rows[0].label.as_str(), rows[0].regime.as_str()), ("good", "b2b"));
    // the last row for a key counts
    assert_eq!(rows[0].metrics, Metrics { p50: 30, p99: 40, p99_99: 50 });
    assert!(parse_csv("").is_empty());
}

#[test]
fn the_largest_change_drives_the_verdict() {
    let base = Metrics { p50: 1, p99: 1, p99_99: 1 };
    let worse = |rank| Change::Worse { rank };
    let better = |rank| Change::Better { rank };
    assert_eq!(classify_pair(&base, worse(5), worse(9), worse(9)), (Verdict::Regressed, Some(Metric::P99)));
    assert_eq!(classify_pair(&base, better(9), better(3), worse(1)), (Verdict::Regressed, Some(Metric::P99_99)));
    assert_eq!(classify_pair(&base, better(2), Change::WithinNoise, better(3)), (Verdict::Improved, Some(Metric::P99_99)));
    assert_eq!(
        classify_pair(&base, Change::WithinNoise, Change::WithinNoise, Change::WithinNoise),
        (Verdict::WithinNoise, None)
    );
    let zero = Metrics { p50: 1, p99: 0, p99_99: 1 };
    assert_eq!(classify_pair(&zero, worse(5), worse(9), worse(9)), (Verdict::Incomparable, None));
}

#[test]
fn cells_show_missing_sides() {
    assert_eq!(delta_cell(Some(100), Some(130), "+30.0%"), "100→130 (+30.0%)");
    assert_eq!(delta_cell(Some(0), Some(130), "unused"), "0→130");
    assert_eq!(delta_cell(Some(100), None, ""), "100→—");
    assert_eq!(delta_cell(None, Some(7), ""), "—→7");
    assert_eq!(delta_cell(None, None, ""), "—");
}
