use body_graphs::record::{validate_file, weight_samples, DataPoint, Ratio, Record, Sample};
use body_graphs::regression::SimpleRegression;
use body_graphs::series::{weight_average_series, weight_loess_series, weight_raw_series, MAX_SPAN};
use body_graphs::window::WindowIndexer;

const JAN_1_2021: i64 = 737791;

fn rec(day: i64, weight: Option<i64>) -> Record {
    Record {
        day,
        weight,
        fat_weight: None,
        pct_fat: None,
        pct_water: None,
        pct_bone: None,
        bmi: None,
    }
}

fn records(first: i64, weights: &[i64]) -> Vec<Record> {
    weights
        .iter()
        .enumerate()
        .map(|(i, w)| rec(first + i as i64, Some(*w)))
        .collect()
}

fn value(p: &DataPoint) -> f64 {
    p.value.num as f64 / p.value.den as f64
}

#[test]
fn average_of_five_days_with_width_three() {
    let recs = records(JAN_1_2021, &[150, 151, 149, 152, 150]);
    let avg = weight_average_series(&recs, 3);
    assert_eq!(avg.len(), 5);
    assert_eq!(avg[1].date, "2021-01-02");
    assert_eq!(value(&avg[1]), 150.0);
    assert_eq!(avg[1].value, Ratio { num: 450, den: 3 });
    assert_eq!(avg[0].date, "2021-01-01");
    assert_eq!(value(&avg[0]), 150.5);
    assert_eq!(avg[4].value, Ratio { num: 302, den: 2 });
}

#[test]
fn single_record_gives_one_point_in_each_series() {
    let recs = vec![rec(JAN_1_2021, Some(180))];
    let raw = weight_raw_series(&recs);
    let avg = weight_average_series(&recs, 30);
    let loess = weight_loess_series(&recs, 30);
    for s in [&raw, &avg, &loess] {
        assert_eq!(s.len(), 1);
        assert_eq!(s[0].date, "2021-01-01");
        assert_eq!(value(&s[0]), 180.0);
    }
}

#[test]
fn no_weights_gives_empty_series() {
    let recs = vec![rec(JAN_1_2021, None), rec(JAN_1_2021 + 1, None)];
    assert!(weight_raw_series(&recs).is_empty());
    assert!(weight_average_series(&recs, 30).is_empty());
    assert!(weight_loess_series(&recs, 30).is_empty());
}

#[test]
fn empty_records_give_empty_series() {
    let recs: Vec<Record> = Vec::new();
    assert!(weight_raw_series(&recs).is_empty());
    assert!(weight_average_series(&recs, 30).is_empty());
    assert!(weight_loess_series(&recs, 30).is_empty());
}

#[test]
fn raw_series_labels_and_skips_missing_weights() {
    let recs = vec![
        rec(JAN_1_2021, Some(1500)),
        rec(JAN_1_2021 + 1, None),
        rec(JAN_1_2021 + 31, Some(1490)),
        rec(693594, Some(10)),
    ];
    let raw = weight_raw_series(&recs);
    assert_eq!(raw.len(), 3);
    assert_eq!(raw[0].date, "2021-01-01");
    assert_eq!(raw[0].value, Ratio { num: 1500, den: 1 });
    assert_eq!(raw[1].date, "2021-02-01");
    assert_eq!(raw[1].value, Ratio { num: 1490, den: 1 });
    assert_eq!(raw[2].date, "1899-12-30");
}

#[test]
fn weight_samples_keep_order_of_weighed_records() {
    let recs = vec![rec(3, Some(7)), rec(4, None), rec(9, Some(-2))];
    let s = weight_samples(&recs);
    assert_eq!(s, vec![Sample { day: 3, weight: 7 }, Sample { day: 9, weight: -2 }]);
}

#[test]
fn indexer_ranges_hold_their_point_and_advance() {
    let days = [1i64, 2, 4, 7, 8, 9, 15, 16, 30];
    let samples: Vec<Sample> = days.iter().map(|d| Sample { day: *d, weight: 1 }).collect();
    for width in 1..12i64 {
        let mut ix = WindowIndexer::new(width);
        let mut prev_lo = 0usize;
        for i in 0..samples.len() {
            let (lo, hi) = ix.range(&samples, i);
            assert!(lo <= i && i < hi);
            assert!(lo >= prev_lo);
            assert_eq!(ix.lower_init, lo);
            prev_lo = lo;
            let start = days[i] - width / 2;
            let end = days[i] + (width - 1) / 2;
            for (j, d) in days.iter().enumerate() {
                assert_eq!(lo <= j && j < hi, start <= *d && *d <= end);
            }
        }
    }
}

#[test]
fn indexer_even_width_reaches_further_back() {
    let samples: Vec<Sample> = (0..10).map(|d| Sample { day: d, weight: 0 }).collect();
    let mut ix = WindowIndexer::new(4);
    for i in 0..5 {
        ix.range(&samples, i);
    }
    assert_eq!(ix.range(&samples, 5), (3, 7));
}

#[test]
fn average_counts_only_days_in_window() {
    let recs = vec![
        rec(100, Some(10)),
        rec(101, None),
        rec(103, Some(20)),
        rec(104, Some(40)),
        rec(106, Some(70)),
    ];
    // Width 4: from two days before to one day after.
    let avg = weight_average_series(&recs, 4);
    assert_eq!(avg.len(), 4);
    assert_eq!(avg[0].value, Ratio { num: 10, den: 1 });
    assert_eq!(avg[1].value, Ratio { num: 60, den: 2 });
    assert_eq!(avg[2].value, Ratio { num: 60, den: 2 });
    assert_eq!(avg[3].value, Ratio { num: 110, den: 2 });
}

#[test]
fn regression_predicts_exact_line() {
    let mut r = SimpleRegression::new();
    r.add_data(0, 1);
    r.add_data(1, 3);
    r.add_data(2, 5);
    let p = r.predict(3);
    assert_eq!(p.num as f64 / p.den as f64, 7.0);
    assert!(p.den > 0);
}

#[test]
fn regression_without_slope_gives_mean() {
    let mut r = SimpleRegression::new();
    r.add_data(5, 10);
    assert_eq!(r.predict(9), Ratio { num: 10, den: 1 });
    r.add_data(5, 20);
    assert_eq!(r.predict(9), Ratio { num: 30, den: 2 });
}

fn reference_fit(points: &[(f64, f64)], x: f64) -> f64 {
    let n = points.len() as f64;
    let mx = points.iter().map(|p| p.0).sum::<f64>() / n;
    let my = points.iter().map(|p| p.1).sum::<f64>() / n;
    let sxy: f64 = points.iter().map(|p| (p.0 - mx) * (p.1 - my)).sum();
    let sxx: f64 = points.iter().map(|p| (p.0 - mx) * (p.0 - mx)).sum();
    if sxx == 0.0 {
        return my;
    }
    let b = sxy / sxx;
    my - b * mx + b * x
}

#[test]
fn loess_matches_fit_recomputed_per_window() {
    let days = [0i64, 1, 3, 4, 5, 9, 10, 14, 15, 16, 20, 27];
    let weights = [1500i64, 1510, 1495, 1502, 1490, 1488, 1493, 1480, 1485, 1479, 1470, 1472];
    let recs: Vec<Record> = days
        .iter()
        .zip(weights.iter())
        .map(|(d, w)| rec(JAN_1_2021 + d, Some(*w)))
        .collect();
    let width = 7i64;
    let loess = weight_loess_series(&recs, width);
    assert_eq!(loess.len(), days.len());
    for (i, d) in days.iter().enumerate() {
        let pts: Vec<(f64, f64)> = days
            .iter()
            .zip(weights.iter())
            .filter(|(e, _)| d - width / 2 <= **e && **e <= d + (width - 1) / 2)
            .map(|(e, w)| (*e as f64, *w as f64))
            .collect();
        let expected = reference_fit(&pts, *d as f64);
        let got = value(&loess[i]);
        assert!(((got - expected) / expected).abs() <= 1e-9, "{} {}", got, expected);
    }
}

#[test]
fn loess_follows_a_straight_line() {
    let weights: Vec<i64> = (0..40).map(|i| 2000 - 3 * i).collect();
    let recs = records(JAN_1_2021, &weights);
    let loess = weight_loess_series(&recs, 30);
    for (i, p) in loess.iter().enumerate() {
        assert_eq!(value(p), (2000 - 3 * i as i64) as f64);
    }
}

#[test]
fn loess_at_largest_span_and_weight() {
    let big = 16_777_216i64;
    let recs = vec![rec(JAN_1_2021, Some(big)), rec(JAN_1_2021 + MAX_SPAN, Some(-big))];
    let loess = weight_loess_series(&recs, 2 * MAX_SPAN + 1);
    assert_eq!(value(&loess[0]), big as f64);
    assert_eq!(value(&loess[1]), -big as f64);
}

#[test]
fn builders_repeat_identically() {
    let recs = records(JAN_1_2021, &[150, 153, 149, 152, 150, 148, 151]);
    for width in [1i64, 2, 3, 30] {
        let a1 = weight_average_series(&recs, width);
        let a2 = weight_average_series(&recs, width);
        let l1 = weight_loess_series(&recs, width);
        let l2 = weight_loess_series(&recs, width);
        for (x, y) in a1.iter().zip(a2.iter()).chain(l1.iter().zip(l2.iter())) {
            assert_eq!(x.date, y.date);
            assert_eq!(x.value, y.value);
            assert_eq!(value(x).to_bits(), value(y).to_bits());
        }
    }
    let r1 = weight_raw_series(&recs);
    let r2 = weight_raw_series(&recs);
    assert_eq!(r1.len(), r2.len());
}

#[test]
fn validate_file_reports_out_of_order_rows() {
    let recs = vec![rec(10, Some(1)), rec(12, None), rec(12, Some(2)), rec(11, None), rec(20, None)];
    assert_eq!(validate_file(&recs), vec![2usize, 3]);
    assert!(validate_file(&records(5, &[1, 2, 3])).is_empty());
    assert!(validate_file(&Vec::new()).is_empty());
}
