//! The three plotted series: raw weights, centred rolling average, and local
//! linear regression.
use vstd::prelude::*;

use crate::calendar::{date_label, day_in_range, day_label};
use crate::record::{
    lemma_weighed_ascending, lemma_weighed_days, points_view, samples_ascending,
    strictly_ascending, weight_samples, weighed, DataPoint, Ratio, Record, Sample,
};
use crate::regression::{
    lemma_prediction_is_least_squares, predict_den, predict_num, residual_moment, residual_sum,
    slope_den, SimpleRegression, MAX_Y,
};
use crate::window::{
    days_in_range, is_window_range, lemma_ready_for_later, lemma_window_is_range, window,
    WindowIndexer,
};

verus! {

/// Largest number of days between the first and the last weight-bearing
/// record that the regression series takes, so that its exact sums fit in
/// 128 bits.
pub const MAX_SPAN: i64 = 262_143;

/// Records whose days all lie in the labelled calendar range.
pub open spec fn records_in_range(s: Seq<Record>) -> bool {
    forall|k: int| 0 <= k < s.len() ==> day_in_range(#[trigger] s[k].day as int)
}

/// Samples within the regression's limits: weights of at most `MAX_Y` in
/// magnitude, and at most `MAX_SPAN` days after the first sample.
pub open spec fn regression_limits(s: Seq<Sample>) -> bool {
    forall|k: int|
        0 <= k < s.len() ==> -MAX_Y <= (#[trigger] s[k]).weight <= MAX_Y && s[k].day - s[0].day
            <= MAX_SPAN
}

/// Sum of the weights of the samples.
pub open spec fn sum_weights(s: Seq<Sample>) -> int
    decreases s.len(),
{
    if s.len() == 0 { 0 } else { sum_weights(s.drop_last()) + s.last().weight }
}

/// The samples as regression points: days after `base` against weights.
pub open spec fn offsets(s: Seq<Sample>, base: int) -> Seq<(int, int)> {
    s.map_values(|e: Sample| (e.day - base, e.weight as int))
}

/// The raw series: each weight-bearing record's label and weight.
pub open spec fn raw_series(records: Seq<Record>) -> Seq<(Seq<char>, int, int)> {
    let s = weighed(records);
    Seq::new(s.len(), |k: int| (date_label(s[k].day as int), s[k].weight as int, 1))
}

/// The rolling average at sample `k`: the sum of the weights in its window
/// over their count.
pub open spec fn average_point(s: Seq<Sample>, k: int, width: int) -> (Seq<char>, int, int) {
    let win = window(s, s[k].day as int, width);
    (date_label(s[k].day as int), sum_weights(win), win.len() as int)
}

/// The rolling-average series of the weight-bearing records.
pub open spec fn average_series(records: Seq<Record>, width: int) -> Seq<(Seq<char>, int, int)> {
    let s = weighed(records);
    Seq::new(s.len(), |k: int| average_point(s, k, width))
}

/// The regression estimate at sample `k`: the least-squares line through
/// the samples of its window, as days after the first sample against
/// weights, evaluated at sample `k`'s own day.
pub open spec fn loess_point(s: Seq<Sample>, k: int, width: int) -> (Seq<char>, int, int) {
    let base = s[0].day as int;
    let pts = offsets(window(s, s[k].day as int, width), base);
    let x = s[k].day - base;
    (date_label(s[k].day as int), predict_num(pts, x), predict_den(pts))
}

/// The regression series of the weight-bearing records.
pub open spec fn loess_series(records: Seq<Record>, width: int) -> Seq<(Seq<char>, int, int)> {
    let s = weighed(records);
    Seq::new(s.len(), |k: int| loess_point(s, k, width))
}

/// Ascending samples are at least one day apart per position.
proof fn lemma_day_gap(s: Seq<Sample>, i: int, j: int)
    requires
        samples_ascending(s),
        0 <= i <= j < s.len(),
    ensures
        s[j].day - s[i].day >= j - i,
    decreases j - i,
{
    if i < j {
        lemma_day_gap(s, i, j - 1);
        assert(s[j - 1].day < s[j].day);
    }
}

/// The samples of the records, with what the windows need of them.
fn prepared_samples(records: &Vec<Record>) -> (r: Vec<Sample>)
    requires
        records_in_range(records@),
    ensures
        r@ == weighed(records@),
        days_in_range(r@),
        strictly_ascending(records@) ==> samples_ascending(r@),
{
    let r = weight_samples(records);
    proof {
        assert forall|j: int| 0 <= j < records@.len() implies -crate::calendar::MAX_DAY
            <= #[trigger] records@[j].day <= crate::calendar::MAX_DAY by {
            assert(day_in_range(records@[j].day as int));
        }
        lemma_weighed_days(records@, -crate::calendar::MAX_DAY as int, crate::calendar::MAX_DAY as int);
        if strictly_ascending(records@) {
            lemma_weighed_ascending(records@);
        }
    }
    r
}

/// The raw series: one point per weight-bearing record, in order, with the
/// record's weight as its value.
pub fn weight_raw_series(records: &Vec<Record>) -> (r: Vec<DataPoint>)
    requires
        records_in_range(records@),
    ensures
        points_view(r@) == raw_series(records@),
{
    let samples = prepared_samples(records);
    let mut r: Vec<DataPoint> = Vec::new();
    let mut k: usize = 0;
    while k < samples.len()
        invariant
            k <= samples.len(),
            samples@ == weighed(records@),
            days_in_range(samples@),
            r.len() == k,
            forall|j: int| 0 <= j < k ==> (#[trigger] r@[j]).view() == raw_series(records@)[j],
        decreases samples.len() - k,
    {
        let e = samples[k];
        proof {
            assert(day_in_range(samples@[k as int].day as int));
        }
        let date = day_label(e.day);
        r.push(DataPoint { date, value: Ratio { num: e.weight as i128, den: 1 } });
        k = k + 1;
    }
    assert(points_view(r@) =~= raw_series(records@));
    r
}

/// Sum of the weights of `s[lo..hi)`.
fn range_sum(s: &Vec<Sample>, lo: usize, hi: usize) -> (r: i128)
    requires
        lo <= hi <= s.len(),
    ensures
        r == sum_weights(s@.subrange(lo as int, hi as int)),
{
    let mut sum: i128 = 0;
    let mut j: usize = lo;
    while j < hi
        invariant
            lo <= j <= hi <= s.len(),
            sum == sum_weights(s@.subrange(lo as int, j as int)),
            -((j - lo) * 0x8000_0000_0000_0000) <= sum <= (j - lo) * 0x8000_0000_0000_0000,
        decreases hi - j,
    {
        assert(s@.subrange(lo as int, j + 1).drop_last() =~= s@.subrange(lo as int, j as int));
        sum = sum + s[j].weight as i128;
        j = j + 1;
    }
    sum
}

/// The rolling-average series: one point per weight-bearing record, in
/// order, whose value is the mean of the weights of the weight-bearing
/// records dated from `num_days / 2` days before it to `(num_days - 1) / 2`
/// days after it.
pub fn weight_average_series(records: &Vec<Record>, num_days: i64) -> (r: Vec<DataPoint>)
    requires
        num_days >= 1,
        strictly_ascending(records@),
        records_in_range(records@),
    ensures
        points_view(r@) == average_series(records@, num_days as int),
{
    let samples = prepared_samples(records);
    let mut indexer = WindowIndexer::new(num_days);
    let mut r: Vec<DataPoint> = Vec::new();
    let mut k: usize = 0;
    while k < samples.len()
        invariant
            k <= samples.len(),
            samples@ == weighed(records@),
            days_in_range(samples@),
            samples_ascending(samples@),
            indexer.wf(),
            indexer.num_days == num_days,
            k < samples.len() ==> indexer.ready_for(samples@, k as int),
            r.len() == k,
            forall|j: int| 0 <= j < k ==> (#[trigger] r@[j]).view() == average_series(records@, num_days as int)[j],
        decreases samples.len() - k,
    {
        let (lo, hi) = indexer.range(&samples, k);
        let sum = range_sum(&samples, lo, hi);
        let e = samples[k];
        proof {
            assert(day_in_range(samples@[k as int].day as int));
            lemma_window_is_range(samples@, e.day as int, num_days as int, lo as int, hi as int);
            if k + 1 < samples.len() {
                lemma_ready_for_later(indexer, samples@, k as int, lo as int, hi as int, k + 1);
            }
        }
        let date = day_label(e.day);
        r.push(DataPoint { date, value: Ratio { num: sum, den: (hi - lo) as i128 } });
        k = k + 1;
    }
    assert(points_view(r@) =~= average_series(records@, num_days as int));
    r
}

/// The regression through the samples `s[lo..hi)`, as days after `base`
/// against weights, evaluated at `x`.
fn range_predict(s: &Vec<Sample>, lo: usize, hi: usize, base: i64, x: i64) -> (r: Ratio)
    requires
        lo < hi <= s.len(),
        samples_ascending(s@),
        regression_limits(s@),
        base == s@[0].day,
        0 <= x <= MAX_SPAN,
    ensures
        r.num == predict_num(offsets(s@.subrange(lo as int, hi as int), base as int), x as int),
        r.den == predict_den(offsets(s@.subrange(lo as int, hi as int), base as int)),
        r.den > 0,
{
    proof {
        lemma_day_gap(s@, lo as int, hi - 1);
        assert(s@[hi - 1].day - s@[0].day <= MAX_SPAN);
        if lo > 0 {
            assert(s@[0].day < s@[lo as int].day);
        }
    }
    let mut reg = SimpleRegression::new();
    let mut j: usize = lo;
    while j < hi
        invariant
            lo <= j <= hi <= s.len(),
            hi - 1 - lo <= MAX_SPAN,
            samples_ascending(s@),
            regression_limits(s@),
            base == s@[0].day,
            reg.wf(),
            reg.points() == offsets(s@.subrange(lo as int, j as int), base as int),
        decreases hi - j,
    {
        let e = s[j];
        proof {
            assert(-MAX_Y <= s@[j as int].weight <= MAX_Y && s@[j as int].day - s@[0].day <= MAX_SPAN);
            if j > 0 {
                assert(s@[0].day < s@[j as int].day);
            }
            assert(offsets(s@.subrange(lo as int, j + 1), base as int) =~= offsets(
                s@.subrange(lo as int, j as int),
                base as int,
            ).push((e.day - base, e.weight as int)));
        }
        reg.add_data(e.day - base, e.weight);
        j = j + 1;
    }
    reg.predict(x)
}

/// The regression series: one point per weight-bearing record, in order,
/// whose value is the least-squares line through the weight-bearing records
/// of its window (as for the rolling average), with days counted from the
/// first weight-bearing record, evaluated at the record's own day. Where the
/// window has one record the value is that record's weight.
pub fn weight_loess_series(records: &Vec<Record>, num_days: i64) -> (r: Vec<DataPoint>)
    requires
        num_days >= 1,
        strictly_ascending(records@),
        records_in_range(records@),
        regression_limits(weighed(records@)),
    ensures
        points_view(r@) == loess_series(records@, num_days as int),
{
    let samples = prepared_samples(records);
    let mut r: Vec<DataPoint> = Vec::new();
    if samples.len() == 0 {
        assert(points_view(r@) =~= loess_series(records@, num_days as int));
        return r;
    }
    let base = samples[0].day;
    let mut indexer = WindowIndexer::new(num_days);
    let mut k: usize = 0;
    while k < samples.len()
        invariant
            0 < samples.len(),
            k <= samples.len(),
            samples@ == weighed(records@),
            days_in_range(samples@),
            samples_ascending(samples@),
            regression_limits(samples@),
            base == samples@[0].day,
            indexer.wf(),
            indexer.num_days == num_days,
            k < samples.len() ==> indexer.ready_for(samples@, k as int),
            r.len() == k,
            forall|j: int| 0 <= j < k ==> (#[trigger] r@[j]).view() == loess_series(records@, num_days as int)[j],
        decreases samples.len() - k,
    {
        let (lo, hi) = indexer.range(&samples, k);
        let e = samples[k];
        proof {
            assert(day_in_range(samples@[k as int].day as int));
            assert(samples@[k as int].day - samples@[0].day <= MAX_SPAN);
            if k > 0 {
                assert(samples@[0].day < samples@[k as int].day);
            }
            lemma_window_is_range(samples@, e.day as int, num_days as int, lo as int, hi as int);
            if k + 1 < samples.len() {
                lemma_ready_for_later(indexer, samples@, k as int, lo as int, hi as int, k + 1);
            }
        }
        let value = range_predict(&samples, lo, hi, base, e.day - base);
        let date = day_label(e.day);
        r.push(DataPoint { date, value });
        k = k + 1;
    }
    assert(points_view(r@) =~= loess_series(records@, num_days as int));
    r
}

/// Each point of the regression series lies on the least-squares line of
/// its window: where the window's days are not all equal, the line's
/// residuals over the window's points sum to zero and are uncorrelated with
/// the days.
pub proof fn lemma_loess_points_are_least_squares(records: Seq<Record>, width: int, k: int)
    requires
        0 <= k < weighed(records).len(),
    ensures
        ({
            let s = weighed(records);
            let pts = offsets(window(s, s[k].day as int, width), s[0].day as int);
            &&& loess_series(records, width)[k].1 == predict_num(pts, s[k].day - s[0].day)
            &&& loess_series(records, width)[k].2 == predict_den(pts)
            &&& slope_den(pts) > 0 ==> residual_sum(pts, pts) == 0 && residual_moment(pts, pts) == 0
        }),
{
    let s = weighed(records);
    let pts = offsets(window(s, s[k].day as int, width), s[0].day as int);
    if slope_den(pts) > 0 {
        lemma_prediction_is_least_squares(pts);
    }
}

/// Building a series twice from the same records gives the same points:
/// each builder's result is determined by its input alone.
pub proof fn lemma_series_repeatable(
    records: Seq<Record>,
    width: int,
    first: Seq<DataPoint>,
    second: Seq<DataPoint>,
)
    requires
        (points_view(first) == raw_series(records) && points_view(second) == raw_series(records))
            || (points_view(first) == average_series(records, width) && points_view(second)
            == average_series(records, width)) || (points_view(first) == loess_series(records, width)
            && points_view(second) == loess_series(records, width)),
    ensures
        points_view(first) == points_view(second),
        first.len() == second.len(),
        forall|k: int|
            0 <= k < first.len() ==> (#[trigger] first[k]).date@ == second[k].date@ && first[k].value
                == second[k].value,
{
    assert(points_view(first).len() == first.len());
    assert(points_view(second).len() == second.len());
    assert forall|k: int| 0 <= k < first.len() implies (#[trigger] first[k]).date@ == second[k].date@
        && first[k].value == second[k].value by {
        assert(points_view(first)[k] == first[k].view());
        assert(points_view(second)[k] == second[k].view());
    }
}

} // verus!
