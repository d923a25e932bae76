//! Measurement records, the samples derived from them, and plotted points.
use vstd::prelude::*;

verus! {

/// One measurement occasion. Each measurement is absent when it was not
/// recorded that day.
#[derive(Clone, Copy, Debug)]
pub struct Record {
    /// Day number of the measurement.
    pub day: i64,
    pub weight: Option<i64>,
    pub fat_weight: Option<i64>,
    pub pct_fat: Option<i64>,
    pub pct_water: Option<i64>,
    pub pct_bone: Option<i64>,
    pub bmi: Option<i64>,
}

/// A record that carries a weight, reduced to its day and that weight.
#[derive(Clone, Copy, Debug, PartialEq, Eq)]
pub struct Sample {
    pub day: i64,
    pub weight: i64,
}

/// An exact fraction `num / den`.
#[derive(Clone, Copy, Debug, PartialEq, Eq)]
pub struct Ratio {
    pub num: i128,
    pub den: i128,
}

/// One plotted point: a `YYYY-MM-DD` label and its value.
#[derive(Debug)]
pub struct DataPoint {
    pub date: String,
    pub value: Ratio,
}

impl DataPoint {
    /// The label's text with the fraction's numerator and denominator.
    pub open spec fn view(&self) -> (Seq<char>, int, int) {
        (self.date@, self.value.num as int, self.value.den as int)
    }
}

/// The views of a sequence of points.
pub open spec fn points_view(v: Seq<DataPoint>) -> Seq<(Seq<char>, int, int)> {
    v.map_values(|p: DataPoint| p.view())
}

/// Records ordered by strictly increasing day.
pub open spec fn strictly_ascending(s: Seq<Record>) -> bool {
    forall|i: int, j: int| 0 <= i < j < s.len() ==> s[i].day < s[j].day
}

/// Samples ordered by strictly increasing day.
pub open spec fn samples_ascending(s: Seq<Sample>) -> bool {
    forall|i: int, j: int| 0 <= i < j < s.len() ==> s[i].day < s[j].day
}

/// The samples of the weight-bearing records, in their order.
pub open spec fn weighed(s: Seq<Record>) -> Seq<Sample>
    decreases s.len(),
{
    if s.len() == 0 {
        Seq::empty()
    } else {
        let rest = weighed(s.drop_last());
        match s.last().weight {
            Some(w) => rest.push(Sample { day: s.last().day, weight: w }),
            None => rest,
        }
    }
}

/// Whether position `i` breaks the order: its day is not after the day before it.
pub open spec fn out_of_order(s: Seq<Record>, i: int) -> bool {
    1 <= i < s.len() && s[i - 1].day >= s[i].day
}

/// Each sample of `weighed(s)` is one of `weighed(s.drop_last())` or comes
/// from the last record.
pub proof fn lemma_weighed_step(s: Seq<Record>)
    requires
        s.len() > 0,
    ensures
        ({
            let rest = weighed(s.drop_last());
            &&& rest.len() <= weighed(s).len() <= rest.len() + 1
            &&& forall|k: int| 0 <= k < rest.len() ==> weighed(s)[k] == rest[k]
            &&& weighed(s).len() == rest.len() + 1 ==> weighed(s)[rest.len() as int]
                == (Sample { day: s.last().day, weight: s.last().weight.unwrap() })
            &&& (weighed(s).len() == rest.len() + 1 <==> s.last().weight.is_some())
        }),
{
    let rest = weighed(s.drop_last());
    match s.last().weight {
        Some(w) => {
            assert(weighed(s) == rest.push(Sample { day: s.last().day, weight: w }));
        },
        None => {
            assert(weighed(s) == rest);
        },
    }
}

/// Every sample of `weighed(s)` is dated before `b` when every record is.
pub proof fn lemma_weighed_before(s: Seq<Record>, b: int)
    requires
        forall|j: int| 0 <= j < s.len() ==> s[j].day < b,
    ensures
        forall|k: int| 0 <= k < weighed(s).len() ==> weighed(s)[k].day < b,
    decreases s.len(),
{
    if s.len() > 0 {
        let t = s.drop_last();
        assert forall|j: int| 0 <= j < t.len() implies t[j].day < b by {
            assert(t[j] == s[j]);
        }
        lemma_weighed_before(t, b);
        assert(s[s.len() - 1].day < b);
        lemma_weighed_step(s);
    }
}

/// The weight-bearing samples of strictly ascending records are strictly ascending.
pub proof fn lemma_weighed_ascending(s: Seq<Record>)
    requires
        strictly_ascending(s),
    ensures
        samples_ascending(weighed(s)),
    decreases s.len(),
{
    if s.len() > 0 {
        let t = s.drop_last();
        lemma_weighed_ascending(t);
        assert forall|j: int| 0 <= j < t.len() implies t[j].day < s.last().day by {
            assert(t[j] == s[j]);
        }
        lemma_weighed_before(t, s.last().day as int);
        lemma_weighed_step(s);
    }
}

/// Every sample of `weighed(s)` has a day in range when every record does.
pub proof fn lemma_weighed_days(s: Seq<Record>, lo: int, hi: int)
    requires
        forall|j: int| 0 <= j < s.len() ==> lo <= #[trigger] s[j].day <= hi,
    ensures
        forall|k: int| 0 <= k < weighed(s).len() ==> lo <= #[trigger] weighed(s)[k].day <= hi,
    decreases s.len(),
{
    if s.len() > 0 {
        let t = s.drop_last();
        assert forall|j: int| 0 <= j < t.len() implies lo <= #[trigger] t[j].day <= hi by {
            assert(t[j] == s[j]);
        }
        lemma_weighed_days(t, lo, hi);
        assert(lo <= s[s.len() - 1].day <= hi);
        lemma_weighed_step(s);
    }
}

/// The weight-bearing samples of the records, in order.
pub fn weight_samples(records: &Vec<Record>) -> (r: Vec<Sample>)
    ensures
        r@ == weighed(records@),
{
    let mut r: Vec<Sample> = Vec::new();
    let mut i: usize = 0;
    while i < records.len()
        invariant
            i <= records.len(),
            r@ == weighed(records@.take(i as int)),
        decreases records.len() - i,
    {
        let rec = records[i];
        proof {
            assert(records@.take(i as int + 1).drop_last() =~= records@.take(i as int));
        }
        match rec.weight {
            Some(w) => r.push(Sample { day: rec.day, weight: w }),
            None => {},
        }
        i = i + 1;
    }
    proof {
        assert(records@.take(records.len() as int) =~= records@);
    }
    r
}

/// The positions that break the strictly increasing order of days, in
/// increasing order: each position `i` whose day is the same as or earlier
/// than the day of position `i - 1`. Empty exactly when the records are
/// strictly ascending.
pub fn validate_file(records: &Vec<Record>) -> (r: Vec<usize>)
    ensures
        forall|k: int| 0 <= k < r.len() ==> out_of_order(records@, r[k] as int),
        forall|k: int, l: int| 0 <= k < l < r.len() ==> r[k] < r[l],
        forall|i: int| out_of_order(records@, i) ==> exists|k: int| 0 <= k < r.len() && r[k] == i,
        r.len() == 0 <==> strictly_ascending(records@),
{
    let mut r: Vec<usize> = Vec::new();
    let mut i: usize = 1;
    while i < records.len()
        invariant
            1 <= i,
            i <= records.len() || records.len() == 0,
            forall|k: int| 0 <= k < r.len() ==> out_of_order(records@, r[k] as int) && r[k] < i,
            forall|k: int, l: int| 0 <= k < l < r.len() ==> r[k] < r[l],
            forall|j: int| 1 <= j < i && out_of_order(records@, j) ==> exists|k: int|
                0 <= k < r.len() && r[k] == j,
        decreases records.len() - i,
    {
        let ghost r0 = r@;
        if records[i - 1].day >= records[i].day {
            r.push(i);
            assert(r[r.len() - 1] == i);
        }
        proof {
            assert forall|j: int| 1 <= j < i + 1 && out_of_order(records@, j) implies exists|k: int|
                0 <= k < r.len() && r[k] == j by {
                if j < i {
                    let k0 = choose|k: int| 0 <= k < r0.len() && r0[k] == j;
                    assert(r[k0] == j);
                } else {
                    assert(r[r.len() - 1] == j);
                }
            }
        }
        i = i + 1;
    }
    proof {
        if r.len() == 0 {
            assert forall|a: int, b: int| 0 <= a < b < records.len() implies records@[a].day
                < records@[b].day by {
                lemma_ascending_from_steps(records@, a, b);
            }
        } else {
            assert(out_of_order(records@, r[0] as int));
            let p = r[0] as int;
            assert(!(records@[p - 1].day < records@[p].day));
        }
    }
    r
}

/// Records whose consecutive days increase are strictly ascending.
proof fn lemma_ascending_from_steps(s: Seq<Record>, a: int, b: int)
    requires
        0 <= a < b < s.len(),
        forall|j: int| 1 <= j < s.len() ==> !out_of_order(s, j),
    ensures
        s[a].day < s[b].day,
    decreases b - a,
{
    assert(!out_of_order(s, b));
    if a + 1 < b {
        lemma_ascending_from_steps(s, a, b - 1);
    }
}

} // verus!
