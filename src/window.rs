//! The sliding window over ascending samples shared by the derived series.
use vstd::prelude::*;

use crate::calendar::day_in_range;
use crate::record::{samples_ascending, Sample};

verus! {

/// First day of the window of `width` days around day `q`.
pub open spec fn window_start(q: int, width: int) -> int {
    q - width / 2
}

/// Last day of the window of `width` days around day `q`: the window reaches
/// one day further back than forward when the width is even.
pub open spec fn window_end(q: int, width: int) -> int {
    q + (width - 1) / 2
}

/// Whether day `d` lies in the window of `width` days around day `q`.
pub open spec fn in_window(d: int, q: int, width: int) -> bool {
    window_start(q, width) <= d <= window_end(q, width)
}

/// The samples of `s` whose day lies in the window around day `q`, in order.
pub open spec fn window(s: Seq<Sample>, q: int, width: int) -> Seq<Sample>
    decreases s.len(),
{
    if s.len() == 0 {
        Seq::empty()
    } else {
        let rest = window(s.drop_last(), q, width);
        if in_window(s.last().day as int, q, width) {
            rest.push(s.last())
        } else {
            rest
        }
    }
}

/// Every sample lies in its own window.
pub proof fn lemma_window_holds_own_sample(s: Seq<Sample>, width: int, i: int)
    requires
        width >= 1,
        0 <= i < s.len(),
    ensures
        window(s, s[i].day as int, width).contains(s[i]),
    decreases s.len(),
{
    let q = s[i].day as int;
    let t = s.drop_last();
    if i == s.len() - 1 {
        assert(in_window(s.last().day as int, q, width));
        assert(window(s, q, width) == window(t, q, width).push(s.last()));
        assert(window(s, q, width)[window(t, q, width).len() as int] == s[i]);
    } else {
        assert(t[i] == s[i]);
        lemma_window_holds_own_sample(t, width, i);
        let w = window(t, q, width);
        let j = choose|j: int| 0 <= j < w.len() && w[j] == s[i];
        if in_window(s.last().day as int, q, width) {
            assert(window(s, q, width)[j] == s[i]);
        } else {
            assert(window(s, q, width)[j] == s[i]);
        }
    }
}

/// Samples whose days all lie in the labelled calendar range.
pub open spec fn days_in_range(s: Seq<Sample>) -> bool {
    forall|k: int| 0 <= k < s.len() ==> day_in_range(#[trigger] s[k].day as int)
}

/// Whether `[lo, hi)` is exactly the run of samples in the window around `q`:
/// those before `lo` are earlier, those from `hi` on are later.
pub open spec fn is_window_range(s: Seq<Sample>, q: int, width: int, lo: int, hi: int) -> bool {
    &&& 0 <= lo <= hi <= s.len()
    &&& forall|j: int| 0 <= j < lo ==> (#[trigger] s[j]).day < window_start(q, width)
    &&& forall|j: int| lo <= j < hi ==> in_window((#[trigger] s[j]).day as int, q, width)
    &&& forall|j: int| hi <= j < s.len() ==> (#[trigger] s[j]).day > window_end(q, width)
}

/// The window of the first `m` samples, given the range of the whole window.
pub proof fn lemma_window_prefix(s: Seq<Sample>, q: int, width: int, lo: int, hi: int, m: int)
    requires
        is_window_range(s, q, width, lo, hi),
        0 <= m <= s.len(),
    ensures
        window(s.take(m), q, width) == s.subrange(lo, if m < lo { lo } else if m > hi { hi } else { m }),
    decreases m,
{
    let t = s.take(m);
    if m == 0 {
        assert(window(t, q, width) =~= s.subrange(lo, lo));
    } else {
        assert(t.drop_last() =~= s.take(m - 1));
        lemma_window_prefix(s, q, width, lo, hi, m - 1);
        assert(t.last() == s[m - 1]);
        let c0 = if m - 1 < lo { lo } else if m - 1 > hi { hi } else { m - 1 };
        let c1 = if m < lo { lo } else if m > hi { hi } else { m };
        if lo <= m - 1 < hi {
            assert(in_window(s[m - 1].day as int, q, width));
            assert(s.subrange(lo, c1) =~= s.subrange(lo, c0).push(s[m - 1]));
        } else if m - 1 < lo {
            assert(s[m - 1].day < window_start(q, width));
            assert(s.subrange(lo, c1) =~= s.subrange(lo, c0));
        } else {
            assert(s[m - 1].day > window_end(q, width));
            assert(s.subrange(lo, c1) =~= s.subrange(lo, c0));
        }
    }
}

/// The window of all samples is the run `[lo, hi)`.
pub proof fn lemma_window_is_range(s: Seq<Sample>, q: int, width: int, lo: int, hi: int)
    requires
        is_window_range(s, q, width, lo, hi),
    ensures
        window(s, q, width) == s.subrange(lo, hi),
{
    lemma_window_prefix(s, q, width, lo, hi, s.len() as int);
    assert(s.take(s.len() as int) =~= s);
}

/// Finds the window of each sample in turn, for samples queried in ascending
/// order. The search for a window's first sample resumes where the previous
/// query's search ended, so a pass over `n` samples takes O(n) steps.
pub struct WindowIndexer {
    /// Where the next search for a window's first sample starts.
    pub lower_init: usize,
    /// Width of the window in days.
    pub num_days: i64,
}

impl WindowIndexer {
    /// Width at least one day.
    pub open spec fn wf(&self) -> bool {
        self.num_days >= 1
    }

    /// Whether the next search may start at `lower_init` for a query at `i`:
    /// no sample before that position lies in the window of sample `i`.
    pub open spec fn ready_for(&self, s: Seq<Sample>, i: int) -> bool {
        &&& 0 <= i < s.len()
        &&& self.lower_init <= i
        &&& forall|j: int|
            0 <= j < self.lower_init ==> (#[trigger] s[j]).day < window_start(
                s[i].day as int,
                self.num_days as int,
            )
    }

    /// An indexer for windows of `num_days` days, starting at the first sample.
    pub fn new(num_days: i64) -> (r: WindowIndexer)
        requires
            num_days >= 1,
        ensures
            r.wf(),
            r.num_days == num_days,
            r.lower_init == 0,
    {
        WindowIndexer { lower_init: 0, num_days }
    }

    /// The range `[lo, hi)` of the samples in the window around sample `i`.
    /// It always holds `i`, starts no earlier than the previous query's
    /// range, and the next search starts at `lo`.
    pub fn range(&mut self, samples: &Vec<Sample>, i: usize) -> (r: (usize, usize))
        requires
            old(self).wf(),
            samples_ascending(samples@),
            days_in_range(samples@),
            old(self).ready_for(samples@, i as int),
        ensures
            is_window_range(samples@, samples[i as int].day as int, old(self).num_days as int, r.0 as int, r.1 as int),
            r.0 <= i < r.1,
            old(self).lower_init <= r.0,
            final(self).lower_init == r.0,
            final(self).num_days == old(self).num_days,
    {
        let q = samples[i].day;
        proof {
            assert(day_in_range(samples@[i as int].day as int));
        }
        let start = q - self.num_days / 2;
        let end = q + (self.num_days - 1) / 2;
        let mut lo = self.lower_init;
        while samples[lo].day < start
            invariant
                self.lower_init <= lo <= i,
                i < samples.len(),
                samples_ascending(samples@),
                start == window_start(q as int, self.num_days as int),
                q == samples[i as int].day,
                self.wf(),
                forall|j: int| 0 <= j < lo ==> (#[trigger] samples@[j]).day < start,
            decreases i - lo,
        {
            lo = lo + 1;
        }
        self.lower_init = lo;
        let mut hi = lo;
        while hi < samples.len() && samples[hi].day <= end
            invariant
                lo <= hi <= samples.len(),
                samples_ascending(samples@),
                forall|j: int| lo <= j < hi ==> (#[trigger] samples@[j]).day <= end,
            decreases samples.len() - hi,
        {
            hi = hi + 1;
        }
        proof {
            assert forall|j: int| lo <= j < hi implies in_window(
                (#[trigger] samples@[j]).day as int,
                q as int,
                old(self).num_days as int,
            ) by {
                if j > lo {
                    assert(samples@[lo as int].day < samples@[j].day);
                }
            }
            assert forall|j: int| hi <= j < samples.len() implies (#[trigger] samples@[j]).day
                > window_end(q as int, old(self).num_days as int) by {
                assert(samples@[hi as int].day > end);
                if j > hi {
                    assert(samples@[hi as int].day < samples@[j].day);
                }
            }
            if i >= hi {
                assert(samples@[i as int].day > end);
            }
        }
        (lo, hi)
    }
}

/// After a query at `i`, the indexer is ready for any later sample: the
/// window of a later sample starts no earlier.
pub proof fn lemma_ready_for_later(x: WindowIndexer, s: Seq<Sample>, i: int, lo: int, hi: int, k: int)
    requires
        x.wf(),
        samples_ascending(s),
        is_window_range(s, s[i].day as int, x.num_days as int, lo, hi),
        lo <= i < hi,
        x.lower_init == lo,
        i < k < s.len(),
    ensures
        x.ready_for(s, k),
{
    assert(s[i].day < s[k].day);
    assert forall|j: int| 0 <= j < x.lower_init implies (#[trigger] s[j]).day < window_start(
        s[k].day as int,
        x.num_days as int,
    ) by {
        assert(s[j].day < window_start(s[i].day as int, x.num_days as int));
    }
}

/// Windows of samples taken in ascending order move forward: a later
/// sample's window starts and ends at positions no earlier than those of an
/// earlier sample's window.
pub proof fn lemma_window_ranges_advance(
    s: Seq<Sample>,
    width: int,
    i: int,
    k: int,
    lo1: int,
    hi1: int,
    lo2: int,
    hi2: int,
)
    requires
        width >= 1,
        samples_ascending(s),
        0 <= i <= k < s.len(),
        is_window_range(s, s[i].day as int, width, lo1, hi1),
        is_window_range(s, s[k].day as int, width, lo2, hi2),
    ensures
        lo1 <= lo2,
        hi1 <= hi2,
{
    if i < k {
        assert(s[i].day < s[k].day);
    }
    assert(window_start(s[i].day as int, width) <= window_start(s[k].day as int, width));
    assert(window_end(s[i].day as int, width) <= window_end(s[k].day as int, width));
    assert(window_start(s[k].day as int, width) <= window_end(s[k].day as int, width));
    assert(window_start(s[i].day as int, width) <= window_end(s[i].day as int, width));
    if lo2 < lo1 {
        assert(s[lo2].day < window_start(s[i].day as int, width));
        if lo2 < hi2 {
            assert(in_window(s[lo2].day as int, s[k].day as int, width));
        } else {
            assert(s[lo2].day > window_end(s[k].day as int, width));
        }
    }
    if hi2 < hi1 {
        assert(s[hi2].day > window_end(s[k].day as int, width));
        if lo1 <= hi2 {
            assert(in_window(s[hi2].day as int, s[i].day as int, width));
        } else {
            assert(s[hi2].day < window_start(s[i].day as int, width));
        }
    }
}

} // verus!
