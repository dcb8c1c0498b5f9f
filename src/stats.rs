//! A histogram of hop distances with its running totals.
use vstd::prelude::*;

verus! {

/// Number of entries at index `d` of histogram `h`; zero outside it.
pub open spec fn count_at(h: Seq<int>, d: int) -> int {
    if 0 <= d < h.len() {
        h[d]
    } else {
        0
    }
}

/// Sum of all counts of `h`.
pub open spec fn hist_total(h: Seq<int>) -> int
    decreases h.len(),
{
    if h.len() == 0 {
        0
    } else {
        hist_total(h.drop_last()) + h.last()
    }
}

/// Sum of every index of `h` weighted by its count.
pub open spec fn hist_sum(h: Seq<int>) -> int
    decreases h.len(),
{
    if h.len() == 0 {
        0
    } else {
        hist_sum(h.drop_last()) + (h.len() - 1) * h.last()
    }
}

/// Sum of the counts at the distances `0..=t` of `h`.
pub open spec fn hist_within(h: Seq<int>, t: int) -> int
    decreases t + 1,
{
    if t < 0 {
        0
    } else {
        hist_within(h, t - 1) + count_at(h, t)
    }
}

/// No count is negative.
pub open spec fn non_negative(h: Seq<int>) -> bool {
    forall|i: int| 0 <= i < h.len() ==> #[trigger] h[i] >= 0
}

/// Largest index with a positive count, or zero where there is none.
pub open spec fn is_hist_max(h: Seq<int>, m: int) -> bool {
    &&& m >= 0
    &&& (hist_total(h) == 0 ==> m == 0)
    &&& (hist_total(h) > 0 ==> count_at(h, m) > 0)
    &&& forall|e: int| e > m ==> #[trigger] count_at(h, e) == 0
}

/// Appending a count adds it to the total, weighted by its index to the sum.
pub proof fn lemma_total_push(h: Seq<int>, x: int)
    ensures
        hist_total(h.push(x)) == hist_total(h) + x,
        hist_sum(h.push(x)) == hist_sum(h) + h.len() * x,
{
    assert(h.push(x).drop_last() =~= h);
}

/// Replacing one count changes the total and the weighted sum by the difference.
pub proof fn lemma_total_update(h: Seq<int>, i: int, x: int)
    requires
        0 <= i < h.len(),
    ensures
        hist_total(h.update(i, x)) == hist_total(h) - h[i] + x,
        hist_sum(h.update(i, x)) == hist_sum(h) + i * (x - h[i]),
    decreases h.len(),
{
    let u = h.update(i, x);
    if i == h.len() - 1 {
        assert(u.drop_last() =~= h.drop_last());
        assert(hist_sum(u) == hist_sum(h) + i * (x - h[i])) by (nonlinear_arith)
            requires
                hist_sum(u) == hist_sum(h.drop_last()) + i * x,
                hist_sum(h) == hist_sum(h.drop_last()) + i * h[i],
        ;
    } else {
        assert(u.drop_last() =~= h.drop_last().update(i, x));
        lemma_total_update(h.drop_last(), i, x);
        assert(hist_sum(u) == hist_sum(h) + i * (x - h[i])) by (nonlinear_arith)
            requires
                hist_sum(u) == hist_sum(u.drop_last()) + (h.len() - 1) * h.last(),
                hist_sum(h) == hist_sum(h.drop_last()) + (h.len() - 1) * h.last(),
                hist_sum(u.drop_last()) == hist_sum(h.drop_last()) + i * (x - h[i]),
        ;
    }
}

/// In a histogram without negative counts, each prefix sums to at most the whole.
pub proof fn lemma_take_le_total(h: Seq<int>, i: int)
    requires
        non_negative(h),
        0 <= i <= h.len(),
    ensures
        hist_total(h.take(i)) <= hist_total(h),
        forall|j: int| 0 <= j < i ==> #[trigger] h[j] <= hist_total(h),
    decreases h.len(),
{
    if i == h.len() {
        assert(h.take(i) =~= h);
        if h.len() > 0 {
            lemma_take_le_total(h.drop_last(), i - 1);
            assert(h.drop_last().take(i - 1) =~= h.drop_last());
            assert forall|j: int| 0 <= j < i implies #[trigger] h[j] <= hist_total(h) by {
                if j < i - 1 {
                    assert(h.drop_last()[j] == h[j]);
                }
            }
        }
    } else {
        lemma_take_le_total(h.drop_last(), i);
        assert(h.drop_last().take(i) =~= h.take(i));
        assert forall|j: int| 0 <= j < i implies #[trigger] h[j] <= hist_total(h) by {
            assert(h.drop_last()[j] == h[j]);
        }
    }
}

/// Counts that are never negative have a total that is not negative.
pub proof fn lemma_total_non_negative(h: Seq<int>)
    requires
        non_negative(h),
    ensures
        hist_total(h) >= 0,
    decreases h.len(),
{
    if h.len() > 0 {
        lemma_total_non_negative(h.drop_last());
    }
}

/// Counts that are all zero from index `i` on add nothing to the prefix before it.
pub proof fn lemma_zero_tail(h: Seq<int>, i: int)
    requires
        0 <= i <= h.len(),
        forall|j: int| i <= j < h.len() ==> #[trigger] h[j] == 0,
    ensures
        hist_total(h.take(i)) == hist_total(h),
    decreases h.len(),
{
    if i == h.len() {
        assert(h.take(i) =~= h);
    } else {
        lemma_zero_tail(h.drop_last(), i);
        assert(h.drop_last().take(i) =~= h.take(i));
    }
}

/// The counts up to `t` are those of the prefix of length `t + 1`.
pub proof fn lemma_within_take(h: Seq<int>, t: int)
    requires
        -1 <= t < h.len(),
    ensures
        hist_within(h, t) == hist_total(h.take(t + 1)),
    decreases t + 1,
{
    if t < 0 {
        assert(h.take(0) =~= Seq::<int>::empty());
    } else {
        lemma_within_take(h, t - 1);
        lemma_take_step(h, t);
    }
}

/// Past the end of the histogram, the counts up to `t` are all of them.
pub proof fn lemma_within_past_end(h: Seq<int>, t: int)
    requires
        t >= h.len() - 1,
    ensures
        hist_within(h, t) == hist_total(h),
    decreases t + 1,
{
    if t > h.len() - 1 {
        lemma_within_past_end(h, t - 1);
    } else {
        lemma_within_take(h, t);
        assert(h.take(t + 1) =~= h);
    }
}

/// A prefix one entry longer adds that entry to the total.
pub proof fn lemma_take_step(h: Seq<int>, i: int)
    requires
        0 <= i < h.len(),
    ensures
        hist_total(h.take(i + 1)) == hist_total(h.take(i)) + h[i],
{
    assert(h.take(i + 1).drop_last() =~= h.take(i));
}

/// Counts of recorded hop distances by value, with their number, their sum and
/// their maximum kept as running totals.
pub struct DistanceStats {
    counts: Vec<u64>,
    total: u64,
    sum: u64,
    max: usize,
}

impl View for DistanceStats {
    type V = Seq<int>;

    /// The histogram: entry `d` is how many times distance `d` was recorded.
    closed spec fn view(&self) -> Seq<int> {
        self.counts@.map_values(|c: u64| c as int)
    }
}

impl DistanceStats {
    /// The running totals agree with the histogram, whose last entry is positive.
    pub closed spec fn wf(&self) -> bool {
        &&& self.total as int == hist_total(self@)
        &&& self.sum as int == hist_sum(self@)
        &&& self.counts.len() > 0 ==> self.counts[self.counts.len() - 1] > 0 && self.max
            == self.counts.len() - 1
        &&& self.counts.len() == 0 ==> self.max == 0
    }

    /// Nothing recorded.
    pub fn new() -> (r: DistanceStats)
        ensures
            r.wf(),
            r@ == Seq::<int>::empty(),
    {
        let r = DistanceStats { counts: Vec::new(), total: 0, sum: 0, max: 0 };
        assert(r@ =~= Seq::<int>::empty());
        r
    }

    /// Records one pair at hop distance `d`.
    pub fn record(&mut self, d: usize)
        requires
            old(self).wf(),
            d >= 1,
            hist_total(old(self)@) < u64::MAX,
            hist_sum(old(self)@) + d <= u64::MAX,
        ensures
            final(self).wf(),
            forall|e: int| #[trigger] count_at(final(self)@, e) == count_at(old(self)@, e) + if e == d {
                1int
            } else {
                0int
            },
            hist_total(final(self)@) == hist_total(old(self)@) + 1,
            hist_sum(final(self)@) == hist_sum(old(self)@) + d,
    {
        let ghost h0 = self@;
        proof {
            lemma_take_le_total(h0, h0.len() as int);
        }
        while self.counts.len() <= d
            invariant
                self.total == old(self).total,
                self.sum == old(self).sum,
                self.max == old(self).max,
                h0.len() <= d ==> self.counts.len() <= d + 1,
                h0.len() > d ==> self.counts.len() == h0.len(),
                self.counts@.len() >= h0.len(),
                hist_total(self@) == hist_total(h0),
                hist_sum(self@) == hist_sum(h0),
                forall|e: int| #[trigger] count_at(self@, e) == count_at(h0, e),
                forall|i: int| 0 <= i < h0.len() ==> self.counts[i] == h0[i],
                forall|i: int| h0.len() <= i < self.counts.len() ==> self.counts[i] == 0,
            decreases d + 1 - self.counts.len(),
        {
            let ghost before = self@;
            proof {
                lemma_total_push(before, 0);
            }
            self.counts.push(0);
            assert(self@ =~= before.push(0));
        }
        let c = self.counts[d];
        assert(self@[d as int] == c);
        assert(c <= hist_total(h0)) by {
            if d < h0.len() {
                assert(h0[d as int] <= hist_total(h0));
            }
        }
        let ghost before = self@;
        proof {
            lemma_total_update(before, d as int, c + 1);
        }
        self.counts.set(d, c + 1);
        assert(self@ =~= before.update(d as int, c + 1));
        self.total = self.total + 1;
        self.sum = self.sum + d as u64;
        if d > self.max {
            self.max = d;
        }
    }

    /// The histogram holds no negative count.
    pub proof fn lemma_view_non_negative(&self)
        ensures
            non_negative(self@),
    {
    }

    /// Number of pairs recorded.
    pub fn total(&self) -> (r: u64)
        requires
            self.wf(),
        ensures
            r == hist_total(self@),
    {
        self.total
    }

    /// Sum of the distances recorded.
    pub fn sum(&self) -> (r: u64)
        requires
            self.wf(),
        ensures
            r == hist_sum(self@),
    {
        self.sum
    }

    /// Number of pairs recorded at distance `d`.
    pub fn count(&self, d: usize) -> (r: u64)
        requires
            self.wf(),
        ensures
            r == count_at(self@, d as int),
    {
        if d < self.counts.len() {
            self.counts[d]
        } else {
            0
        }
    }

    /// Largest distance recorded; zero when nothing was.
    pub fn max_distance(&self) -> (r: usize)
        requires
            self.wf(),
        ensures
            is_hist_max(self@, r as int),
    {
        let ghost h = self@;
        proof {
            lemma_take_le_total(h, h.len() as int);
            if h.len() > 0 {
                assert(h[h.len() - 1] > 0);
            }
        }
        self.max
    }

    /// Number of pairs recorded at a distance of at most `threshold`.
    pub fn count_within(&self, threshold: usize) -> (r: u64)
        requires
            self.wf(),
        ensures
            r == hist_within(self@, threshold as int),
    {
        let ghost h = self@;
        let end = if threshold < self.counts.len() {
            threshold + 1
        } else {
            self.counts.len()
        };
        let mut acc: u64 = 0;
        let mut i: usize = 0;
        proof {
            lemma_take_le_total(h, h.len() as int);
        }
        while i < end
            invariant
                self.wf(),
                h == self@,
                end <= h.len(),
                i <= end,
                acc == hist_within(h, i - 1),
                non_negative(h),
                hist_total(h) <= u64::MAX,
            decreases end - i,
        {
            proof {
                lemma_within_take(h, i as int);
                lemma_take_le_total(h, i as int + 1);
            }
            acc = acc + self.counts[i];
            i = i + 1;
        }
        proof {
            if threshold >= h.len() {
                lemma_within_past_end(h, h.len() - 1);
                lemma_within_past_end(h, threshold as int);
            }
        }
        acc
    }
}

/// The number of pairs within a threshold never falls as the threshold grows.
pub proof fn lemma_within_monotone(stats: &DistanceStats, t1: int, t2: int)
    requires
        t1 <= t2,
    ensures
        hist_within(stats@, t1) <= hist_within(stats@, t2),
    decreases t2 - t1,
{
    if t1 < t2 {
        lemma_within_monotone(stats, t1, t2 - 1);
        if t2 >= 0 {
            stats.lemma_view_non_negative();
            assert(count_at(stats@, t2) >= 0);
        }
    }
}

/// Every recorded pair lies within the largest recorded distance.
pub proof fn lemma_within_max_is_total(stats: &DistanceStats, m: int)
    requires
        is_hist_max(stats@, m),
    ensures
        hist_within(stats@, m) == hist_total(stats@),
{
    let h = stats@;
    if m + 1 <= h.len() {
        assert forall|j: int| m + 1 <= j < h.len() implies #[trigger] h[j] == 0 by {
            assert(count_at(h, j) == 0);
        }
        lemma_zero_tail(h, m + 1);
        lemma_within_take(h, m);
    } else {
        lemma_within_past_end(h, m);
    }
}

} // verus!
