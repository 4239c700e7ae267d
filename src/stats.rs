use vstd::prelude::*;

verus! {

/// The files whose size is at most `ceiling` and above the previous bucket's
/// ceiling: how many, and their total size.
#[derive(PartialEq, Eq, Structural, Debug, Clone, Copy)]
pub struct Bucket {
    pub count: u32,
    pub sum: u64,
    pub ceiling: u64,
}

/// Sizes sorted into buckets by ceiling.
#[derive(Debug)]
pub struct Histogram {
    buckets: Vec<Bucket>,
}

/// The number of samples in `b`.
pub open spec fn total_count(b: Seq<Bucket>) -> nat
    decreases b.len(),
{
    if b.len() == 0 {
        0
    } else {
        total_count(b.drop_last()) + b.last().count as nat
    }
}

/// The sum of the samples in `b`.
pub open spec fn total_sum(b: Seq<Bucket>) -> nat
    decreases b.len(),
{
    if b.len() == 0 {
        0
    } else {
        total_sum(b.drop_last()) + b.last().sum as nat
    }
}

/// Empty buckets, one for each limit other than `u64::MAX`, in order.
pub open spec fn bounded_buckets(limits: Seq<u64>) -> Seq<Bucket>
    decreases limits.len(),
{
    if limits.len() == 0 {
        seq![]
    } else {
        bounded_buckets(limits.drop_last()) + if limits.last() == u64::MAX {
            seq![]
        } else {
            seq![Bucket { count: 0, sum: 0, ceiling: limits.last() }]
        }
    }
}

/// The buckets of a new histogram: those of `limits`, then an empty one that
/// takes every size.
pub open spec fn initial_buckets(limits: Seq<u64>) -> Seq<Bucket> {
    bounded_buckets(limits).push(Bucket { count: 0, sum: 0, ceiling: u64::MAX })
}

/// Buckets that can take any sample, and whose totals fit their counters.
pub open spec fn buckets_wf(b: Seq<Bucket>) -> bool {
    &&& b.len() > 0
    &&& b.last().ceiling == u64::MAX
    &&& total_count(b) <= u32::MAX
    &&& total_sum(b) <= u64::MAX
}

/// `i` is the first bucket of `b` whose ceiling is at least `sample`.
pub open spec fn first_fit(b: Seq<Bucket>, sample: u64, i: int) -> bool {
    &&& 0 <= i < b.len()
    &&& sample <= b[i].ceiling
    &&& forall|j: int| 0 <= j < i ==> sample > #[trigger] b[j].ceiling
}

/// `b` with `sample` counted in bucket `i`.
pub open spec fn counted_in(b: Seq<Bucket>, sample: u64, i: int) -> Seq<Bucket> {
    b.update(
        i,
        Bucket { count: (b[i].count + 1) as u32, sum: (b[i].sum + sample) as u64, ceiling: b[i].ceiling },
    )
}

proof fn lemma_prefix_totals(b: Seq<Bucket>, i: int)
    requires
        0 <= i <= b.len(),
    ensures
        total_count(b.take(i)) <= total_count(b),
        total_sum(b.take(i)) <= total_sum(b),
    decreases b.len() - i,
{
    if i < b.len() {
        lemma_prefix_totals(b, i + 1);
        assert(b.take(i + 1).drop_last() =~= b.take(i));
    } else {
        assert(b.take(i) =~= b);
    }
}

proof fn lemma_update_totals(b: Seq<Bucket>, i: int, x: Bucket)
    requires
        0 <= i < b.len(),
    ensures
        total_count(b.update(i, x)) == total_count(b) - b[i].count + x.count,
        total_sum(b.update(i, x)) == total_sum(b) - b[i].sum + x.sum,
    decreases b.len(),
{
    if i < b.len() - 1 {
        lemma_update_totals(b.drop_last(), i, x);
        assert(b.update(i, x).drop_last() =~= b.drop_last().update(i, x));
    } else {
        assert(b.update(i, x).drop_last() =~= b.drop_last());
    }
}

impl View for Histogram {
    type V = Seq<Bucket>;

    closed spec fn view(&self) -> Seq<Bucket> {
        self.buckets@
    }
}

impl Histogram {
    /// A histogram with an empty bucket for each limit, in the order given,
    /// and a last one for sizes above them all, up to `u64::MAX`.
    pub fn new(limits: &[u64]) -> (r: Self)
        ensures
            r@ == initial_buckets(limits@),
            buckets_wf(r@),
            total_count(r@) == 0,
            total_sum(r@) == 0,
    {
        let mut buckets: Vec<Bucket> = Vec::new();
        let mut i: usize = 0;
        while i < limits.len()
            invariant
                i <= limits.len(),
                buckets@ == bounded_buckets(limits@.take(i as int)),
                total_count(buckets@) == 0,
                total_sum(buckets@) == 0,
            decreases limits.len() - i,
        {
            let limit = limits[i];
            let ghost before = buckets@;
            if limit != u64::MAX {
                buckets.push(Bucket { count: 0, sum: 0, ceiling: limit });
                assert(buckets@.drop_last() =~= before);
            }
            assert(limits@.take(i + 1).drop_last() =~= limits@.take(i as int));
            i = i + 1;
            assert(buckets@ =~= bounded_buckets(limits@.take(i as int)));
        }
        assert(limits@.take(limits.len() as int) =~= limits@);
        let ghost before = buckets@;
        buckets.push(Bucket { count: 0, sum: 0, ceiling: u64::MAX });
        assert(buckets@.drop_last() =~= before);
        Histogram { buckets }
    }

    /// Counts `sample` in the first bucket whose ceiling is at least `sample`.
    pub fn add(&mut self, sample: u64) -> (r: &mut Self)
        requires
            buckets_wf(old(self)@),
            total_count(old(self)@) < u32::MAX,
            total_sum(old(self)@) + sample <= u64::MAX,
        ensures
            exists|i: int|
                first_fit(old(self)@, sample, i) && r@ == counted_in(old(self)@, sample, i),
            buckets_wf(r@),
            total_count(r@) == total_count(old(self)@) + 1,
            total_sum(r@) == total_sum(old(self)@) + sample,
            *final(self) == *final(r),
    {
        let ghost b = self.buckets@;
        let mut i: usize = 0;
        while i < self.buckets.len()
            invariant
                self.buckets@ == b,
                buckets_wf(b),
                0 <= i <= b.len(),
                forall|j: int| 0 <= j < i ==> sample > #[trigger] b[j].ceiling,
            ensures
                self.buckets@ == b,
                0 <= i <= b.len(),
                forall|j: int| 0 <= j < i ==> sample > #[trigger] b[j].ceiling,
                i < b.len() ==> sample <= b[i as int].ceiling,
            decreases b.len() - i,
        {
            if sample <= self.buckets[i].ceiling {
                break;
            }
            i = i + 1;
        }
        if i == self.buckets.len() {
            assert(sample > b[b.len() - 1].ceiling);
        }
        let old_bucket = self.buckets[i];
        proof {
            lemma_prefix_totals(b, i as int + 1);
            assert(b.take(i as int + 1).drop_last() =~= b.take(i as int));
        }
        let new_bucket = Bucket {
            count: old_bucket.count + 1,
            sum: old_bucket.sum + sample,
            ceiling: old_bucket.ceiling,
        };
        self.buckets.set(i, new_bucket);
        proof {
            lemma_update_totals(b, i as int, new_bucket);
            assert(first_fit(b, sample, i as int));
        }
        self
    }

    /// The number of samples counted.
    pub fn count(&self) -> (r: u32)
        requires
            buckets_wf(self@),
        ensures
            r == total_count(self@),
    {
        let mut total: u32 = 0;
        let mut i: usize = 0;
        while i < self.buckets.len()
            invariant
                buckets_wf(self@),
                i <= self@.len(),
                total == total_count(self@.take(i as int)),
            decreases self@.len() - i,
        {
            proof {
                lemma_prefix_totals(self@, i as int + 1);
                assert(self@.take(i as int + 1).drop_last() =~= self@.take(i as int));
            }
            total = total + self.buckets[i].count;
            i = i + 1;
        }
        assert(self@.take(i as int) =~= self@);
        total
    }

    /// The sum of the samples counted.
    pub fn sum(&self) -> (r: u64)
        requires
            buckets_wf(self@),
        ensures
            r == total_sum(self@),
    {
        let mut total: u64 = 0;
        let mut i: usize = 0;
        while i < self.buckets.len()
            invariant
                buckets_wf(self@),
                i <= self@.len(),
                total == total_sum(self@.take(i as int)),
            decreases self@.len() - i,
        {
            proof {
                lemma_prefix_totals(self@, i as int + 1);
                assert(self@.take(i as int + 1).drop_last() =~= self@.take(i as int));
            }
            total = total + self.buckets[i].sum;
            i = i + 1;
        }
        assert(self@.take(i as int) =~= self@);
        total
    }

    /// The buckets, in order.
    pub fn buckets(&self) -> (r: &[Bucket])
        ensures
            r@ == self@,
    {
        self.buckets.as_slice()
    }

    /// The bucket with the most samples; of several such, the last. `None`
    /// only where there are no buckets.
    pub fn mode(&self) -> (r: Option<&Bucket>)
        ensures
            r is None <==> self@.len() == 0,
            r matches Some(m) ==> exists|i: int|
                {
                    &&& 0 <= i < self@.len()
                    &&& *m == self@[i]
                    &&& forall|j: int| 0 <= j < self@.len() ==> #[trigger] self@[j].count <= m.count
                    &&& forall|j: int| i < j < self@.len() ==> #[trigger] self@[j].count < m.count
                },
    {
        if self.buckets.len() == 0 {
            return None;
        }
        let mut best: usize = 0;
        let mut i: usize = 1;
        while i < self.buckets.len()
            invariant
                0 <= best < i <= self@.len(),
                forall|j: int| 0 <= j < i ==> #[trigger] self@[j].count <= self@[best as int].count,
                forall|j: int| best < j < i ==> #[trigger] self@[j].count < self@[best as int].count,
            decreases self@.len() - i,
        {
            if self.buckets[i].count >= self.buckets[best].count {
                best = i;
            }
            i = i + 1;
        }
        Some(&self.buckets[best])
    }
}

} // verus!
