//! What a load run measured.
//!
//! Percentiles come from the full sample set rather than a running estimate: the sample counts are
//! small enough to sort, and an approximate p99 is exactly the number that cannot be trusted when
//! chasing a latency regression.
use vstd::prelude::*;

verus! {

/// What a run measured. Times are in nanoseconds.
#[derive(Debug, PartialEq, Eq)]
pub struct Report {
    pub requests: usize,
    pub bytes: u64,
    pub elapsed: u64,
    /// Times to the first byte. Sorted, so percentiles are exact.
    pub ttfb: Vec<u64>,
}

/// Accumulates samples from concurrent workers.
#[derive(Debug, PartialEq, Eq)]
pub struct Collector {
    bytes: u64,
    samples: Vec<u64>,
}

pub open spec fn sorted(s: Seq<u64>) -> bool {
    forall|i: int, j: int| 0 <= i <= j < s.len() ==> s[i] <= s[j]
}

/// Merges two sorted sequences.
fn merge(a: &Vec<u64>, b: &Vec<u64>) -> (out: Vec<u64>)
    requires
        sorted(a@),
        sorted(b@),
    ensures
        sorted(out@),
        out@.to_multiset() == a@.to_multiset().add(b@.to_multiset()),
{
    let mut out: Vec<u64> = Vec::new();
    let mut i: usize = 0;
    let mut j: usize = 0;
    proof {
        let none = Seq::<u64>::empty();
        none.to_multiset_ensures();
        assert(a@.take(0) =~= none);
        assert(b@.take(0) =~= none);
        assert forall|x: u64| none.to_multiset().count(x) == 0 by {
            assert(!none.contains(x));
        }
        assert(out@.to_multiset() =~= a@.take(0).to_multiset().add(b@.take(0).to_multiset()));
    }
    while i < a.len() || j < b.len()
        invariant
            i <= a@.len(),
            j <= b@.len(),
            sorted(a@),
            sorted(b@),
            sorted(out@),
            out@.to_multiset() == a@.take(i as int).to_multiset().add(
                b@.take(j as int).to_multiset(),
            ),
            forall|k: int, l: int|
                0 <= k < out@.len() && i <= l < a@.len() ==> #[trigger] out@[k] <= #[trigger] a@[l],
            forall|k: int, l: int|
                0 <= k < out@.len() && j <= l < b@.len() ==> #[trigger] out@[k] <= #[trigger] b@[l],
        decreases a@.len() - i + b@.len() - j,
    {
        let from_a = j >= b.len() || (i < a.len() && a[i] <= b[j]);
        let ghost before = out@;
        proof {
            before.to_multiset_ensures();
        }
        if from_a {
            out.push(a[i]);
            proof {
                let front = a@.take(i as int);
                front.to_multiset_ensures();
                assert(a@.take(i + 1) =~= front.push(a@[i as int]));
                assert(out@.to_multiset() =~= a@.take(i + 1).to_multiset().add(
                    b@.take(j as int).to_multiset(),
                ));
            }
            i = i + 1;
        } else {
            out.push(b[j]);
            proof {
                let front = b@.take(j as int);
                front.to_multiset_ensures();
                assert(b@.take(j + 1) =~= front.push(b@[j as int]));
                assert(out@.to_multiset() =~= a@.take(i as int).to_multiset().add(
                    b@.take(j + 1).to_multiset(),
                ));
            }
            j = j + 1;
        }
    }
    proof {
        assert(a@.take(i as int) =~= a@);
        assert(b@.take(j as int) =~= b@);
    }
    out
}

/// The same samples in order.
fn sort(samples: Vec<u64>) -> (out: Vec<u64>)
    ensures
        sorted(out@),
        out@.to_multiset() == samples@.to_multiset(),
    decreases samples@.len(),
{
    let n: usize = samples.len();
    if n < 2 {
        return samples;
    }
    let mut left = samples;
    let right = left.split_off(n / 2);
    proof {
        vstd::seq_lib::lemma_multiset_commutative(left@, right@);
        assert(left@ + right@ =~= samples@);
    }
    let a = sort(left);
    let b = sort(right);
    merge(&a, &b)
}

impl Default for Collector {
    fn default() -> (out: Self)
        ensures
            out.total() == 0,
            out.times() == Seq::<u64>::empty(),
    {
        Collector { bytes: 0, samples: Vec::new() }
    }
}

impl Collector {
    /// How many bytes were received.
    pub closed spec fn total(self) -> u64 {
        self.bytes
    }

    /// The times to the first byte, in the order in which they came in.
    pub closed spec fn times(self) -> Seq<u64> {
        self.samples@
    }

    pub fn new() -> (out: Self)
        ensures
            out.total() == 0,
            out.times() == Seq::<u64>::empty(),
    {
        Collector { bytes: 0, samples: Vec::new() }
    }

    pub fn record(&mut self, bytes: u64, ttfb: u64)
        requires
            old(self).total() + bytes <= u64::MAX,
        ensures
            final(self).total() == old(self).total() + bytes,
            final(self).times() == old(self).times().push(ttfb),
    {
        self.bytes = self.bytes + bytes;
        self.samples.push(ttfb);
    }

    pub fn finish(self, elapsed: u64) -> (out: Report)
        ensures
            out.requests == self.times().len(),
            out.bytes == self.total(),
            out.elapsed == elapsed,
            sorted(out.ttfb@),
            out.ttfb@.to_multiset() == self.times().to_multiset(),
    {
        let requests: usize = self.samples.len();
        Report { requests, bytes: self.bytes, elapsed, ttfb: sort(self.samples) }
    }
}

/// The rank of a percentile among so many samples, counted from one: the smallest that covers so
/// many thousandths of them.
pub open spec fn nearest_rank(per_mille: int, count: int) -> int {
    let p = if per_mille > 1000 {
        1000
    } else {
        per_mille
    };
    let rank = (p * count + 999) / 1000;
    if rank < 1 {
        1
    } else {
        rank
    }
}

impl Report {
    /// Exact percentile from the sorted samples, by nearest rank; zero where there are none.
    ///
    /// Nearest rank rather than interpolating between indices: for 100 samples of 1 to 100 ms, p50
    /// is 50 ms and p99 is 99 ms. A p99 that returns the maximum is really p100 and hides the tail
    /// that it exists to expose.
    pub fn ttfb_percentile(&self, per_mille: u64) -> (out: u64)
        ensures
            self.ttfb@.len() == 0 ==> out == 0,
            self.ttfb@.len() > 0 ==> {
                &&& 1 <= nearest_rank(per_mille as int, self.ttfb@.len() as int)
                    <= self.ttfb@.len()
                &&& out == self.ttfb@[nearest_rank(per_mille as int, self.ttfb@.len() as int) - 1]
            },
    {
        let n: usize = self.ttfb.len();
        if n == 0 {
            return 0;
        }
        let p: u128 = if per_mille > 1000 {
            1000
        } else {
            per_mille as u128
        };
        assert(0 <= p * n <= 1000 * n) by (nonlinear_arith)
            requires
                p <= 1000,
                n >= 0,
        ;
        let rank: u128 = (p * n as u128 + 999) / 1000;
        if rank == 0 {
            self.ttfb[0]
        } else {
            self.ttfb[(rank - 1) as usize]
        }
    }
}

/// How many samples are at most so large.
pub open spec fn at_most(s: Seq<u64>, bound: u64) -> nat
    decreases s.len(),
{
    if s.len() == 0 {
        0
    } else {
        at_most(s.drop_last(), bound) + (if s.last() <= bound {
            1nat
        } else {
            0nat
        })
    }
}

proof fn lemma_at_most(s: Seq<u64>, rank: int)
    requires
        sorted(s),
        1 <= rank <= s.len(),
    ensures
        at_most(s, s[rank - 1]) >= rank,
    decreases s.len(),
{
    let bound = s[rank - 1];
    let front = s.drop_last();
    if rank < s.len() {
        lemma_at_most(front, rank);
    } else {
        if rank > 1 {
            lemma_at_most(front, rank - 1);
            lemma_at_most_grows(front, front[rank - 2], bound);
        }
    }
}

proof fn lemma_at_most_grows(s: Seq<u64>, a: u64, b: u64)
    requires
        a <= b,
    ensures
        at_most(s, a) <= at_most(s, b),
    decreases s.len(),
{
    if s.len() > 0 {
        lemma_at_most_grows(s.drop_last(), a, b);
    }
}

/// A percentile is a sample that was really taken, and at least that share of the samples is no
/// larger.
pub proof fn percentiles_cover_their_share(samples: Seq<u64>, per_mille: int)
    requires
        sorted(samples),
        samples.len() > 0,
        0 <= per_mille <= 1000,
    ensures
        ({
            let found = samples[nearest_rank(per_mille, samples.len() as int) - 1];
            &&& samples.contains(found)
            &&& at_most(samples, found) * 1000 >= per_mille * samples.len()
        }),
{
    let n = samples.len() as int;
    let rank = nearest_rank(per_mille, n);
    assert(1 <= rank <= n && rank * 1000 >= per_mille * n) by (nonlinear_arith)
        requires
            0 <= per_mille <= 1000,
            n >= 1,
            rank == (if (per_mille * n + 999) / 1000 < 1 {
                1
            } else {
                (per_mille * n + 999) / 1000
            }),
    ;
    lemma_at_most(samples, rank);
}

/// What is reported does not depend on the order in which the samples came in.
pub proof fn reports_ignore_arrival_order(a: Seq<u64>, b: Seq<u64>)
    requires
        sorted(a),
        sorted(b),
        a.to_multiset() == b.to_multiset(),
    ensures
        a == b,
{
    let leq = |x: u64, y: u64| x <= y;
    vstd::seq_lib::lemma_sorted_unique(a, b, leq);
}

/// The rank of a percentile is the smallest that covers its share: one less would not.
pub proof fn ranks_are_the_smallest_that_cover(per_mille: int, count: int)
    requires
        0 < per_mille <= 1000,
        count > 0,
    ensures
        nearest_rank(per_mille, count) * 1000 >= per_mille * count,
        (nearest_rank(per_mille, count) - 1) * 1000 < per_mille * count,
        nearest_rank(0, count) == 1,
        nearest_rank(1000 + per_mille, count) == nearest_rank(1000, count),
{
    let x = per_mille * count;
    assert(x > 0) by (nonlinear_arith)
        requires
            x == per_mille * count,
            per_mille > 0,
            count > 0,
    ;
    assert(0 * count == 0) by (nonlinear_arith);
}

} // verus!
