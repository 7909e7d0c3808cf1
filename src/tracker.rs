//! The shared best result: candidates from every worker are compared with
//! the true current minimum, and only genuine improvements are reported.

use crate::address::Config;
use crate::felt::Felt;
use vstd::prelude::*;

verus! {

/// The smallest of `init` and the elements of `s`, taken in order.
pub open spec fn fold_min(init: nat, s: Seq<nat>) -> nat
    decreases s.len(),
{
    if s.len() == 0 {
        init
    } else {
        let m = fold_min(init, s.drop_last());
        if s.last() < m {
            s.last()
        } else {
            m
        }
    }
}

/// The addresses of a sequence of candidates, as integers.
pub open spec fn values(s: Seq<(u128, Felt)>) -> Seq<nat> {
    s.map_values(|p: (u128, Felt)| p.1.value())
}

/// The candidates of `s` that, when they arrive, are below `init` and below
/// every candidate before them: the new records, in order.
pub open spec fn records(init: nat, s: Seq<(u128, Felt)>) -> Seq<(u128, Felt)>
    decreases s.len(),
{
    if s.len() == 0 {
        Seq::empty()
    } else {
        let r = records(init, s.drop_last());
        if s.last().1.value() < fold_min(init, values(s.drop_last())) {
            r.push(s.last())
        } else {
            r
        }
    }
}

/// The global minimum.
pub struct MinimumTracker {
    pub min: Felt,
}

impl MinimumTracker {
    /// Starts from the largest element.
    pub fn new(c: &Config) -> (r: MinimumTracker)
        ensures
            r.min == c.initial_min,
    {
        MinimumTracker { min: c.initial_min }
    }

    /// Compares a candidate with the current minimum and takes it where it is
    /// smaller; the result says whether it was a new record.
    pub fn offer(&mut self, candidate: &Felt) -> (r: bool)
        ensures
            r == (candidate.value() < old(self).min.value()),
            r ==> final(self).min == *candidate,
            !r ==> final(self).min == old(self).min,
    {
        if candidate.lt(&self.min) {
            self.min = *candidate;
            true
        } else {
            false
        }
    }

    /// Offers each candidate in turn and returns those that set a new record.
    pub fn record(&mut self, found: &Vec<(u128, Felt)>) -> (reports: Vec<(u128, Felt)>)
        ensures
            final(self).min.value() == fold_min(old(self).min.value(), values(found@)),
            reports@ == records(old(self).min.value(), found@),
            reports.len() == 0 ==> final(self).min == old(self).min,
            reports.len() > 0 ==> final(self).min == reports@.last().1,
    {
        let ghost start = self.min;
        let mut reports: Vec<(u128, Felt)> = Vec::new();
        let mut k: usize = 0;
        while k < found.len()
            invariant
                k <= found.len(),
                self.min.value() == fold_min(start.value(), values(found@.subrange(0, k as int))),
                reports@ == records(start.value(), found@.subrange(0, k as int)),
                reports.len() == 0 ==> self.min == start,
                reports.len() > 0 ==> self.min == reports@.last().1,
            decreases found.len() - k,
        {
            let item = found[k];
            proof {
                let t = found@.subrange(0, k + 1);
                assert(t.drop_last() =~= found@.subrange(0, k as int));
                let s = values(t);
                assert(s.drop_last() =~= values(found@.subrange(0, k as int)));
                assert(s.last() == item.1.value());
                assert(t.last() == item);
                assert(found@[k as int] == item);
            }
            if self.offer(&item.1) {
                reports.push(item);
            }
            k += 1;
        }
        proof {
            assert(found@.subrange(0, found.len() as int) =~= found@);
        }
        reports
    }
}

/// `fold_min` is at most `init` and every element, and is `init` or one of them.
pub proof fn lemma_fold_min_is_min(init: nat, s: Seq<nat>)
    ensures
        fold_min(init, s) <= init,
        forall|i: int| 0 <= i < s.len() ==> fold_min(init, s) <= #[trigger] s[i],
        fold_min(init, s) == init || s.contains(fold_min(init, s)),
    decreases s.len(),
{
    if s.len() > 0 {
        let d = s.drop_last();
        lemma_fold_min_is_min(init, d);
        assert forall|i: int| 0 <= i < s.len() implies fold_min(init, s) <= #[trigger] s[i] by {
            if i < s.len() - 1 {
                assert(s[i] == d[i]);
            }
        }
        if fold_min(init, s) != init && fold_min(init, s) != s.last() {
            let k = choose|k: int| 0 <= k < d.len() && d[k] == fold_min(init, d);
            assert(s[k] == d[k]);
        }
    }
}

/// Each report is one of the candidates, below the starting minimum and below
/// every report before it: the reported minimum strictly decreases.
pub proof fn lemma_records_strictly_decrease(init: nat, s: Seq<(u128, Felt)>)
    ensures
        forall|i: int| 0 <= i < records(init, s).len() ==> s.contains(#[trigger] records(init, s)[i]),
        forall|i: int|
            0 <= i < records(init, s).len() ==> (#[trigger] records(init, s)[i]).1.value() < init,
        forall|i: int, j: int|
            0 <= i < j < records(init, s).len() ==> (#[trigger] records(init, s)[j]).1.value() < (
            #[trigger] records(init, s)[i]).1.value(),
    decreases s.len(),
{
    if s.len() > 0 {
        let d = s.drop_last();
        let r = records(init, d);
        lemma_records_strictly_decrease(init, d);
        lemma_fold_min_is_min(init, values(d));
        let rs = records(init, s);
        assert forall|i: int| 0 <= i < r.len() implies s.contains(#[trigger] r[i]) by {
            let k = choose|k: int| 0 <= k < d.len() && d[k] == r[i];
            assert(s[k] == d[k]);
        }
        if s.last().1.value() < fold_min(init, values(d)) {
            assert(s.contains(s[s.len() - 1]));
            assert forall|i: int| 0 <= i < r.len() implies s.last().1.value() < (
            #[trigger] r[i]).1.value() by {
                let k = choose|k: int| 0 <= k < d.len() && d[k] == r[i];
                assert(values(d)[k] == d[k].1.value());
            }
        }
    }
}

/// Whatever the order in which the same candidates reach the tracker, the
/// minimum it ends on is the same: the smallest of the start and all of them.
pub proof fn lemma_min_order_independent(init: nat, a: Seq<(u128, Felt)>, b: Seq<(u128, Felt)>)
    requires
        a.to_multiset() == b.to_multiset(),
    ensures
        fold_min(init, values(a)) == fold_min(init, values(b)),
{
    assert forall|p: (u128, Felt)| b.contains(p) <==> a.contains(p) by {
        vstd::seq_lib::to_multiset_contains(a, p);
        vstd::seq_lib::to_multiset_contains(b, p);
    }
    lemma_min_below_all(init, a, b);
    lemma_min_below_all(init, b, a);
}

/// Where every candidate of `b` is among those of `a`, the minimum over `a`
/// is at most that over `b`.
proof fn lemma_min_below_all(init: nat, a: Seq<(u128, Felt)>, b: Seq<(u128, Felt)>)
    requires
        forall|p: (u128, Felt)| b.contains(p) ==> a.contains(p),
    ensures
        fold_min(init, values(a)) <= fold_min(init, values(b)),
{
    let va = values(a);
    let vb = values(b);
    lemma_fold_min_is_min(init, va);
    lemma_fold_min_is_min(init, vb);
    let mb = fold_min(init, vb);
    if mb != init {
        let j = choose|j: int| 0 <= j < vb.len() && vb[j] == mb;
        assert(b.contains(b[j]));
        let i = choose|i: int| 0 <= i < a.len() && a[i] == b[j];
        assert(va[i] == mb);
    }
}

/// Folding over two sequences in turn folds over their concatenation.
pub proof fn lemma_fold_min_concat(init: nat, a: Seq<nat>, b: Seq<nat>)
    ensures
        fold_min(init, a + b) == fold_min(fold_min(init, a), b),
    decreases b.len(),
{
    if b.len() == 0 {
        assert(a + b =~= a);
    } else {
        lemma_fold_min_concat(init, a, b.drop_last());
        assert((a + b).drop_last() =~= a + b.drop_last());
        assert((a + b).last() == b.last());
    }
}

/// Starting lower only lowers the result to the start: for `m <= init`,
/// `fold_min(m, s)` is the smaller of `m` and `fold_min(init, s)`.
pub proof fn lemma_fold_min_lower_start(m: nat, init: nat, s: Seq<nat>)
    requires
        m <= init,
    ensures
        fold_min(m, s) == (if m <= fold_min(init, s) {
            m
        } else {
            fold_min(init, s)
        }),
    decreases s.len(),
{
    if s.len() > 0 {
        lemma_fold_min_lower_start(m, init, s.drop_last());
    }
}

/// Over a strictly decreasing sequence below `init`, the fold ends on the last
/// element (on `init` where the sequence is empty).
pub proof fn lemma_fold_min_of_decreasing(init: nat, s: Seq<nat>)
    requires
        forall|i: int| 0 <= i < s.len() ==> #[trigger] s[i] < init,
        forall|i: int, j: int| 0 <= i < j < s.len() ==> #[trigger] s[j] < #[trigger] s[i],
    ensures
        s.len() == 0 ==> fold_min(init, s) == init,
        s.len() > 0 ==> fold_min(init, s) == s.last(),
    decreases s.len(),
{
    if s.len() > 0 {
        let d = s.drop_last();
        lemma_fold_min_of_decreasing(init, d);
        if d.len() > 0 {
            assert(s[s.len() - 1] < s[s.len() - 2]);
        }
    }
}

} // verus!
