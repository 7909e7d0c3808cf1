//! One worker of the search: random salts, their addresses, and the smallest
//! address this worker has seen.

use crate::address::{derive_addr, derived, Config};
use crate::felt::{be_nat, Felt};
use crate::tracker::{fold_min, values};
use vstd::prelude::*;

verus! {

/// Relies on rand::random: a salt drawn uniformly from the thread-local
/// generator; nothing is known of its value.
#[verifier::external_body]
pub(crate) fn random_salt() -> u128 {
    rand::random::<u128>()
}

/// The addresses that a sequence of salts derives, as integers.
pub open spec fn derived_values(c: Config, salts: Seq<u128>) -> Seq<nat> {
    salts.map_values(|s: u128| be_nat(derived(c, s)))
}

/// The salts of `salts`, with their addresses, whose address is below `init`
/// and below the address of every salt before them: the improvements, in order.
pub open spec fn improvements(c: Config, init: nat, salts: Seq<u128>) -> Seq<(u128, Seq<u8>)>
    decreases salts.len(),
{
    if salts.len() == 0 {
        Seq::empty()
    } else {
        let r = improvements(c, init, salts.drop_last());
        let d = derived(c, salts.last());
        if be_nat(d) < fold_min(init, derived_values(c, salts.drop_last())) {
            r.push((salts.last(), d))
        } else {
            r
        }
    }
}

/// Pairs of a salt and an element, with the element as its bytes.
pub open spec fn pairs(found: Seq<(u128, Felt)>) -> Seq<(u128, Seq<u8>)> {
    found.map_values(|p: (u128, Felt)| (p.0, p.1@))
}

/// A worker's running minimum.
pub struct Prober {
    pub min: Felt,
}

impl Prober {
    /// A worker that has seen nothing yet: its bound is the largest element.
    pub fn new(c: &Config) -> (r: Prober)
        ensures
            r.min == c.initial_min,
    {
        Prober { min: c.initial_min }
    }

    /// Tries one salt: where its address is below the running minimum, that
    /// address becomes the minimum and is returned.
    pub fn step(&mut self, c: &Config, salt: u128) -> (r: Option<Felt>)
        requires
            c.wf(),
        ensures
            be_nat(derived(*c, salt)) < old(self).min.value() ==> (r matches Some(f) && f@
                == derived(*c, salt) && final(self).min == f),
            be_nat(derived(*c, salt)) >= old(self).min.value() ==> (r.is_none()
                && final(self).min == old(self).min),
    {
        let candidate = derive_addr(c, salt);
        if candidate.lt(&self.min) {
            self.min = candidate;
            Some(candidate)
        } else {
            None
        }
    }

    /// Tries the salts in order and returns each one whose address beat the
    /// running minimum at its turn, with that address; the minimum ends on the
    /// least of its old value and every address derived.
    pub fn probe_salts(&mut self, c: &Config, salts: &Vec<u128>) -> (found: Vec<(u128, Felt)>)
        requires
            c.wf(),
        ensures
            pairs(found@) == improvements(*c, old(self).min.value(), salts@),
            final(self).min.value() == fold_min(old(self).min.value(), derived_values(*c, salts@)),
            found.len() == 0 ==> final(self).min == old(self).min,
            found.len() > 0 ==> final(self).min == found@.last().1,
    {
        let ghost start = self.min;
        let mut found: Vec<(u128, Felt)> = Vec::new();
        let mut k: usize = 0;
        while k < salts.len()
            invariant
                k <= salts.len(),
                c.wf(),
                pairs(found@) == improvements(*c, start.value(), salts@.subrange(0, k as int)),
                self.min.value() == fold_min(
                    start.value(),
                    derived_values(*c, salts@.subrange(0, k as int)),
                ),
                found.len() == 0 ==> self.min == start,
                found.len() > 0 ==> self.min == found@.last().1,
            decreases salts.len() - k,
        {
            let salt = salts[k];
            let ghost before = found@;
            proof {
                let t = salts@.subrange(0, k + 1);
                assert(t.drop_last() =~= salts@.subrange(0, k as int));
                assert(t.last() == salt);
                assert(derived_values(*c, t).drop_last() =~= derived_values(
                    *c,
                    salts@.subrange(0, k as int),
                ));
                assert(derived_values(*c, t).last() == be_nat(derived(*c, salt)));
            }
            match self.step(c, salt) {
                Some(f) => {
                    found.push((salt, f));
                    proof {
                        assert(pairs(found@) =~= pairs(before).push((salt, f@)));
                    }
                },
                None => {},
            }
            k += 1;
        }
        proof {
            assert(salts@.subrange(0, salts.len() as int) =~= salts@);
        }
        found
    }

    /// Draws `rounds` salts uniformly at random and tries them in order: the
    /// result holds every drawn salt whose address beat the running minimum at
    /// its turn, and the minimum ends on the least address drawn (or stays).
    pub fn find_min(&mut self, c: &Config, rounds: u64) -> (found: Vec<(u128, Felt)>)
        requires
            c.wf(),
        ensures
            exists|salts: Seq<u128>|
                {
                    &&& salts.len() == rounds
                    &&& pairs(found@) == improvements(*c, old(self).min.value(), salts)
                    &&& final(self).min.value() == fold_min(
                        old(self).min.value(),
                        derived_values(*c, salts),
                    )
                },
            found.len() == 0 ==> final(self).min == old(self).min,
            found.len() > 0 ==> final(self).min == found@.last().1,
    {
        let mut salts: Vec<u128> = Vec::new();
        let mut k: u64 = 0;
        while k < rounds
            invariant
                k <= rounds,
                salts.len() == k,
            decreases rounds - k,
        {
            salts.push(random_salt());
            k += 1;
        }
        self.probe_salts(c, &salts)
    }
}

/// Each improvement is one of the salts with its address, below `init` and
/// below every improvement before it; where any address is below `init`, the
/// last improvement is the least address of all.
pub proof fn lemma_improvements_decrease(c: Config, init: nat, salts: Seq<u128>)
    ensures
        forall|i: int|
            0 <= i < improvements(c, init, salts).len() ==> {
                let p = #[trigger] improvements(c, init, salts)[i];
                &&& salts.contains(p.0)
                &&& p.1 == derived(c, p.0)
                &&& be_nat(p.1) < init
            },
        forall|i: int, j: int|
            0 <= i < j < improvements(c, init, salts).len() ==> be_nat(
                (#[trigger] improvements(c, init, salts)[j]).1,
            ) < be_nat((#[trigger] improvements(c, init, salts)[i]).1),
        improvements(c, init, salts).len() == 0 ==> fold_min(init, derived_values(c, salts))
            == init,
        improvements(c, init, salts).len() > 0 ==> be_nat(improvements(c, init, salts).last().1)
            == fold_min(init, derived_values(c, salts)),
    decreases salts.len(),
{
    if salts.len() > 0 {
        let d = salts.drop_last();
        let r = improvements(c, init, d);
        let vs = derived_values(c, salts);
        let vd = derived_values(c, d);
        assert(vs.drop_last() =~= vd);
        lemma_improvements_decrease(c, init, d);
        crate::tracker::lemma_fold_min_is_min(init, vd);
        assert forall|i: int| 0 <= i < r.len() implies salts.contains((#[trigger] r[i]).0) by {
            let k = choose|k: int| 0 <= k < d.len() && d[k] == r[i].0;
            assert(salts[k] == d[k]);
        }
        assert(salts.contains(salts[salts.len() - 1]));
        if r.len() > 0 {
            assert forall|i: int| 0 <= i < r.len() implies fold_min(init, vd) <= be_nat(
                (#[trigger] r[i]).1,
            ) by {
                if i < r.len() - 1 {
                    assert(be_nat(r[r.len() - 1].1) < be_nat(r[i].1));
                }
            }
        }
    }
}

/// A worker that sends its improvements holds nothing back: the minimum over
/// what it sends is the minimum over every address it derived.
pub proof fn lemma_improvements_keep_minimum(
    c: Config,
    init: nat,
    salts: Seq<u128>,
    found: Seq<(u128, Felt)>,
)
    requires
        pairs(found) == improvements(c, init, salts),
    ensures
        fold_min(init, values(found)) == fold_min(init, derived_values(c, salts)),
{
    lemma_improvements_decrease(c, init, salts);
    let v = values(found);
    let im = improvements(c, init, salts);
    assert forall|i: int| 0 <= i < v.len() implies v[i] == be_nat(#[trigger] im[i].1) by {
        assert(pairs(found)[i] == im[i]);
    }
    assert forall|i: int| 0 <= i < v.len() implies #[trigger] v[i] < init by {
        assert(v[i] == be_nat(im[i].1));
    }
    assert forall|i: int, j: int| 0 <= i < j < v.len() implies #[trigger] v[j] < #[trigger] v[i] by {
        assert(v[i] == be_nat(im[i].1));
        assert(v[j] == be_nat(im[j].1));
    }
    crate::tracker::lemma_fold_min_of_decreasing(init, v);
    if v.len() > 0 {
        assert(v.last() == be_nat(im[im.len() - 1].1));
    }
}

/// Two workers start from the same bound and send their improvements; in
/// whatever interleaving those reach the tracker, it ends on the least of the
/// bound and every address that either worker derived.
pub proof fn lemma_delivered_minimum(
    c: Config,
    init: nat,
    salts1: Seq<u128>,
    salts2: Seq<u128>,
    found1: Seq<(u128, Felt)>,
    found2: Seq<(u128, Felt)>,
    delivered: Seq<(u128, Felt)>,
)
    requires
        pairs(found1) == improvements(c, init, salts1),
        pairs(found2) == improvements(c, init, salts2),
        delivered.to_multiset() == (found1 + found2).to_multiset(),
    ensures
        fold_min(init, values(delivered)) == fold_min(init, derived_values(c, salts1 + salts2)),
{
    crate::tracker::lemma_min_order_independent(init, delivered, found1 + found2);
    assert(values(found1 + found2) =~= values(found1) + values(found2));
    assert(derived_values(c, salts1 + salts2) =~= derived_values(c, salts1) + derived_values(
        c,
        salts2,
    ));
    lemma_improvements_keep_minimum(c, init, salts1, found1);
    lemma_improvements_keep_minimum(c, init, salts2, found2);
    crate::tracker::lemma_fold_min_concat(init, values(found1), values(found2));
    crate::tracker::lemma_fold_min_concat(
        init,
        derived_values(c, salts1),
        derived_values(c, salts2),
    );
    let m = fold_min(init, derived_values(c, salts1));
    crate::tracker::lemma_fold_min_is_min(init, derived_values(c, salts1));
    crate::tracker::lemma_fold_min_lower_start(m, init, values(found2));
    crate::tracker::lemma_fold_min_lower_start(m, init, derived_values(c, salts2));
}

} // verus!
