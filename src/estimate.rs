//! Throughput measurement: how many derivations one worker completes in a
//! window of wall-clock time, and the total over all workers.

use crate::address::{derive_addr, Config};
use crate::probe::random_salt;
use vstd::prelude::*;

verus! {

#[verifier::external_type_specification]
#[verifier::external_body]
pub struct ExInstant(std::time::Instant);

/// Relies on std's Instant::now: a reading of the monotonic clock.
#[verifier::external_body]
fn clock_now() -> std::time::Instant {
    std::time::Instant::now()
}

/// Relies on std's Instant::elapsed: the time since `start`, in whole milliseconds.
#[verifier::external_body]
fn elapsed_millis(start: &std::time::Instant) -> u128 {
    start.elapsed().as_millis()
}

/// One decision of the measurement: with `n` derivations done and
/// `elapsed_ms` milliseconds gone, stop (`None`) once the window has passed or
/// the count cannot grow, else go on to `n + 1`.
pub fn window_step(n: u128, elapsed_ms: u128, window_ms: u128) -> (r: Option<u128>)
    ensures
        r == (if elapsed_ms >= window_ms || n == u128::MAX {
            None::<u128>
        } else {
            Some((n + 1) as u128)
        }),
{
    if elapsed_ms >= window_ms || n == u128::MAX {
        None
    } else {
        Some(n + 1)
    }
}

/// Derives the addresses of the salts 0, 1, 2, ... until `window_ms`
/// milliseconds have passed, and returns how many it derived; each turn is
/// decided by `window_step` on a fresh clock reading.
pub fn count_in_window(c: &Config, window_ms: u128) -> (n: u128)
    requires
        c.wf(),
    ensures
        window_ms == 0 ==> n == 0,
{
    let start = clock_now();
    let mut n: u128 = 0;
    loop
        invariant
            c.wf(),
            window_ms == 0 ==> n == 0,
        decreases u128::MAX - n,
    {
        let elapsed = elapsed_millis(&start);
        match window_step(n, elapsed, window_ms) {
            None => {
                break;
            },
            Some(next) => {
                let _draw: u128 = random_salt();
                let _addr = derive_addr(c, n);
                n = next;
            },
        }
    }
    n
}

/// The sum of a sequence of counts.
pub open spec fn total(s: Seq<u128>) -> nat
    decreases s.len(),
{
    if s.len() == 0 {
        0
    } else {
        total(s.drop_last()) + s.last() as nat
    }
}

/// The sum of the workers' counts; `None` where it does not fit in a `u128`.
pub fn sum_counts(counts: &Vec<u128>) -> (r: Option<u128>)
    ensures
        r matches Some(t) ==> t == total(counts@),
        r.is_none() <==> total(counts@) > u128::MAX,
{
    let mut sum: u128 = 0;
    let mut k: usize = 0;
    while k < counts.len()
        invariant
            k <= counts.len(),
            sum == total(counts@.subrange(0, k as int)),
        decreases counts.len() - k,
    {
        proof {
            assert(counts@.subrange(0, k + 1).drop_last() =~= counts@.subrange(0, k as int));
        }
        match sum.checked_add(counts[k]) {
            Some(s) => {
                sum = s;
            },
            None => {
                proof {
                    lemma_total_prefix(counts@, k + 1);
                }
                return None;
            },
        }
        k += 1;
    }
    proof {
        assert(counts@.subrange(0, counts.len() as int) =~= counts@);
    }
    Some(sum)
}

/// A prefix sums to no more than the whole.
proof fn lemma_total_prefix(s: Seq<u128>, k: int)
    requires
        0 <= k <= s.len(),
    ensures
        total(s.subrange(0, k)) <= total(s),
    decreases s.len() - k,
{
    if k < s.len() {
        lemma_total_prefix(s, k + 1);
        assert(s.subrange(0, k + 1).drop_last() =~= s.subrange(0, k));
    } else {
        assert(s.subrange(0, k) =~= s);
    }
}

} // verus!
