use felt_miner::address::{derive_addr, Config};
use felt_miner::estimate::{count_in_window, sum_counts, window_step};
use felt_miner::felt::Felt;
use felt_miner::probe::Prober;
use felt_miner::tracker::MinimumTracker;

fn felt_of(v: u128) -> Felt {
    let mut bytes = [0u8; 32];
    bytes[16..].copy_from_slice(&v.to_be_bytes());
    Felt { bytes }
}

#[test]
fn step_keeps_only_improvements() {
    let c = Config::standard();
    let mut p = Prober::new(&c);
    assert_eq!(p.min, c.initial_min);
    let first = p.step(&c, 3).expect("any address is below the largest element");
    assert_eq!(first, derive_addr(&c, 3));
    assert_eq!(p.step(&c, 3), None);
    assert_eq!(p.min, first);
}

#[test]
fn find_min_reports_decreasing_addresses() {
    let c = Config::standard();
    let mut p = Prober::new(&c);
    let found = p.find_min(&c, 64);
    assert!(!found.is_empty());
    assert!(found.len() <= 64);
    for (salt, addr) in &found {
        assert_eq!(*addr, derive_addr(&c, *salt));
    }
    for w in found.windows(2) {
        assert!(w[1].1.lt(&w[0].1));
    }
    assert_eq!(p.min, found.last().unwrap().1);
}

#[test]
fn tracker_reports_strictly_decreasing() {
    let c = Config::standard();
    let mut t = MinimumTracker::new(&c);
    let stream: Vec<(u128, Felt)> = [9u128, 12, 4, 4, 7, 1, 3]
        .iter()
        .map(|&v| (v, felt_of(v)))
        .collect();
    let reports = t.record(&stream);
    let salts: Vec<u128> = reports.iter().map(|r| r.0).collect();
    assert_eq!(salts, vec![9, 4, 1]);
    assert_eq!(t.min, felt_of(1));
}

#[test]
fn tracker_offer_rejects_stale_candidate() {
    let c = Config::standard();
    let mut t = MinimumTracker::new(&c);
    assert!(t.offer(&felt_of(10)));
    assert!(!t.offer(&felt_of(20)));
    assert!(!t.offer(&felt_of(10)));
    assert!(t.offer(&felt_of(2)));
    assert_eq!(t.min, felt_of(2));
}

#[test]
fn tracker_minimum_independent_of_interleaving() {
    let c = Config::standard();
    let producer_a: Vec<(u128, Felt)> = [50u128, 30, 8].iter().map(|&v| (v, felt_of(v))).collect();
    let producer_b: Vec<(u128, Felt)> = [40u128, 6, 2].iter().map(|&v| (v, felt_of(v))).collect();
    let producer_c: Vec<(u128, Felt)> = [70u128, 5].iter().map(|&v| (v, felt_of(v))).collect();
    let orders: [[usize; 8]; 3] = [
        [0, 0, 0, 1, 1, 1, 2, 2],
        [2, 1, 0, 2, 1, 0, 1, 0],
        [1, 1, 1, 2, 2, 0, 0, 0],
    ];
    for order in orders {
        let streams = [&producer_a, &producer_b, &producer_c];
        let mut next = [0usize; 3];
        let mut merged = Vec::new();
        for p in order {
            merged.push(streams[p][next[p]]);
            next[p] += 1;
        }
        let mut t = MinimumTracker::new(&c);
        t.record(&merged);
        assert_eq!(t.min, felt_of(2));
    }
}

#[test]
fn sum_counts_exact_and_overflow() {
    assert_eq!(sum_counts(&vec![]), Some(0));
    assert_eq!(sum_counts(&vec![3, 4, 5]), Some(12));
    assert_eq!(sum_counts(&vec![u128::MAX, 0]), Some(u128::MAX));
    assert_eq!(sum_counts(&vec![u128::MAX, 1]), None);
}

#[test]
fn count_in_window_zero_and_positive() {
    let c = Config::standard();
    assert_eq!(count_in_window(&c, 0), 0);
    assert!(count_in_window(&c, 50) > 0);
}

#[test]
fn probe_salts_returns_every_improvement_in_order() {
    let c = Config::standard();
    let salts: Vec<u128> = (0u128..40).collect();
    let mut p = Prober::new(&c);
    let found = p.probe_salts(&c, &salts);
    let mut expected = Vec::new();
    let mut best = c.initial_min;
    for &s in &salts {
        let d = derive_addr(&c, s);
        if d.lt(&best) {
            best = d;
            expected.push((s, d));
        }
    }
    assert_eq!(found, expected);
    assert_eq!(p.min, best);
    assert_eq!(found[0].0, 0);
}

#[test]
fn probe_salts_skips_repeated_salt() {
    let c = Config::standard();
    let mut p = Prober::new(&c);
    let found = p.probe_salts(&c, &vec![11, 11, 11]);
    assert_eq!(found, vec![(11, derive_addr(&c, 11))]);
    let again = p.probe_salts(&c, &vec![11]);
    assert!(again.is_empty());
}

#[test]
fn probe_then_track_keeps_worker_minimum() {
    let c = Config::standard();
    let mut a = Prober::new(&c);
    let mut b = Prober::new(&c);
    let fa = a.probe_salts(&c, &(0u128..30).collect());
    let fb = b.probe_salts(&c, &(100u128..130).collect());
    let expected = if a.min.lt(&b.min) { a.min } else { b.min };
    let mut merged: Vec<(u128, Felt)> = fb.clone();
    merged.extend(fa.iter().copied());
    let mut t = MinimumTracker::new(&c);
    t.record(&merged);
    assert_eq!(t.min, expected);
}

#[test]
fn window_step_decisions() {
    assert_eq!(window_step(0, 0, 0), None);
    assert_eq!(window_step(0, 5, 1000), Some(1));
    assert_eq!(window_step(41, 999, 1000), Some(42));
    assert_eq!(window_step(41, 1000, 1000), None);
    assert_eq!(window_step(u128::MAX, 0, 1000), None);
}
