//! End-to-end tests of the latency-objective engine: cost bookkeeping
//! stays consistent with a from-scratch replay, and every operation
//! keeps the sequence a closed depot tour.

use ils::construction::construction;
use ils::ils::ils;
use ils::ils::ils_restart;
use ils::instance::Instance;
use ils::local_search::local_search;
use ils::perturbation::perturbation;
use ils::solution::Solution;

/// A deterministic pseudo-random distance table (values 1..=50).
fn pseudo_random_instance(n: usize, seed: u64) -> Instance {
    let mut matrix = vec![0u32; n * n];
    let mut state = seed;
    for i in 0..n {
        for j in 0..n {
            if i != j {
                state = state.wrapping_mul(6364136223846793005).wrapping_add(1442695040888963407);
                matrix[i * n + j] = 1 + ((state >> 33) % 50) as u32;
            }
        }
    }
    Instance { dimension: n, name: String::from("random"), matrix }
}

/// Replay the latency-weighted accumulation from scratch.
fn replay_cost(inst: &Instance, seq: &[usize]) -> u64 {
    let mut travelled: u64 = 0;
    let mut cost: u64 = 0;
    for w in seq.windows(2) {
        travelled += u64::from(inst.distance(w[0], w[1]));
        cost += travelled;
    }
    cost
}

/// The first n positions are a permutation of 0..n, closed at the depot.
fn assert_is_tour(seq: &[usize], n: usize) {
    assert_eq!(seq.len(), n + 1);
    assert_eq!(seq[0], 0);
    assert_eq!(seq[n], 0);
    let mut seen = vec![false; n];
    for &v in &seq[0..n] {
        assert!(v < n);
        assert!(!seen[v], "node visited twice");
        seen[v] = true;
    }
}

#[test]
fn construction_builds_valid_tours() {
    for n in [1usize, 2, 3, 5, 9, 20] {
        let inst = pseudo_random_instance(n, 7);
        for _ in 0..20 {
            let s = construction(&inst);
            assert_is_tour(&s.sequence, n);
            assert_eq!(u64::from(s.value), replay_cost(&inst, &s.sequence));
        }
    }
}

#[test]
fn local_search_never_worsens_and_terminates() {
    let inst = pseudo_random_instance(12, 11);
    for _ in 0..10 {
        let mut s = construction(&inst);
        let before = s.value;
        local_search(&mut s);
        assert!(s.value <= before);
        assert_is_tour(&s.sequence, 12);
        assert_eq!(u64::from(s.value), replay_cost(&inst, &s.sequence));
    }
}

#[test]
fn perturbation_keeps_tour_and_cost_consistent() {
    let inst = pseudo_random_instance(15, 3);
    let mut s = construction(&inst);
    for _ in 0..50 {
        s = perturbation(s);
        assert_is_tour(&s.sequence, 15);
        assert_eq!(u64::from(s.value), replay_cost(&inst, &s.sequence));
    }
}

#[test]
fn double_bridge_exchanges_blocks_in_order() {
    let inst = pseudo_random_instance(8, 5);
    let mut s = Solution::new(vec![0, 1, 2, 3, 4, 5, 6, 7, 0], 0, &inst);
    s.update(None);
    // Exchange blocks [1,2] and [5,6]: expect 0 | 5 6 | 3 4 | 1 2 | 7 0.
    s.apply_double_bridge(1, 5, 2, 2);
    assert_eq!(s.sequence, vec![0, 5, 6, 3, 4, 1, 2, 7, 0]);
    assert_eq!(u64::from(s.value), replay_cost(&inst, &s.sequence));
}

#[test]
fn double_bridge_uneven_blocks() {
    let inst = pseudo_random_instance(9, 13);
    let mut s = Solution::new(vec![0, 1, 2, 3, 4, 5, 6, 7, 8, 0], 0, &inst);
    s.update(None);
    // Blocks of different sizes keep their internal order.
    s.apply_double_bridge(2, 6, 3, 2);
    assert_eq!(s.sequence, vec![0, 1, 6, 7, 5, 2, 3, 4, 8, 0]);
    assert_eq!(u64::from(s.value), replay_cost(&inst, &s.sequence));
}

#[test]
fn value_consistent_over_many_random_moves() {
    // Random tours subjected to long runs of random engine moves keep
    // `value` equal to the from-scratch replay.
    for n in [5usize, 17, 40] {
        let inst = pseudo_random_instance(n, n as u64);
        let mut s = construction(&inst);
        for round in 0..40 {
            if round % 3 == 0 {
                local_search(&mut s);
            } else {
                s = perturbation(s);
            }
            assert_is_tour(&s.sequence, n);
            assert_eq!(u64::from(s.value), replay_cost(&inst, &s.sequence));
        }
    }
}

#[test]
fn driver_returns_consistent_best() {
    let inst = pseudo_random_instance(10, 99);
    let s = ils(4, 6, &inst);
    assert_is_tour(&s.sequence, 10);
    assert_eq!(u64::from(s.value), replay_cost(&inst, &s.sequence));
    let r = ils_restart(5, &inst);
    assert_is_tour(&r.sequence, 10);
    assert_eq!(u64::from(r.value), replay_cost(&inst, &r.sequence));
}

#[test]
fn tiny_instances_work() {
    // Two nodes: the only tour is 0 -> 1 -> 0; construction and local
    // search handle it (the driver needs four nodes for perturbation).
    let inst = pseudo_random_instance(2, 1);
    let mut s = construction(&inst);
    local_search(&mut s);
    assert_is_tour(&s.sequence, 2);
    assert_eq!(u64::from(s.value), replay_cost(&inst, &s.sequence));
    // Depot alone.
    let inst1 = pseudo_random_instance(1, 1);
    let s1 = construction(&inst1);
    assert_eq!(s1.sequence, vec![0, 0]);
    assert_eq!(s1.value, 0);
}

#[test]
fn driver_on_smallest_admitted_instance() {
    // Four nodes: every perturbation is a provable no-op, and the driver
    // still returns a consistent tour.
    let inst = pseudo_random_instance(4, 21);
    let s = ils(3, 5, &inst);
    assert_is_tour(&s.sequence, 4);
    assert_eq!(u64::from(s.value), replay_cost(&inst, &s.sequence));
}
