//! Unit tests for the subsequence-aggregate machinery.

use ils::instance::Instance;
use ils::solution::Solution;
use ils::subsequence::SubsequenceMatrix;

fn three_node_instance() -> Instance {
    // d(0,1)=2, d(1,2)=4, d(0,2)=9, asymmetric-free but distinct.
    Instance {
        dimension: 3,
        name: String::from("triangle"),
        matrix: vec![0, 2, 9, 2, 0, 4, 9, 4, 0],
    }
}

#[test]
fn single_node_aggregates() {
    let inst = three_node_instance();
    let mut m = SubsequenceMatrix::from(&inst);
    let tour: Vec<usize> = vec![0, 1, 2, 0];
    m.update(&tour, None);
    // Position 0 is the unbilled start.
    let s0 = m.get(0, 0);
    assert_eq!(s0.c, 0);
    // Any single interior position has t = c = 0 and one billable node.
    let s1 = m.get(1, 1);
    assert_eq!(s1.c, 0);
}

#[test]
fn full_tour_aggregate_is_latency_cost() {
    let inst = three_node_instance();
    let mut m = SubsequenceMatrix::from(&inst);
    let tour: Vec<usize> = vec![0, 1, 2, 0];
    m.update(&tour, None);
    // Arrivals: node 1 at 2, node 2 at 2+4=6, closing depot at 6+9=15.
    // Latency-weighted cost: 2 + 6 + 15 = 23.
    assert_eq!(m.extract_solution_cost(), 23);
}

#[test]
fn composition_matches_direct_entry() {
    let inst = three_node_instance();
    let mut m = SubsequenceMatrix::from(&inst);
    let tour: Vec<usize> = vec![0, 1, 2, 0];
    m.update(&tour, None);
    // Composing the cached halves must reproduce the cached whole, in
    // either association order.
    let left_first = m
        .concatenator_for(0, 1)
        .concatenate(2, 2)
        .concatenate(3, 3)
        .into_subsequence();
    let right_leaning = m
        .concatenator_for(0, 1)
        .concatenate(2, 3)
        .into_subsequence();
    let whole = m.get(0, 3);
    assert_eq!(left_first.c, whole.c);
    assert_eq!(right_leaning.c, whole.c);
}

#[test]
fn reversed_entries_price_reversals() {
    let inst = three_node_instance();
    let mut m = SubsequenceMatrix::from(&inst);
    let tour: Vec<usize> = vec![0, 1, 2, 0];
    m.update(&tour, None);
    // Pricing the 2-opt reversal of positions 1..=2 via the reversed
    // entry (2,1): tour becomes 0,2,1,0 with arrivals 9, 13, 15.
    let sigma = m
        .concatenator_for(0, 0)
        .concatenate(2, 1)
        .concatenate(3, 3)
        .into_subsequence();
    assert_eq!(sigma.c, 9 + 13 + 15);
}

#[test]
fn bounded_update_after_swap() {
    let inst = three_node_instance();
    let mut s = Solution::new(vec![0, 1, 2, 0], 0, &inst);
    s.update(None);
    assert_eq!(s.value, 23);
    // Swap interior positions 1 and 2 and refresh only that window.
    let a = s.sequence[1];
    let b = s.sequence[2];
    s.sequence[1] = b;
    s.sequence[2] = a;
    s.update(Some((1, 2)));
    // Tour 0,2,1,0: arrivals 9, 13, 15.
    assert_eq!(s.value, 9 + 13 + 15);
    assert_eq!(s.sequence, vec![0, 2, 1, 0]);
}

#[test]
fn getters_expose_matrix() {
    let inst = three_node_instance();
    assert_eq!(inst.distance(0, 2), 9);
    assert_eq!(inst.distance(2, 1), 4);
    assert_eq!(inst.matrix_slice().len(), 9);
    let mut m = SubsequenceMatrix::from(&inst);
    let tour: Vec<usize> = vec![0, 1, 2, 0];
    m.update(&tour, None);
    let entry = m.get_mut(1, 1);
    assert_eq!(entry.c, 0);
}
