//! Tests of the plain tour-length variant, including the unit-square
//! driver scenario and the double-bridge irreducibility scenario.

use ils::tsp::construction::construction;
use ils::tsp::ils;
use ils::tsp::instance::Instance;
use ils::tsp::local_search::local_search;
use ils::tsp::perturbation::perturbation;
use ils::tsp::solution::Solution;

fn square_instance() -> Instance {
    // Nodes at (0,0), (1,0), (1,1), (0,1) with Euclidean integer-rounded
    // distances: every pair, sides and diagonals alike, rounds to 1.
    let matrix = vec![
        vec![0, 1, 1, 1],
        vec![1, 0, 1, 1],
        vec![1, 1, 0, 1],
        vec![1, 1, 1, 0],
    ];
    Instance { dimension: 4, matrix }
}

fn ring_instance(n: usize) -> Instance {
    // Symmetric ring-like distances.
    let mut matrix = vec![vec![0usize; n]; n];
    for i in 0..n {
        for j in 0..n {
            if i != j {
                let d = if i < j { j - i } else { i - j };
                matrix[i][j] = d.min(n - d) * 2 + 1;
            }
        }
    }
    Instance { dimension: n, matrix }
}

fn length_of(inst: &Instance, seq: &[usize]) -> usize {
    seq.windows(2).map(|w| inst.matrix[w[0]][w[1]]).sum()
}

fn assert_is_tour(seq: &[usize], n: usize) {
    assert_eq!(seq.len(), n + 1);
    assert_eq!(seq[0], 0);
    assert_eq!(seq[n], 0);
    let mut seen = vec![false; n];
    for &v in &seq[0..n] {
        assert!(v < n);
        assert!(!seen[v]);
        seen[v] = true;
    }
}

#[test]
fn recalculate_sums_edges() {
    let inst = ring_instance(6);
    let mut s = Solution { sequence: vec![0, 2, 4, 1, 3, 5, 0], value: 0 };
    s.recalculate(&inst);
    assert_eq!(s.value, length_of(&inst, &s.sequence));
}

#[test]
fn length_construction_and_search() {
    let inst = ring_instance(9);
    for _ in 0..10 {
        let mut s = construction(&inst);
        assert_is_tour(&s.sequence, 9);
        assert_eq!(s.value, length_of(&inst, &s.sequence));
        let before = s.value;
        local_search(&mut s, &inst);
        assert!(s.value <= before);
        assert_eq!(s.value, length_of(&inst, &s.sequence));
        let s = perturbation(s, &inst);
        assert_is_tour(&s.sequence, 9);
        assert_eq!(s.value, length_of(&inst, &s.sequence));
    }
}

#[test]
fn unit_square_driver_finds_perimeter() {
    // Optimal tour cost over the unit square is 4; the driver must hit
    // it in at least 99 of 100 repeated runs.
    let inst = square_instance();
    let mut hits = 0;
    for _ in 0..100 {
        let s = ils(10, 20, &inst);
        assert_is_tour(&s.sequence, 4);
        if s.value == 4 {
            hits += 1;
        }
    }
    assert!(hits >= 99, "only {} of 100 runs reached cost 4", hits);
}

#[test]
fn double_bridge_unreachable_by_improving_two_opt() {
    // On an instance where every pairwise distance is equal, no 2-opt
    // reversal strictly improves any tour, so the set of tours reachable
    // from a given tour by strictly improving 2-opt moves is exactly
    // that tour itself.  A double bridge then reaches a tour that 2-opt
    // alone never can, and running 2-opt afterwards leaves it in place.
    let n = 8;
    let mut matrix = vec![vec![1usize; n]; n];
    for i in 0..n {
        matrix[i][i] = 0;
    }
    let inst = Instance { dimension: n, matrix };
    let mut s = Solution { sequence: vec![0, 1, 2, 3, 4, 5, 6, 7, 0], value: 0 };
    s.recalculate(&inst);
    let origin = s.sequence.clone();
    let origin_value = s.value;
    // Exhaustively confirm that no 2-opt reversal improves the tour, so
    // the improving-2-opt closure of `origin` is `{ origin }`.
    for i in 1..n - 1 {
        for j in i + 1..n {
            let mut candidate = s.duplicate();
            candidate.sequence[i..=j].reverse();
            candidate.recalculate(&inst);
            assert!(candidate.value >= origin_value);
        }
    }
    // One double bridge leaves the closure.
    s.apply_double_bridge(1, 5, 2, 2);
    s.recalculate(&inst);
    assert_is_tour(&s.sequence, n);
    assert_ne!(s.sequence, origin);
    // 2-opt alone cannot bring it anywhere (it is already 2-opt
    // optimal), so the reached tour stays outside the closure.
    local_search(&mut s, &inst);
    assert_ne!(s.sequence, origin);
}

#[test]
fn length_double_bridge_blocks_in_order() {
    let inst = ring_instance(9);
    let mut s = Solution { sequence: vec![0, 1, 2, 3, 4, 5, 6, 7, 8, 0], value: 0 };
    s.recalculate(&inst);
    s.apply_double_bridge(2, 6, 3, 2);
    assert_eq!(s.sequence, vec![0, 1, 6, 7, 5, 2, 3, 4, 8, 0]);
}

#[test]
fn length_driver_small_ring() {
    let inst = ring_instance(7);
    let s = ils(5, 10, &inst);
    assert_is_tour(&s.sequence, 7);
    assert_eq!(s.value, length_of(&inst, &s.sequence));
}
