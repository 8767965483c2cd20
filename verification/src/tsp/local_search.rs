//! Best-improvement local search for the tour-length variant: the same
//! five neighborhoods, with each candidate priced in O(1) directly from
//! the distance matrix.

use vstd::prelude::*;

use crate::instance::COST_LIMIT;
use crate::local_search::oropt_back_seq;
use crate::local_search::oropt_fwd_seq;
use crate::local_search::swap_seq;
use crate::local_search::two_opt_seq;
use crate::random_source::rand_below;
use crate::solution::lemma_exchange_multiset;
use crate::solution::lemma_same_multiset_tour;
use crate::solution::lemma_tour_values;
use crate::solution::reverse_range;
use crate::solution::rotate_left_range;
use crate::tsp::instance::Instance;
use crate::tsp::instance::lemma_dist_small;
use crate::tsp::instance::lemma_len_app;
use crate::tsp::instance::lemma_len_bounds;
use crate::tsp::instance::lemma_len_reverse;
use crate::tsp::instance::tour_len;
use crate::tsp::solution::Solution;

verus! {

/// What the best-so-far Or-opt move promises under the length
/// objective: a valid parameter pair whose relocated tour is exactly
/// `value + delta` long.
pub open spec fn oropt_best_len_ok(
    inst: Instance,
    t: Seq<usize>,
    bs: int,
    bi: int,
    bj: int,
    value: int,
    delta: int,
) -> bool {
    &&& 1 <= bi
    &&& bi + bs < t.len()
    &&& if bi < bj {
        &&& bi + bs <= bj
        &&& bj + 1 < t.len()
        &&& tour_len(inst, oropt_fwd_seq(t, bi, bs, bj)) == value + delta
    } else {
        &&& 0 <= bj
        &&& bj + 2 <= bi
        &&& tour_len(inst, oropt_back_seq(t, bi, bs, bj)) == value + delta
    }
}



/// No Swap move strictly shortens a tour of length `value`.
pub open spec fn swap_len_optimal(inst: Instance, t: Seq<usize>, value: int) -> bool {
    forall|i: int, j: int|
        1 <= i && i + 2 <= j && j + 1 < t.len() ==> tour_len(
            inst,
            #[trigger] swap_seq(t, i, j),
        ) >= value
}

/// No 2-opt move strictly shortens a tour of length `value`.
pub open spec fn two_opt_len_optimal(inst: Instance, t: Seq<usize>, value: int) -> bool {
    forall|i: int, j: int|
        1 <= i && i + 1 <= j && j + 1 < t.len() ==> tour_len(
            inst,
            #[trigger] two_opt_seq(t, i, j),
        ) >= value
}

/// No Or-opt relocation of a block of `bs` nodes strictly shortens a
/// tour of length `value`.
pub open spec fn oropt_len_optimal(inst: Instance, t: Seq<usize>, bs: int, value: int) -> bool {
    &&& forall|i: int, j: int|
        1 <= i && i + bs <= j && j + 1 < t.len() ==> tour_len(
            inst,
            #[trigger] oropt_fwd_seq(t, i, bs, j),
        ) >= value
    &&& forall|i: int, j: int|
        0 <= j && j + 2 <= i && i + bs < t.len() ==> tour_len(
            inst,
            #[trigger] oropt_back_seq(t, i, bs, j),
        ) >= value
}

/// Exact length change of a Swap move.
proof fn lemma_swap_delta(inst: Instance, t: Seq<usize>, a: int, b: int)
    requires
        1 <= a,
        a + 2 <= b,
        b + 1 < t.len(),
    ensures
        tour_len(inst, swap_seq(t, a, b)) == tour_len(inst, t) + (inst.dist(
            t[a - 1] as int,
            t[b] as int,
        ) + inst.dist(t[b] as int, t[a + 1] as int) + inst.dist(t[b - 1] as int, t[a] as int)
            + inst.dist(t[a] as int, t[b + 1] as int)) - (inst.dist(t[a - 1] as int, t[a] as int)
            + inst.dist(t[a] as int, t[a + 1] as int) + inst.dist(t[b - 1] as int, t[b] as int)
            + inst.dist(t[b] as int, t[b + 1] as int)),
{
    let len = t.len() as int;
    let pc = t.subrange(0, a);
    let ac = t.subrange(a, a + 1);
    let mc = t.subrange(a + 1, b);
    let bc = t.subrange(b, b + 1);
    let sc = t.subrange(b + 1, len);
    assert(t =~= pc + ac + mc + bc + sc);
    assert(swap_seq(t, a, b) =~= pc + bc + mc + ac + sc);
    lemma_len_app(inst, pc, ac);
    lemma_len_app(inst, pc + ac, mc);
    lemma_len_app(inst, pc + ac + mc, bc);
    lemma_len_app(inst, pc + ac + mc + bc, sc);
    lemma_len_app(inst, pc, bc);
    lemma_len_app(inst, pc + bc, mc);
    lemma_len_app(inst, pc + bc + mc, ac);
    lemma_len_app(inst, pc + bc + mc + ac, sc);
}

/// Exact length change of a 2-opt reversal on a symmetric instance.
proof fn lemma_two_opt_delta(inst: Instance, t: Seq<usize>, a: int, b: int)
    requires
        inst.symmetric(),
        1 <= a,
        a + 1 <= b,
        b + 1 < t.len(),
        forall|k: int| 0 <= k < t.len() ==> 0 <= (#[trigger] t[k]) < inst.dimension,
    ensures
        tour_len(inst, two_opt_seq(t, a, b)) == tour_len(inst, t) + (inst.dist(
            t[a - 1] as int,
            t[b] as int,
        ) + inst.dist(t[a] as int, t[b + 1] as int)) - (inst.dist(t[a - 1] as int, t[a] as int)
            + inst.dist(t[b] as int, t[b + 1] as int)),
{
    let len = t.len() as int;
    let pc = t.subrange(0, a);
    let mc = t.subrange(a, b + 1);
    let sc = t.subrange(b + 1, len);
    assert(t =~= pc + mc + sc);
    lemma_len_app(inst, pc, mc);
    lemma_len_app(inst, pc + mc, sc);
    lemma_len_app(inst, pc, mc.reverse());
    lemma_len_app(inst, pc + mc.reverse(), sc);
    lemma_len_reverse(inst, mc);
    assert(mc.reverse()[0] == t[b]);
    assert(mc.reverse().last() == t[a]);
    assert(two_opt_seq(t, a, b) == pc + mc.reverse() + sc);
}

/// Exact length change of relocating a block forward.
proof fn lemma_oropt_fwd_delta(inst: Instance, t: Seq<usize>, a: int, bs: int, j: int)
    requires
        1 <= a,
        1 <= bs,
        a + bs <= j,
        j + 1 < t.len(),
    ensures
        tour_len(inst, oropt_fwd_seq(t, a, bs, j)) == tour_len(inst, t) + (inst.dist(
            t[a - 1] as int,
            t[a + bs] as int,
        ) + inst.dist(t[j] as int, t[a] as int) + inst.dist(t[a + bs - 1] as int, t[j + 1] as int))
            - (inst.dist(t[a - 1] as int, t[a] as int) + inst.dist(
            t[a + bs - 1] as int,
            t[a + bs] as int,
        ) + inst.dist(t[j] as int, t[j + 1] as int)),
{
    let len = t.len() as int;
    let pc = t.subrange(0, a);
    let bc = t.subrange(a, a + bs);
    let mc = t.subrange(a + bs, j + 1);
    let sc = t.subrange(j + 1, len);
    assert(t =~= pc + bc + mc + sc);
    assert(oropt_fwd_seq(t, a, bs, j) =~= pc + mc + bc + sc);
    lemma_len_app(inst, pc, bc);
    lemma_len_app(inst, pc + bc, mc);
    lemma_len_app(inst, pc + bc + mc, sc);
    lemma_len_app(inst, pc, mc);
    lemma_len_app(inst, pc + mc, bc);
    lemma_len_app(inst, pc + mc + bc, sc);
}

/// Exact length change of relocating a block backward.
proof fn lemma_oropt_back_delta(inst: Instance, t: Seq<usize>, a: int, bs: int, j: int)
    requires
        1 <= bs,
        0 <= j,
        j + 2 <= a,
        a + bs < t.len(),
    ensures
        tour_len(inst, oropt_back_seq(t, a, bs, j)) == tour_len(inst, t) + (inst.dist(
            t[j] as int,
            t[a] as int,
        ) + inst.dist(t[a + bs - 1] as int, t[j + 1] as int) + inst.dist(
            t[a - 1] as int,
            t[a + bs] as int,
        )) - (inst.dist(t[j] as int, t[j + 1] as int) + inst.dist(t[a - 1] as int, t[a] as int)
            + inst.dist(t[a + bs - 1] as int, t[a + bs] as int)),
{
    let len = t.len() as int;
    let pc = t.subrange(0, j + 1);
    let mc = t.subrange(j + 1, a);
    let bc = t.subrange(a, a + bs);
    let sc = t.subrange(a + bs, len);
    assert(t =~= pc + mc + bc + sc);
    assert(oropt_back_seq(t, a, bs, j) =~= pc + bc + mc + sc);
    lemma_len_app(inst, pc, mc);
    lemma_len_app(inst, pc + mc, bc);
    lemma_len_app(inst, pc + mc + bc, sc);
    lemma_len_app(inst, pc, bc);
    lemma_len_app(inst, pc + bc, mc);
    lemma_len_app(inst, pc + bc + mc, sc);
}

/// Scan all Swap moves, apply the most improving one if any exists.
#[verifier::loop_isolation(false)]
fn best_swap(s: &mut Solution, instance: &Instance) -> (improved: bool)
    requires
        old(s).wf_for(*instance),
    ensures
        final(s).wf_for(*instance),
        improved ==> final(s).value < old(s).value,
        !improved ==> *final(s) == *old(s),
        !improved ==> swap_len_optimal(*instance, old(s).sequence@, old(s).value as int),
        improved ==> swap_len_optimal(*instance, old(s).sequence@, final(s).value as int),
        improved ==> exists|i: int, j: int|
            1 <= i && i + 2 <= j && j + 1 < old(s).sequence@.len() && final(s).sequence@
                == #[trigger] swap_seq(old(s).sequence@, i, j),
{
    let ghost t = s.sequence@;
    let ghost inst = *instance;
    let ghost n = instance.dimension as int;
    proof {
        lemma_tour_values(n, t);
        lemma_len_bounds(inst, t);
    }
    let len = s.sequence.len();
    let mut best_delta: isize = 0;
    let mut best_i: usize = 0;
    let mut best_j: usize = 0;
    let mut a: usize = 1;
    while a + 2 < len
        invariant
            1 <= a && a <= len,
            best_delta <= 0,
            best_delta < 0 ==> 1 <= best_i as int && best_i + 2 <= best_j && best_j + 1 < len
                && tour_len(inst, swap_seq(t, best_i as int, best_j as int)) == s.value
                + best_delta,
            forall|x: int, y: int|
                1 <= x < a as int && x + 2 <= y && y + 1 < len ==> tour_len(
                    inst,
                    #[trigger] swap_seq(t, x, y),
                ) >= s.value + best_delta,
        decreases len - a,
    {
        let mut b: usize = a + 2;
        while b + 1 < len
            invariant
                1 <= a && a + 2 < len,
                a + 2 <= b && b <= len,
                best_delta <= 0,
                best_delta < 0 ==> 1 <= best_i as int && best_i + 2 <= best_j && best_j + 1 < len
                    && tour_len(inst, swap_seq(t, best_i as int, best_j as int)) == s.value
                    + best_delta,
                forall|x: int, y: int|
                    1 <= x < a as int && x + 2 <= y && y + 1 < len ==> tour_len(
                        inst,
                        #[trigger] swap_seq(t, x, y),
                    ) >= s.value + best_delta,
                forall|y: int|
                    a + 2 <= y < b as int ==> tour_len(inst, #[trigger] swap_seq(t, a as int, y))
                        >= s.value + best_delta,
            decreases len - b,
        {
            let vp = s.sequence[a - 1];
            let vi = s.sequence[a];
            let vm0 = s.sequence[a + 1];
            let vml = s.sequence[b - 1];
            let vj = s.sequence[b];
            let vs0 = s.sequence[b + 1];
            let d_p_vj = dist(instance, vp, vj);
            let d_vj_m0 = dist(instance, vj, vm0);
            let d_ml_vi = dist(instance, vml, vi);
            let d_vi_s0 = dist(instance, vi, vs0);
            let d_p_vi = dist(instance, vp, vi);
            let d_vi_m0 = dist(instance, vi, vm0);
            let d_ml_vj = dist(instance, vml, vj);
            let d_vj_s0 = dist(instance, vj, vs0);
            let delta = (d_p_vj + d_vj_m0 + d_ml_vi + d_vi_s0) - (d_p_vi + d_vi_m0 + d_ml_vj
                + d_vj_s0);
            proof {
                lemma_swap_delta(inst, t, a as int, b as int);
            }
            if delta < best_delta {
                best_delta = delta;
                best_i = a;
                best_j = b;
            }
            b = b + 1;
        }
        a = a + 1;
    }
    proof {
        assert forall|x: int, y: int|
            1 <= x && x + 2 <= y && y + 1 < len implies tour_len(
            inst,
            #[trigger] swap_seq(t, x, y),
        ) >= s.value + best_delta by {
            assert(x < a as int);
        }
    }
    if best_delta < 0 {
        let ghost t2 = swap_seq(t, best_i as int, best_j as int);
        let node_a = s.sequence[best_i];
        let node_b = s.sequence[best_j];
        s.sequence.set(best_i, node_b);
        s.sequence.set(best_j, node_a);
        proof {
            let bi = best_i as int;
            let bj = best_j as int;
            assert(s.sequence@ == t2);
            let p1 = t.subrange(0, bi);
            let pa = t.subrange(bi, bi + 1);
            let p3 = t.subrange(bi + 1, bj);
            let pb = t.subrange(bj, bj + 1);
            let p5 = t.subrange(bj + 1, len as int);
            assert(t =~= p1 + pa + p3 + pb + p5);
            assert(t2 =~= p1 + pb + p3 + pa + p5);
            lemma_exchange_multiset(p1, pa, p3, pb, p5);
            lemma_same_multiset_tour(t, t2, n);
            lemma_tour_values(n, t2);
            lemma_len_bounds(inst, t2);
        }
        let new_value = (s.value as isize) + best_delta;
        s.value = new_value as usize;
        proof {
            assert(s.sequence@ == swap_seq(t, best_i as int, best_j as int));
            assert(swap_len_optimal(inst, t, s.value as int));
        }
        return true;
    }
    false
}

/// Scan all 2-opt moves, apply the most improving one if any exists.
#[verifier::loop_isolation(false)]
fn best_2opt(s: &mut Solution, instance: &Instance) -> (improved: bool)
    requires
        old(s).wf_for(*instance),
        instance.symmetric(),
    ensures
        final(s).wf_for(*instance),
        improved ==> final(s).value < old(s).value,
        !improved ==> *final(s) == *old(s),
        !improved ==> two_opt_len_optimal(*instance, old(s).sequence@, old(s).value as int),
        improved ==> two_opt_len_optimal(*instance, old(s).sequence@, final(s).value as int),
        improved ==> exists|i: int, j: int|
            1 <= i && i + 1 <= j && j + 1 < old(s).sequence@.len() && final(s).sequence@
                == #[trigger] two_opt_seq(old(s).sequence@, i, j),
{
    let ghost t = s.sequence@;
    let ghost inst = *instance;
    let ghost n = instance.dimension as int;
    proof {
        lemma_tour_values(n, t);
        lemma_len_bounds(inst, t);
    }
    let len = s.sequence.len();
    let mut best_delta: isize = 0;
    let mut best_i: usize = 0;
    let mut best_j: usize = 0;
    let mut a: usize = 1;
    while a + 2 < len
        invariant
            1 <= a && a <= len,
            best_delta <= 0,
            best_delta < 0 ==> 1 <= best_i as int && best_i < best_j && best_j + 1 < len
                && tour_len(inst, two_opt_seq(t, best_i as int, best_j as int)) == s.value
                + best_delta,
            forall|x: int, y: int|
                1 <= x < a as int && x + 1 <= y && y + 1 < len ==> tour_len(
                    inst,
                    #[trigger] two_opt_seq(t, x, y),
                ) >= s.value + best_delta,
        decreases len - a,
    {
        let mut b: usize = a + 1;
        while b + 1 < len
            invariant
                1 <= a && a + 2 < len,
                a + 1 <= b && b <= len,
                best_delta <= 0,
                best_delta < 0 ==> 1 <= best_i as int && best_i < best_j && best_j + 1 < len
                    && tour_len(inst, two_opt_seq(t, best_i as int, best_j as int)) == s.value
                    + best_delta,
                forall|x: int, y: int|
                    1 <= x < a as int && x + 1 <= y && y + 1 < len ==> tour_len(
                        inst,
                        #[trigger] two_opt_seq(t, x, y),
                    ) >= s.value + best_delta,
                forall|y: int|
                    a + 1 <= y < b as int ==> tour_len(
                        inst,
                        #[trigger] two_opt_seq(t, a as int, y),
                    ) >= s.value + best_delta,
            decreases len - b,
        {
            let vp = s.sequence[a - 1];
            let vi = s.sequence[a];
            let vj = s.sequence[b];
            let vs0 = s.sequence[b + 1];
            let delta = (dist(instance, vp, vj) + dist(instance, vi, vs0)) - (dist(instance, vp, vi)
                + dist(instance, vj, vs0));
            proof {
                lemma_two_opt_delta(inst, t, a as int, b as int);
            }
            if delta < best_delta {
                best_delta = delta;
                best_i = a;
                best_j = b;
            }
            b = b + 1;
        }
        a = a + 1;
    }
    proof {
        assert forall|x: int, y: int|
            1 <= x && x + 1 <= y && y + 1 < len implies tour_len(
            inst,
            #[trigger] two_opt_seq(t, x, y),
        ) >= s.value + best_delta by {
            assert(x < a as int);
        }
    }
    if best_delta < 0 {
        let ghost bi = best_i as int;
        let ghost bj = best_j as int;
        let ghost t2 = two_opt_seq(t, bi, bj);
        reverse_range(&mut s.sequence, best_i, best_j + 1);
        proof {
            assert(s.sequence@ =~= t2);
            let p1 = t.subrange(0, bi);
            let mid = t.subrange(bi, bj + 1);
            let p5 = t.subrange(bj + 1, len as int);
            assert(t =~= p1 + mid + p5);
            vstd::seq_lib::lemma_multiset_commutative(p1, mid);
            vstd::seq_lib::lemma_multiset_commutative(p1 + mid, p5);
            vstd::seq_lib::lemma_multiset_commutative(p1, mid.reverse());
            vstd::seq_lib::lemma_multiset_commutative(p1 + mid.reverse(), p5);
            mid.lemma_reverse_to_multiset();
            assert(t2 =~= p1 + mid.reverse() + p5);
            assert(t2.to_multiset() == t.to_multiset());
            lemma_same_multiset_tour(t, t2, n);
            lemma_tour_values(n, t2);
            lemma_len_bounds(inst, t2);
        }
        let new_value = (s.value as isize) + best_delta;
        s.value = new_value as usize;
        proof {
            assert(s.sequence@ == two_opt_seq(t, bi, bj));
            assert(two_opt_len_optimal(inst, t, s.value as int));
        }
        return true;
    }
    false
}

/// Scan all Or-opt relocations of a block of `block_size` nodes and
/// report the most improving one.
#[verifier::loop_isolation(false)]
#[verifier::rlimit(100)]
fn scan_oropt(s: &Solution, block_size: usize, instance: &Instance) -> (res: (isize, usize, usize))
    requires
        s.wf_for(*instance),
        1 <= block_size <= 3,
    ensures
        res.0 <= 0,
        res.0 < 0 ==> oropt_best_len_ok(
            *instance,
            s.sequence@,
            block_size as int,
            res.1 as int,
            res.2 as int,
            s.value as int,
            res.0 as int,
        ),
        oropt_len_optimal(*instance, s.sequence@, block_size as int, s.value + res.0),
{
    let ghost t = s.sequence@;
    let ghost inst = *instance;
    let ghost n = instance.dimension as int;
    let ghost bs = block_size as int;
    proof {
        lemma_tour_values(n, t);
        lemma_len_bounds(inst, t);
    }
    let len = s.sequence.len();
    let mut best_delta: isize = 0;
    let mut best_i: usize = 0;
    let mut best_j: usize = 0;
    let mut a: usize = 1;
    while a + block_size < len
        invariant
            1 <= a && a <= len,
            1 <= block_size <= 3,
            bs == block_size as int,
            best_delta <= 0,
            best_delta < 0 ==> oropt_best_len_ok(
                inst,
                t,
                bs,
                best_i as int,
                best_j as int,
                s.value as int,
                best_delta as int,
            ),
            forall|x: int, y: int|
                1 <= x < a as int && x + bs <= y && y + 1 < len ==> tour_len(
                    inst,
                    #[trigger] oropt_fwd_seq(t, x, bs, y),
                ) >= s.value + best_delta,
            forall|x: int, y: int|
                0 <= y && y + 2 <= x && x < a as int && x + bs < len ==> tour_len(
                    inst,
                    #[trigger] oropt_back_seq(t, x, bs, y),
                ) >= s.value + best_delta,
        decreases len - a,
    {
        let block_first = s.sequence[a];
        let block_last = s.sequence[a + block_size - 1];
        let before_block = s.sequence[a - 1];
        let after_block = s.sequence[a + block_size];
        // Relocations of the block to before its current place.
        let mut j: usize = 0;
        while j + 2 <= a
            invariant
                1 <= a && a + block_size < len,
                j <= a,
                block_first == t[a as int],
                block_last == t[a + bs - 1],
                before_block == t[a as int - 1],
                after_block == t[a + bs],
                best_delta <= 0,
                best_delta < 0 ==> oropt_best_len_ok(
                    inst,
                    t,
                    bs,
                    best_i as int,
                    best_j as int,
                    s.value as int,
                    best_delta as int,
                ),
                forall|x: int, y: int|
                    1 <= x < a as int && x + bs <= y && y + 1 < len ==> tour_len(
                        inst,
                        #[trigger] oropt_fwd_seq(t, x, bs, y),
                    ) >= s.value + best_delta,
                forall|x: int, y: int|
                    0 <= y && y + 2 <= x && x < a as int && x + bs < len ==> tour_len(
                        inst,
                        #[trigger] oropt_back_seq(t, x, bs, y),
                    ) >= s.value + best_delta,
                forall|y: int|
                    0 <= y < j as int ==> tour_len(
                        inst,
                        #[trigger] oropt_back_seq(t, a as int, bs, y),
                    ) >= s.value + best_delta,
            decreases a - j,
        {
            let vj = s.sequence[j];
            let vm0 = s.sequence[j + 1];
            let delta = (dist(instance, vj, block_first) + dist(instance, block_last, vm0) + dist(
                instance,
                before_block,
                after_block,
            )) - (dist(instance, vj, vm0) + dist(instance, before_block, block_first) + dist(
                instance,
                block_last,
                after_block,
            ));
            proof {
                lemma_oropt_back_delta(inst, t, a as int, bs, j as int);
            }
            if delta < best_delta {
                best_delta = delta;
                best_i = a;
                best_j = j;
            }
            j = j + 1;
        }
        // Relocations of the block to after its current place.
        let mut j2: usize = a + block_size;
        while j2 + 1 < len
            invariant
                1 <= a && a + block_size < len,
                a + block_size <= j2 && j2 <= len,
                block_first == t[a as int],
                block_last == t[a + bs - 1],
                before_block == t[a as int - 1],
                after_block == t[a + bs],
                best_delta <= 0,
                best_delta < 0 ==> oropt_best_len_ok(
                    inst,
                    t,
                    bs,
                    best_i as int,
                    best_j as int,
                    s.value as int,
                    best_delta as int,
                ),
                forall|x: int, y: int|
                    1 <= x < a as int && x + bs <= y && y + 1 < len ==> tour_len(
                        inst,
                        #[trigger] oropt_fwd_seq(t, x, bs, y),
                    ) >= s.value + best_delta,
                forall|x: int, y: int|
                    0 <= y && y + 2 <= x && x < a as int && x + bs < len ==> tour_len(
                        inst,
                        #[trigger] oropt_back_seq(t, x, bs, y),
                    ) >= s.value + best_delta,
                forall|y: int|
                    0 <= y && y + 2 <= a as int ==> tour_len(
                        inst,
                        #[trigger] oropt_back_seq(t, a as int, bs, y),
                    ) >= s.value + best_delta,
                forall|y: int|
                    a + block_size <= y < j2 as int ==> tour_len(
                        inst,
                        #[trigger] oropt_fwd_seq(t, a as int, bs, y),
                    ) >= s.value + best_delta,
            decreases len - j2,
        {
            let vj = s.sequence[j2];
            let vs0 = s.sequence[j2 + 1];
            let delta = (dist(instance, before_block, after_block) + dist(instance, vj, block_first)
                + dist(instance, block_last, vs0)) - (dist(instance, before_block, block_first)
                + dist(instance, block_last, after_block) + dist(instance, vj, vs0));
            proof {
                lemma_oropt_fwd_delta(inst, t, a as int, bs, j2 as int);
            }
            if delta < best_delta {
                best_delta = delta;
                best_i = a;
                best_j = j2;
            }
            j2 = j2 + 1;
        }
        a = a + 1;
    }
    proof {
        assert forall|x: int, y: int|
            1 <= x && x + bs <= y && y + 1 < len implies tour_len(
            inst,
            #[trigger] oropt_fwd_seq(t, x, bs, y),
        ) >= s.value + best_delta by {
            assert(x < a as int);
        }
        assert forall|x: int, y: int|
            0 <= y && y + 2 <= x && x + bs < len implies tour_len(
            inst,
            #[trigger] oropt_back_seq(t, x, bs, y),
        ) >= s.value + best_delta by {
            assert(x < a as int);
        }
    }
    (best_delta, best_i, best_j)
}

/// Scan all Or-opt relocations of a block of `block_size` nodes, apply
/// the most improving one if any exists.
#[verifier::loop_isolation(false)]
#[verifier::rlimit(100)]
fn best_oropt(s: &mut Solution, block_size: usize, instance: &Instance) -> (improved: bool)
    requires
        old(s).wf_for(*instance),
        1 <= block_size <= 3,
    ensures
        final(s).wf_for(*instance),
        improved ==> final(s).value < old(s).value,
        !improved ==> *final(s) == *old(s),
        !improved ==> oropt_len_optimal(
            *instance,
            old(s).sequence@,
            block_size as int,
            old(s).value as int,
        ),
        improved ==> oropt_len_optimal(
            *instance,
            old(s).sequence@,
            block_size as int,
            final(s).value as int,
        ),
        improved ==> exists|i: int, j: int|
            #![trigger oropt_fwd_seq(old(s).sequence@, i, block_size as int, j)]
            #![trigger oropt_back_seq(old(s).sequence@, i, block_size as int, j)]
            (1 <= i && i + block_size <= j && j + 1 < old(s).sequence@.len() && final(s).sequence@
                == oropt_fwd_seq(old(s).sequence@, i, block_size as int, j)) || (0 <= j && j + 2
                <= i && i + block_size < old(s).sequence@.len() && final(s).sequence@
                == oropt_back_seq(old(s).sequence@, i, block_size as int, j)),
{
    let ghost t = s.sequence@;
    let ghost inst = *instance;
    let ghost n = instance.dimension as int;
    let ghost bs = block_size as int;
    let len = s.sequence.len();
    proof {
        lemma_tour_values(n, t);
        lemma_len_bounds(inst, t);
    }
    let (best_delta, best_i, best_j) = scan_oropt(s, block_size, instance);

    if best_delta < 0 {
        let ghost bi = best_i as int;
        let ghost bj = best_j as int;
        if best_i < best_j {
            let ghost t2 = oropt_fwd_seq(t, bi, bs, bj);
            rotate_left_range(&mut s.sequence, best_i, best_j + 1, block_size);
            proof {
                assert(s.sequence@ =~= t2);
                let p1 = t.subrange(0, bi);
                let blk = t.subrange(bi, bi + bs);
                let mid = t.subrange(bi + bs, bj + 1);
                let p5 = t.subrange(bj + 1, len as int);
                let emp = Seq::<usize>::empty();
                assert(t =~= p1 + blk + emp + mid + p5);
                assert(t2 =~= p1 + mid + emp + blk + p5);
                lemma_exchange_multiset(p1, blk, emp, mid, p5);
                lemma_same_multiset_tour(t, t2, n);
                lemma_tour_values(n, t2);
                lemma_len_bounds(inst, t2);
            }
        } else {
            let ghost t2 = oropt_back_seq(t, bi, bs, bj);
            rotate_left_range(
                &mut s.sequence,
                best_j + 1,
                best_i + block_size,
                best_i - (best_j + 1),
            );
            proof {
                assert(s.sequence@ =~= t2);
                let p1 = t.subrange(0, bj + 1);
                let mid = t.subrange(bj + 1, bi);
                let blk = t.subrange(bi, bi + bs);
                let p5 = t.subrange(bi + bs, len as int);
                let emp = Seq::<usize>::empty();
                assert(t =~= p1 + mid + emp + blk + p5);
                assert(t2 =~= p1 + blk + emp + mid + p5);
                lemma_exchange_multiset(p1, mid, emp, blk, p5);
                lemma_same_multiset_tour(t, t2, n);
                lemma_tour_values(n, t2);
                lemma_len_bounds(inst, t2);
            }
        }
        let new_value = (s.value as isize) + best_delta;
        s.value = new_value as usize;
        proof {
            if bi < bj {
                assert(s.sequence@ == oropt_fwd_seq(t, bi, bs, bj));
            } else {
                assert(s.sequence@ == oropt_back_seq(t, bi, bs, bj));
            }
            assert(oropt_len_optimal(inst, t, bs, s.value as int));
        }
        return true;
    }
    false
}

/// One bounds-checked distance lookup.
#[verifier::loop_isolation(false)]
fn dist(instance: &Instance, i: usize, j: usize) -> (d: isize)
    requires
        instance.wf(),
        instance.fits(),
        i < instance.dimension,
        j < instance.dimension,
    ensures
        d == instance.dist(i as int, j as int),
        0 <= d && 9 * d <= COST_LIMIT,
{
    proof {
        lemma_dist_small(*instance, i as int, j as int);
    }
    let row = &instance.matrix[i];
    row[j] as isize
}

/// The five neighborhoods the search alternates between.
#[derive(Clone, Copy)]
enum Searches {
    Swap,
    TwoOpt,
    OrOpt(usize),
}

/// An Or-opt entry carries a block size the scans accept.
spec fn search_ok(x: Searches) -> bool {
    match x {
        Searches::OrOpt(b) => 1 <= b <= 3,
        _ => true,
    }
}

/// Any element other than the removed one survives a `swap_remove`.
proof fn lemma_swap_remove_keeps<A>(s: Seq<A>, i: int, x: A)
    requires
        0 <= i < s.len(),
        s.contains(x),
        x != s[i],
    ensures
        s.update(i, s.last()).drop_last().contains(x),
{
    let k = choose|k: int| 0 <= k < s.len() && s[k] == x;
    let r = s.update(i, s.last()).drop_last();
    if k < s.len() - 1 && k != i {
        assert(r[k] == x);
    } else {
        assert(r[i] == x);
    }
}

/// The full active-neighborhood list.
fn all_searches() -> (r: Vec<Searches>)
    ensures
        r@.len() == 5,
        forall|k: int| 0 <= k < r@.len() ==> search_ok(#[trigger] r@[k]),
        r@[0] == Searches::Swap,
        r@[1] == Searches::TwoOpt,
        r@[2] == Searches::OrOpt(1usize),
        r@[3] == Searches::OrOpt(2usize),
        r@[4] == Searches::OrOpt(3usize),
{
    let mut r: Vec<Searches> = Vec::new();
    r.push(Searches::Swap);
    r.push(Searches::TwoOpt);
    r.push(Searches::OrOpt(1));
    r.push(Searches::OrOpt(2));
    r.push(Searches::OrOpt(3));
    r
}

/// Hill-climb `s` to a local optimum under the tour-length objective,
/// exactly as the aggregate-based search does: a random active
/// neighborhood is scanned in full, its best improving move applied,
/// and the active set shrinks only on failure, so the search
/// terminates.
pub fn local_search(s: &mut Solution, instance: &Instance)
    requires
        old(s).wf_for(*instance),
        instance.symmetric(),
    ensures
        final(s).wf_for(*instance),
        final(s).value <= old(s).value,
        swap_len_optimal(*instance, final(s).sequence@, final(s).value as int),
        two_opt_len_optimal(*instance, final(s).sequence@, final(s).value as int),
        forall|b: int|
            1 <= b <= 3 ==> oropt_len_optimal(
                *instance,
                final(s).sequence@,
                b,
                final(s).value as int,
            ),
{
    let mut nl = all_searches();
    while nl.len() > 0
        invariant
            s.wf_for(*instance),
            instance.symmetric(),
            s.value <= old(s).value,
            forall|k: int| 0 <= k < nl@.len() ==> search_ok(#[trigger] nl@[k]),
            !nl@.contains(Searches::Swap) ==> swap_len_optimal(
                *instance,
                s.sequence@,
                s.value as int,
            ),
            !nl@.contains(Searches::TwoOpt) ==> two_opt_len_optimal(
                *instance,
                s.sequence@,
                s.value as int,
            ),
            forall|b: int|
                1 <= b <= 3 && !nl@.contains(Searches::OrOpt(b as usize)) ==> oropt_len_optimal(
                    *instance,
                    s.sequence@,
                    b,
                    s.value as int,
                ),
        decreases s.value, nl.len(),
    {
        let chosen = rand_below(nl.len());
        let search_type = nl[chosen];
        let improved = match search_type {
            Searches::Swap => best_swap(s, instance),
            Searches::TwoOpt => best_2opt(s, instance),
            Searches::OrOpt(block_size) => best_oropt(s, block_size, instance),
        };
        if improved {
            nl = all_searches();
            proof {
                assert(nl@.contains(Searches::Swap)) by {
                    assert(nl@[0] == Searches::Swap);
                }
                assert(nl@.contains(Searches::TwoOpt)) by {
                    assert(nl@[1] == Searches::TwoOpt);
                }
                assert forall|b: int| 1 <= b <= 3 implies #[trigger] nl@.contains(
                    Searches::OrOpt(b as usize),
                ) by {
                    assert(nl@[1 + b] == Searches::OrOpt(b as usize));
                }
            }
        } else {
            let ghost old_nl = nl@;
            nl.swap_remove(chosen);
            proof {
                let scanned = old_nl[chosen as int];
                if !nl@.contains(Searches::Swap) && scanned != Searches::Swap {
                    if old_nl.contains(Searches::Swap) {
                        lemma_swap_remove_keeps(old_nl, chosen as int, Searches::Swap);
                    }
                }
                if !nl@.contains(Searches::TwoOpt) && scanned != Searches::TwoOpt {
                    if old_nl.contains(Searches::TwoOpt) {
                        lemma_swap_remove_keeps(old_nl, chosen as int, Searches::TwoOpt);
                    }
                }
                assert forall|b: int|
                    1 <= b <= 3 && !nl@.contains(
                        Searches::OrOpt(b as usize),
                    ) implies oropt_len_optimal(*instance, s.sequence@, b, s.value as int) by {
                    if scanned != Searches::OrOpt(b as usize) {
                        if old_nl.contains(Searches::OrOpt(b as usize)) {
                            lemma_swap_remove_keeps(
                                old_nl,
                                chosen as int,
                                Searches::OrOpt(b as usize),
                            );
                        }
                    }
                }
            }
        }
    }
}

} // verus!
