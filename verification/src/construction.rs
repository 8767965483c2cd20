//! Semi-greedy construction: repeatedly append one of the cheapest
//! unplaced nodes, chosen uniformly among the best `ceil(alpha * count)`
//! candidates for a random quality threshold `alpha`.

use vstd::prelude::*;

use crate::instance::Instance;
use crate::random_source::rand_below;
use crate::solution::Solution;
use crate::solution::all_nodes;
use crate::solution::is_tour;
use crate::solution::lemma_swap_remove_multiset;
use vstd::multiset::Multiset;
use vstd::seq_lib::lemma_multiset_commutative;
use vstd::seq_lib::to_multiset_build;
use vstd::seq_lib::to_multiset_contains;

verus! {

/// Granularity of the random quality threshold `alpha`: it is drawn as
/// a multiple of `1 / ALPHA_RESOLUTION` from `(0, 1]`.
pub const ALPHA_RESOLUTION: usize = 1000;

/// One candidate insertion: which entry of the candidate list, and what
/// it would add to the travel length.
#[derive(Clone, Copy)]
struct InsertionInfo {
    cl_index: usize,
    value: u32,
}

/// Candidates sorted by rising insertion cost.
spec fn sorted_by_value(s: Seq<InsertionInfo>) -> bool {
    forall|a: int, b: int| 0 <= a < b < s.len() ==> s[a].value <= s[b].value
}

/// The cost of appending each unplaced node after the tour's current
/// last node.
fn calculate_insertion_cost(s: &Solution, cl: &Vec<usize>, instance: &Instance) -> (r: Vec<
    InsertionInfo,
>)
    requires
        instance.wf(),
        s.sequence@.len() >= 1,
        s.sequence@.last() < instance.dimension,
        forall|k: int| 0 <= k < cl@.len() ==> (#[trigger] cl@[k]) < instance.dimension,
    ensures
        r@.len() == cl@.len(),
        forall|k: int| 0 <= k < r@.len() ==> (#[trigger] r@[k]).cl_index == k,
        forall|k: int|
            0 <= k < r@.len() ==> (#[trigger] r@[k]).value == instance.dist(
                s.sequence@.last() as int,
                cl@[k] as int,
            ),
{
    let mut insertion_cost: Vec<InsertionInfo> = Vec::new();
    let last_sequence = s.sequence[s.sequence.len() - 1];
    let mut i: usize = 0;
    while i < cl.len()
        invariant
            i <= cl@.len(),
            insertion_cost@.len() == i,
            forall|k: int| 0 <= k < i as int ==> (#[trigger] insertion_cost@[k]).cl_index == k,
            forall|k: int|
                0 <= k < i as int ==> (#[trigger] insertion_cost@[k]).value == instance.dist(
                    s.sequence@.last() as int,
                    cl@[k] as int,
                ),
            last_sequence == s.sequence@.last(),
            last_sequence < instance.dimension,
            instance.wf(),
            forall|k: int| 0 <= k < cl@.len() ==> (#[trigger] cl@[k]) < instance.dimension,
        decreases cl@.len() - i,
    {
        insertion_cost.push(
            InsertionInfo { cl_index: i, value: instance.distance(last_sequence, cl[i]) },
        );
        i = i + 1;
    }
    insertion_cost
}

/// Insertion sort by insertion cost; the set of candidates is kept.
fn sort_insertion_costs(v: &mut Vec<InsertionInfo>)
    ensures
        final(v)@.len() == old(v)@.len(),
        final(v)@.to_multiset() == old(v)@.to_multiset(),
        sorted_by_value(final(v)@),
{
    let mut idx: usize = 1;
    while idx < v.len()
        invariant
            1 <= idx || v@.len() == 0,
            idx <= v@.len() || v@.len() == 0,
            v@.len() == old(v)@.len(),
            v@.to_multiset() == old(v)@.to_multiset(),
            forall|a: int, b: int| 0 <= a < b < idx as int ==> v@[a].value <= v@[b].value,
        decreases v@.len() - idx,
    {
        let mut k: usize = idx;
        while k > 0 && v[k - 1].value > v[k].value
            invariant
                k <= idx && idx < v@.len(),
                v@.len() == old(v)@.len(),
                v@.to_multiset() == old(v)@.to_multiset(),
                forall|a: int, b: int|
                    0 <= a < b <= idx as int && b != k as int ==> v@[a].value <= v@[b].value,
            decreases k,
        {
            let ghost before = v@;
            let x = v[k - 1];
            let y = v[k];
            v.set(k - 1, y);
            v.set(k, x);
            proof {
                let kk = k as int;
                let p1 = before.subrange(0, kk - 1);
                let pa = before.subrange(kk - 1, kk);
                let p3 = Seq::<InsertionInfo>::empty();
                let pb = before.subrange(kk, kk + 1);
                let p5 = before.subrange(kk + 1, before.len() as int);
                assert(before =~= p1 + pa + p3 + pb + p5);
                assert(v@ =~= p1 + pb + p3 + pa + p5);
                crate::solution::lemma_exchange_multiset(p1, pa, p3, pb, p5);
            }
            k = k - 1;
        }
        idx = idx + 1;
    }
}

/// How many of the cheapest candidates the random draw may pick from:
/// `ceil(r * count / ALPHA_RESOLUTION)` lies in `[1, count]`.
pub proof fn lemma_ceil_div_range(r: int, count: int, res: int)
    by (nonlinear_arith)
    requires
        1 <= r <= res,
        1 <= count,
    ensures
        1 <= (r * count + res - 1) / res <= count,
{
}

/// The threshold product stays well inside the machine range.
proof fn lemma_alpha_mul_bound(r: int, count: int, dim: int, cap: int)
    requires
        1 <= r <= 1000,
        0 <= count <= dim,
        dim * dim <= cap,
        0xffff_ffff <= cap,
    ensures
        r * count + 1000 <= cap,
{
    if dim <= 1000 {
        assert(r * count + 1000 <= cap) by (nonlinear_arith)
            requires
                1 <= r <= 1000,
                0 <= count <= dim,
                dim <= 1000,
                0xffff_ffff <= cap,
        {}
    } else {
        assert(r * count + 1000 <= cap) by (nonlinear_arith)
            requires
                1 <= r <= 1000,
                0 <= count <= dim,
                1000 < dim,
                dim * dim <= cap,
        {}
    }
}

/// Build an initial solution: start from the depot alone, repeatedly
/// append a semi-greedily chosen unplaced node, close the tour, and
/// rebuild the whole aggregate table to establish `value`.
#[verifier::loop_isolation(false)]
pub fn construction<'a>(instance: &'a Instance) -> (s: Solution<'a>)
    requires
        instance.wf(),
        instance.fits(),
    ensures
        s.wf(),
        s.subseq_matrix.instance == instance,
{
    let n = instance.dimension;
    let ghost ni = n as int;
    let mut cl: Vec<usize> = Vec::new();
    let mut node: usize = 1;
    while node < n
        invariant
            1 <= node && node <= n,
            cl@.len() == node - 1,
            forall|k: int| 0 <= k < cl@.len() ==> (#[trigger] cl@[k]) == k + 1,
        decreases n - node,
    {
        cl.push(node);
        node = node + 1;
    }
    let mut start: Vec<usize> = Vec::new();
    start.push(0);
    let mut s = Solution::new(start, 0, instance);
    proof {
        assert(all_nodes(ni) =~= seq![0usize] + cl@);
        lemma_multiset_commutative(seq![0usize], cl@);
        assert(s.sequence@ =~= seq![0usize]);
    }
    while cl.len() > 0
        invariant
            s.subseq_matrix.wf(),
            s.subseq_matrix.instance == instance,
            s.sequence@.len() + cl@.len() == n,
            s.sequence@.len() >= 1,
            s.sequence@[0] == 0,
            forall|p: int| 0 <= p < s.sequence@.len() ==> (#[trigger] s.sequence@[p]) < n,
            forall|k: int| 0 <= k < cl@.len() ==> (#[trigger] cl@[k]) < n,
            s.sequence@.to_multiset().add(cl@.to_multiset()) == all_nodes(ni).to_multiset(),
        decreases cl@.len(),
    {
        let mut insertion_cost = calculate_insertion_cost(&s, &cl, instance);
        let ghost unsorted = insertion_cost@;
        sort_insertion_costs(&mut insertion_cost);
        let count = insertion_cost.len();
        let r = rand_below(ALPHA_RESOLUTION) + 1;
        proof {
            lemma_alpha_mul_bound(
                r as int,
                count as int,
                instance.dimension as int,
                usize::MAX as int,
            );
        }
        let limit = (r * count + (ALPHA_RESOLUTION - 1)) / ALPHA_RESOLUTION;
        proof {
            lemma_ceil_div_range(r as int, count as int, ALPHA_RESOLUTION as int);
        }
        let chosen = rand_below(limit);
        let cl_index = insertion_cost[chosen].cl_index;
        proof {
            let e = insertion_cost@[chosen as int];
            assert(insertion_cost@.contains(e));
            to_multiset_contains(insertion_cost@, e);
            to_multiset_contains(unsorted, e);
            assert(unsorted.contains(e));
            let kk = choose|kk: int| 0 <= kk < unsorted.len() && unsorted[kk] == e;
            assert(unsorted[kk].cl_index == kk);
        }
        let picked = cl[cl_index];
        let ghost old_seq = s.sequence@;
        let ghost old_cl = cl@;
        s.sequence.push(picked);
        cl.swap_remove(cl_index);
        proof {
            to_multiset_build(old_seq, picked);
            lemma_swap_remove_multiset(old_cl, cl_index as int);
            to_multiset_contains(old_cl, picked);
            assert(old_cl.contains(picked));
            assert(s.sequence@.to_multiset().add(cl@.to_multiset()) =~= old_seq.to_multiset().add(
                old_cl.to_multiset(),
            ));
        }
    }
    let ghost closed = s.sequence@;
    s.sequence.push(0);
    proof {
        assert(s.sequence@.subrange(0, ni) =~= closed);
        assert(cl@.to_multiset() =~= Multiset::<usize>::empty()) by {
            assert(cl@ =~= Seq::<usize>::empty());
            vstd::seq_lib::to_multiset_len(cl@);
        }
        assert(closed.to_multiset() =~= all_nodes(ni).to_multiset());
        assert(is_tour(s.sequence@, ni));
        crate::solution::lemma_tour_nodes(*instance, s.sequence@);
    }
    s.update(None);
    s
}

} // verus!
