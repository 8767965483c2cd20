//! Semi-greedy construction for the tour-length variant: seed the tour
//! with three random nodes, then repeatedly splice one of the cheapest
//! remaining nodes into an edge, chosen uniformly among the best
//! `ceil(alpha * count)` candidates.

use vstd::prelude::*;

use vstd::multiset::Multiset;
use vstd::seq_lib::lemma_multiset_commutative;
use vstd::seq_lib::to_multiset_contains;
use vstd::seq_lib::to_multiset_insert;
use vstd::seq_lib::to_multiset_remove;

use crate::construction::ALPHA_RESOLUTION;
use crate::random_source::rand_below;
use crate::solution::all_nodes;
use crate::solution::is_tour;
use crate::solution::lemma_swap_remove_multiset;
use crate::tsp::instance::Instance;
use crate::tsp::instance::lemma_dist_small;
use crate::tsp::instance::lemma_len_app;
use crate::tsp::instance::lemma_len_bounds;
use crate::tsp::instance::tour_len;
use crate::tsp::solution::Solution;

verus! {

/// One candidate splice: which entry of the candidate list, which edge
/// it breaks, and the change in tour length it causes.
#[derive(Clone, Copy)]
struct InsertionInfo {
    cl_index: usize,
    removed_edge: usize,
    value: isize,
}

/// A recorded candidate is a valid splice of `t` with its exact delta.
spec fn info_ok(inst: Instance, t: Seq<usize>, cl: Seq<usize>, e: InsertionInfo) -> bool {
    &&& e.cl_index < cl.len()
    &&& 1 <= e.removed_edge < t.len()
    &&& e.value == inst.dist(t[e.removed_edge - 1] as int, cl[e.cl_index as int] as int)
        + inst.dist(cl[e.cl_index as int] as int, t[e.removed_edge as int] as int) - inst.dist(
        t[e.removed_edge - 1] as int,
        t[e.removed_edge as int] as int,
    )
}

spec fn all_ok(inst: Instance, t: Seq<usize>, cl: Seq<usize>, s: Seq<InsertionInfo>) -> bool {
    forall|k: int| 0 <= k < s.len() ==> info_ok(inst, t, cl, #[trigger] s[k])
}

/// Splicing `x` into the edge before position `pos` changes the length
/// by exactly the recorded delta.
proof fn lemma_insert_delta(inst: Instance, s: Seq<usize>, pos: int, x: usize)
    requires
        s.len() >= 2,
        1 <= pos < s.len(),
    ensures
        tour_len(inst, s.insert(pos, x)) == tour_len(inst, s) + inst.dist(
            s[pos - 1] as int,
            x as int,
        ) + inst.dist(x as int, s[pos] as int) - inst.dist(s[pos - 1] as int, s[pos] as int),
{
    let p = s.subrange(0, pos);
    let q = s.subrange(pos, s.len() as int);
    assert(s =~= p + q);
    lemma_len_app(inst, p, q);
    let px = p.push(x);
    assert(px =~= p + seq![x]);
    lemma_len_app(inst, p, seq![x]);
    assert(s.insert(pos, x) =~= px + q);
    lemma_len_app(inst, px, q);
}

/// The splice cost of every unplaced node into every current edge.
#[verifier::loop_isolation(false)]
fn calculate_insertion_cost(s: &Solution, cl: &Vec<usize>, instance: &Instance) -> (r: Vec<
    InsertionInfo,
>)
    requires
        instance.wf(),
        instance.fits(),
        s.sequence@.len() >= 2,
        forall|k: int|
            0 <= k < s.sequence@.len() ==> (#[trigger] s.sequence@[k]) < instance.dimension,
        forall|k: int| 0 <= k < cl@.len() ==> (#[trigger] cl@[k]) < instance.dimension,
    ensures
        all_ok(*instance, s.sequence@, cl@, r@),
        r@.len() == cl@.len() * (s.sequence@.len() - 1),
{
    let mut insertion_cost: Vec<InsertionInfo> = Vec::new();
    let len = s.sequence.len();
    let mut a: usize = 0;
    while a + 1 < len
        invariant
            a < len,
            all_ok(*instance, s.sequence@, cl@, insertion_cost@),
            insertion_cost@.len() == cl@.len() * a,
        decreases len - a,
    {
        let vi = s.sequence[a];
        let vj = s.sequence[a + 1];
        let mut c: usize = 0;
        while c < cl.len()
            invariant
                a + 1 < len,
                c <= cl@.len(),
                vi == s.sequence@[a as int],
                vj == s.sequence@[a as int + 1],
                all_ok(*instance, s.sequence@, cl@, insertion_cost@),
                insertion_cost@.len() == cl@.len() * a + c,
            decreases cl@.len() - c,
        {
            let x = cl[c];
            let row_i = &instance.matrix[vi];
            let d1 = row_i[x];
            let row_x = &instance.matrix[x];
            let d2 = row_x[vj];
            let d3 = row_i[vj];
            proof {
                lemma_dist_small(*instance, vi as int, x as int);
                lemma_dist_small(*instance, x as int, vj as int);
                lemma_dist_small(*instance, vi as int, vj as int);
            }
            let value = (d1 as isize) + (d2 as isize) - (d3 as isize);
            insertion_cost.push(InsertionInfo { cl_index: c, removed_edge: a + 1, value });
            proof {
                assert(cl@.len() * a + c + 1 == cl@.len() * a + (c + 1));
            }
            c = c + 1;
        }
        proof {
            assert(cl@.len() * (a as int) + cl@.len() == cl@.len() * (a as int + 1))
                by (nonlinear_arith);
        }
        a = a + 1;
    }
    proof {
        assert(a as int == len - 1);
    }
    insertion_cost
}

spec fn sorted_by_value(s: Seq<InsertionInfo>) -> bool {
    forall|a: int, b: int| 0 <= a < b < s.len() ==> s[a].value <= s[b].value
}

/// Insertion sort by splice delta; the set of candidates is kept.
fn sort_insertion_costs(v: &mut Vec<InsertionInfo>)
    ensures
        final(v)@.len() == old(v)@.len(),
        final(v)@.to_multiset() == old(v)@.to_multiset(),
        sorted_by_value(final(v)@),
{
    let mut idx: usize = 1;
    while idx < v.len()
        invariant
            1 <= idx || v@.len() == 0,
            idx <= v@.len() || v@.len() == 0,
            v@.len() == old(v)@.len(),
            v@.to_multiset() == old(v)@.to_multiset(),
            forall|a: int, b: int| 0 <= a < b < idx as int ==> v@[a].value <= v@[b].value,
        decreases v@.len() - idx,
    {
        let mut k: usize = idx;
        while k > 0 && v[k - 1].value > v[k].value
            invariant
                k <= idx && idx < v@.len(),
                v@.len() == old(v)@.len(),
                v@.to_multiset() == old(v)@.to_multiset(),
                forall|a: int, b: int|
                    0 <= a < b <= idx as int && b != k as int ==> v@[a].value <= v@[b].value,
            decreases k,
        {
            let ghost before = v@;
            let x = v[k - 1];
            let y = v[k];
            v.set(k - 1, y);
            v.set(k, x);
            proof {
                let kk = k as int;
                let p1 = before.subrange(0, kk - 1);
                let pa = before.subrange(kk - 1, kk);
                let p3 = Seq::<InsertionInfo>::empty();
                let pb = before.subrange(kk, kk + 1);
                let p5 = before.subrange(kk + 1, before.len() as int);
                assert(before =~= p1 + pa + p3 + pb + p5);
                assert(v@ =~= p1 + pb + p3 + pa + p5);
                crate::solution::lemma_exchange_multiset(p1, pa, p3, pb, p5);
            }
            k = k - 1;
        }
        idx = idx + 1;
    }
}

/// Seed a tour with the depot and three random unplaced nodes.
#[verifier::loop_isolation(false)]
fn choose_three_random(cl: &mut Vec<usize>, instance: &Instance) -> (s: Solution)
    requires
        instance.wf(),
        instance.fits(),
        instance.dimension >= 4,
        old(cl)@.len() >= 3,
        forall|k: int| 0 <= k < old(cl)@.len() ==> 1 <= (#[trigger] old(cl)@[k]) < instance.dimension,
    ensures
        final(cl)@.len() == old(cl)@.len() - 3,
        forall|k: int| 0 <= k < final(cl)@.len() ==> 1 <= (#[trigger] final(cl)@[k]) < instance.dimension,
        s.sequence@.len() == 5,
        s.sequence@[0] == 0,
        s.sequence@[4] == 0,
        forall|k: int| 0 <= k < 5 ==> (#[trigger] s.sequence@[k]) < instance.dimension,
        s.sequence@.subrange(1, 4).to_multiset().add(final(cl)@.to_multiset()) == old(
            cl,
        )@.to_multiset(),
        s.value == tour_len(*instance, s.sequence@),
{
    let mut sequence: Vec<usize> = Vec::new();
    proof {
        assert forall|v: usize| #[trigger] sequence@.to_multiset().count(v) == 0 by {
            to_multiset_contains(sequence@, v);
        }
        assert(sequence@.to_multiset().add(cl@.to_multiset()) =~= cl@.to_multiset());
    }
    let mut picks: usize = 0;
    while picks < 3
        invariant
            picks <= 3,
            sequence@.len() == picks,
            cl@.len() == old(cl)@.len() - picks,
            forall|k: int| 0 <= k < cl@.len() ==> 1 <= (#[trigger] cl@[k]) < instance.dimension,
            forall|k: int|
                0 <= k < sequence@.len() ==> 1 <= (#[trigger] sequence@[k]) < instance.dimension,
            sequence@.to_multiset().add(cl@.to_multiset()) == old(cl)@.to_multiset(),
        decreases 3 - picks,
    {
        let index = rand_below(cl.len());
        let ghost old_cl = cl@;
        let ghost old_seq = sequence@;
        let picked = cl[index];
        sequence.push(picked);
        cl.swap_remove(index);
        proof {
            vstd::seq_lib::to_multiset_build(old_seq, picked);
            lemma_swap_remove_multiset(old_cl, index as int);
            to_multiset_contains(old_cl, picked);
            assert(sequence@.to_multiset().add(cl@.to_multiset()) =~= old_seq.to_multiset().add(
                old_cl.to_multiset(),
            ));
        }
        picks = picks + 1;
    }
    let ghost three = sequence@;
    sequence.insert(0, 0);
    sequence.push(0);
    proof {
        assert(sequence@.subrange(1, 4) =~= three);
    }
    let mut s = Solution { sequence, value: 0 };
    s.recalculate(instance);
    s
}

/// Build an initial solution: three random nodes around the depot, then
/// semi-greedy cheapest-splice insertion until every node is placed.
#[verifier::loop_isolation(false)]
pub fn construction(instance: &Instance) -> (s: Solution)
    requires
        instance.wf(),
        instance.fits(),
        instance.dimension >= 4,
    ensures
        s.wf_for(*instance),
{
    let n = instance.dimension;
    let ghost ni = n as int;
    let mut cl: Vec<usize> = Vec::new();
    let mut node: usize = 1;
    while node < n
        invariant
            1 <= node && node <= n,
            cl@.len() == node - 1,
            forall|k: int| 0 <= k < cl@.len() ==> (#[trigger] cl@[k]) == k + 1,
        decreases n - node,
    {
        cl.push(node);
        node = node + 1;
    }
    let ghost interior = cl@;
    let mut s = choose_three_random(&mut cl, instance);
    while cl.len() > 0
        invariant
            s.sequence@.len() + cl@.len() == n + 1,
            s.sequence@.len() >= 5,
            s.sequence@[0] == 0,
            s.sequence@.last() == 0,
            forall|k: int|
                0 <= k < s.sequence@.len() ==> (#[trigger] s.sequence@[k]) < instance.dimension,
            forall|k: int| 0 <= k < cl@.len() ==> 1 <= (#[trigger] cl@[k]) < instance.dimension,
            s.sequence@.subrange(1, s.sequence@.len() - 1).to_multiset().add(cl@.to_multiset())
                == interior.to_multiset(),
            s.value == tour_len(*instance, s.sequence@),
        decreases cl@.len(),
    {
        let mut insertion_cost = calculate_insertion_cost(&s, &cl, instance);
        let ghost unsorted = insertion_cost@;
        sort_insertion_costs(&mut insertion_cost);
        let count = insertion_cost.len();
        proof {
            assert(count >= 1) by (nonlinear_arith)
                requires
                    count == cl@.len() * (s.sequence@.len() - 1),
                    cl@.len() >= 1,
                    s.sequence@.len() >= 2,
            {}
        }
        let r = rand_below(ALPHA_RESOLUTION) + 1;
        proof {
            assert(r * count + 1000 <= 0xffff_ffff_ffff_ffff_ffff_ffff_ffff_ffffu128)
                by (nonlinear_arith)
                requires
                    1 <= r <= 1000,
                    0 <= count <= 0xffff_ffff_ffff_ffff_ffff_ffff_ffff_ffffu128 / 1001,
            {}
        }
        let limit_wide = ((r as u128) * (count as u128) + ((ALPHA_RESOLUTION as u128) - 1)) / (
        ALPHA_RESOLUTION as u128);
        proof {
            crate::construction::lemma_ceil_div_range(
                r as int,
                count as int,
                ALPHA_RESOLUTION as int,
            );
        }
        let limit = limit_wide as usize;
        let chosen = rand_below(limit);
        let info = insertion_cost[chosen];
        proof {
            let e = insertion_cost@[chosen as int];
            assert(insertion_cost@.contains(e));
            to_multiset_contains(insertion_cost@, e);
            to_multiset_contains(unsorted, e);
            assert(unsorted.contains(e));
            let kk = choose|kk: int| 0 <= kk < unsorted.len() && unsorted[kk] == e;
            assert(info_ok(*instance, s.sequence@, cl@, unsorted[kk]));
        }
        let picked = cl[info.cl_index];
        let ghost old_seq = s.sequence@;
        let ghost old_cl = cl@;
        s.sequence.insert(info.removed_edge, picked);
        cl.remove(info.cl_index);
        proof {
            lemma_len_bounds(*instance, old_seq);
            lemma_dist_small(*instance, old_seq[info.removed_edge - 1] as int, picked as int);
            lemma_dist_small(*instance, picked as int, old_seq[info.removed_edge as int] as int);
            lemma_dist_small(
                *instance,
                old_seq[info.removed_edge - 1] as int,
                old_seq[info.removed_edge as int] as int,
            );
            lemma_insert_delta(*instance, old_seq, info.removed_edge as int, picked);
            to_multiset_insert(old_seq.subrange(1, old_seq.len() - 1), info.removed_edge - 1, picked);
            to_multiset_remove(old_cl, info.cl_index as int);
            to_multiset_contains(old_cl, picked);
            assert(s.sequence@.subrange(1, s.sequence@.len() - 1) =~= old_seq.subrange(
                1,
                old_seq.len() - 1,
            ).insert(info.removed_edge - 1, picked));
            assert(s.sequence@.subrange(1, s.sequence@.len() - 1).to_multiset().add(
                cl@.to_multiset(),
            ) =~= old_seq.subrange(1, old_seq.len() - 1).to_multiset().add(old_cl.to_multiset()));
            lemma_len_bounds(*instance, s.sequence@);
            assert(s.sequence@[0] == old_seq[0]);
            assert(s.sequence@.last() == old_seq.last());
        }
        let new_value = (s.value as isize) + info.value;
        s.value = new_value as usize;
    }
    proof {
        assert(cl@ =~= Seq::<usize>::empty());
        vstd::seq_lib::to_multiset_len(cl@);
        assert(cl@.to_multiset() =~= Multiset::<usize>::empty());
        let t = s.sequence@;
        assert(t.subrange(1, t.len() - 1).to_multiset() =~= interior.to_multiset());
        assert(t.subrange(0, ni) =~= seq![0usize] + t.subrange(1, t.len() - 1));
        lemma_multiset_commutative(seq![0usize], t.subrange(1, t.len() - 1));
        assert(all_nodes(ni) =~= seq![0usize] + interior);
        lemma_multiset_commutative(seq![0usize], interior);
        assert(is_tour(t, ni));
    }
    s
}

} // verus!
