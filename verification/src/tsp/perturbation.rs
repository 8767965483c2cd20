//! Double-bridge perturbation for the tour-length variant.

use vstd::prelude::*;

use crate::random_source::rand_below;
use crate::solution::bridge_block_limit;
use crate::solution::double_bridge_seq;
use crate::solution::is_double_bridge_of;
use crate::solution::is_tour;
use crate::solution::lemma_bridge_placements;
use crate::solution::lemma_exchange_multiset;
use crate::solution::lemma_same_multiset_tour;
use crate::solution::lemma_tour_values;
use crate::tsp::instance::Instance;
use crate::tsp::solution::Solution;

verus! {

/// Apply one random double-bridge move and recompute the tour length.
/// Block lengths are drawn from `[2, max(2, ceil(n / 10))]`, the first
/// block's start uniformly from the interior, and the second block's
/// placement uniformly over all valid (side, position) pairs.  On four
/// nodes no placement ever exists and the solution comes back unchanged;
/// from six nodes up every draw admits a placement, so a double bridge
/// is always applied; on five nodes the draw decides.
#[verifier::loop_isolation(false)]
#[verifier::rlimit(60)]
pub fn perturbation(s: Solution, instance: &Instance) -> (r: Solution)
    requires
        s.wf_for(*instance),
        instance.dimension >= 4,
    ensures
        r.wf_for(*instance),
        r.sequence@ == s.sequence@ || is_double_bridge_of(
            r.sequence@,
            s.sequence@,
            instance.dimension as int,
        ),
        instance.dimension >= 6 ==> is_double_bridge_of(
            r.sequence@,
            s.sequence@,
            instance.dimension as int,
        ),
        instance.dimension <= 4 ==> r.sequence@ == s.sequence@,
{
    let mut s = s;
    let n = instance.dimension;
    let ghost t = s.sequence@;
    proof {
        lemma_tour_values(n as int, t);
    }
    let tenth = (n + 9) / 10;
    let upper = if tenth < 2 {
        2
    } else {
        tenth
    };
    let block_size_i = 2 + rand_below(upper - 1);
    let block_size_j = 2 + rand_below(upper - 1);
    proof {
        assert(upper as int == bridge_block_limit(n as int));
        if n >= 6 {
            lemma_bridge_placements(
                n as int,
                block_size_i as int,
                block_size_j as int,
                1,
            );
        }
        assert(n >= block_size_i + 2);
    }
    let i0 = 1 + rand_below(n - block_size_i - 1);
    let possibilities_before = if i0 > block_size_j {
        i0 - block_size_j
    } else {
        0
    };
    let possibilities_after = if n + 1 > i0 + block_size_i + block_size_j {
        n + 1 - (i0 + block_size_i + block_size_j)
    } else {
        0
    };
    if possibilities_before + possibilities_after == 0 {
        proof {
            if n >= 6 {
                lemma_bridge_placements(
                    n as int,
                    block_size_i as int,
                    block_size_j as int,
                    i0 as int,
                );
            }
        }
        return s;
    }
    let pick = rand_below(possibilities_before + possibilities_after);
    let (i, j, bsi, bsj) = if pick < possibilities_before {
        (1 + pick, i0, block_size_j, block_size_i)
    } else {
        (i0, i0 + block_size_i + (pick - possibilities_before), block_size_i, block_size_j)
    };
    s.apply_double_bridge(i, j, bsi, bsj);
    proof {
        assert(s.sequence@ == double_bridge_seq(t, i as int, j as int, bsi as int, bsj as int));
        assert(is_double_bridge_of(s.sequence@, t, n as int));
        lemma_bridge_tour(t, s.sequence@, i as int, j as int, bsi as int, bsj as int, n as int);
        lemma_tour_values(n as int, s.sequence@);
    }
    s.recalculate(instance);
    s
}

/// The four-reversal block exchange keeps the tour a tour.
proof fn lemma_bridge_tour(t: Seq<usize>, t4: Seq<usize>, il: int, jl: int, bi: int, bj: int, n: int)
    requires
        is_tour(t, n),
        1 <= il,
        1 <= bi,
        1 <= bj,
        il + bi <= jl,
        jl + bj <= n,
        t4 == t.subrange(0, il) + t.subrange(jl, jl + bj) + t.subrange(il + bi, jl) + t.subrange(
            il,
            il + bi,
        ) + t.subrange(jl + bj, t.len() as int),
    ensures
        is_tour(t4, n),
{
    let len = t.len() as int;
    let pre = t.subrange(0, il);
    let blk_a = t.subrange(il, il + bi);
    let blk_b = t.subrange(il + bi, jl);
    let blk_c = t.subrange(jl, jl + bj);
    let post = t.subrange(jl + bj, len);
    assert(t =~= pre + blk_a + blk_b + blk_c + post);
    assert(t4 =~= pre + blk_c + blk_b + blk_a + post);
    lemma_exchange_multiset(pre, blk_a, blk_b, blk_c, post);
    assert(t4[0] == t[0]);
    assert(t4[n] == t[n]);
    lemma_same_multiset_tour(t, t4, n);
}

} // verus!
