//! A tour and its plain travel length.

use vstd::prelude::*;

use crate::solution::double_bridge_seq;
use crate::solution::is_tour;
use crate::solution::lemma_four_reversals;
use crate::solution::reversed_within;
use crate::solution::clone_nodes;
use crate::solution::reverse_range;
use crate::tsp::instance::Instance;
use crate::tsp::instance::lemma_len_bounds;
use crate::tsp::instance::tour_len;

verus! {

/// A closed tour and its total travel length.
#[derive(Debug, Default)]
pub struct Solution {
    pub sequence: Vec<usize>,
    pub value: usize,
}

impl Solution {
    /// The solution invariant under the tour-length objective.
    pub open spec fn wf_for(self, inst: Instance) -> bool {
        &&& inst.wf()
        &&& inst.fits()
        &&& is_tour(self.sequence@, inst.dimension as int)
        &&& self.value == tour_len(inst, self.sequence@)
    }

    /// An element-for-element copy.
    pub fn duplicate(&self) -> (r: Solution)
        ensures
            r.sequence@ == self.sequence@,
            r.value == self.value,
    {
        Solution { sequence: clone_nodes(&self.sequence), value: self.value }
    }

    /// Recompute `value` from scratch by summing the edges of the
    /// sequence.
    #[verifier::loop_isolation(false)]
    pub fn recalculate(&mut self, instance: &Instance)
        requires
            instance.wf(),
            instance.fits(),
            1 <= old(self).sequence@.len() <= instance.dimension + 1,
            forall|k: int|
                0 <= k < old(self).sequence@.len() ==> (#[trigger] old(self).sequence@[k])
                    < instance.dimension,
        ensures
            final(self).sequence == old(self).sequence,
            final(self).value == tour_len(*instance, old(self).sequence@),
    {
        let ghost t = self.sequence@;
        let len = self.sequence.len();
        let mut sum: usize = 0;
        let mut k: usize = 0;
        while k + 1 < len
            invariant
                k < len,
                sum == tour_len(*instance, t.subrange(0, k as int + 1)),
                0 <= sum <= crate::instance::COST_LIMIT,
            decreases len - k,
        {
            let a = self.sequence[k];
            let b = self.sequence[k + 1];
            let row = &instance.matrix[a];
            let d = row[b];
            proof {
                assert(t.subrange(0, k as int + 2).drop_last() =~= t.subrange(0, k as int + 1));
                assert forall|q: int| 0 <= q < k as int + 2 implies 0 <= (#[trigger] t.subrange(
                    0,
                    k as int + 2,
                )[q]) < instance.dimension by {}
                lemma_len_bounds(*instance, t.subrange(0, k as int + 2));
                assert(tour_len(*instance, t.subrange(0, k as int + 2)) == sum + d);
            }
            sum = sum + d;
            k = k + 1;
        }
        proof {
            assert(t.subrange(0, t.len() as int) =~= t);
        }
        self.value = sum;
    }

    /// Exchange the two interior blocks `[i, i + block_size_i)` and
    /// `[j, j + block_size_j)` with four targeted reversals, keeping
    /// each block's internal order.  `value` is not touched; the caller
    /// recomputes it.
    pub fn apply_double_bridge(
        &mut self,
        i: usize,
        j: usize,
        block_size_i: usize,
        block_size_j: usize,
    )
        requires
            1 <= i,
            1 <= block_size_i,
            1 <= block_size_j,
            i + block_size_i <= j,
            j + block_size_j < old(self).sequence@.len(),
        ensures
            final(self).value == old(self).value,
            final(self).sequence@ == double_bridge_seq(
                old(self).sequence@,
                i as int,
                j as int,
                block_size_i as int,
                block_size_j as int,
            ),
    {
        let ghost t = self.sequence@;
        let ghost len = t.len();
        let total = self.sequence.len();
        let i_end = i + block_size_i;
        let j_end = j + block_size_j;
        let mid = i + block_size_j;
        let mid2 = mid + (j - i_end);
        reverse_range(&mut self.sequence, i, j_end);
        let ghost t1 = self.sequence@;
        reverse_range(&mut self.sequence, i, mid);
        let ghost t2 = self.sequence@;
        reverse_range(&mut self.sequence, mid, mid2);
        let ghost t3 = self.sequence@;
        reverse_range(&mut self.sequence, j_end - block_size_i, j_end);
        let ghost t4 = self.sequence@;
        proof {
            assert(reversed_within(t, t1, i as int, j_end as int));
            assert(reversed_within(t1, t2, i as int, mid as int));
            assert(reversed_within(t2, t3, mid as int, mid2 as int));
            assert(reversed_within(t3, t4, j_end - block_size_i, j_end as int));
            lemma_four_reversals(
                t,
                t1,
                t2,
                t3,
                t4,
                i as int,
                j as int,
                block_size_i as int,
                block_size_j as int,
            );
        }
    }
}

} // verus!
