//! Double-bridge perturbation: exchange two random interior blocks
//! without reversing either, an escape move that no sequence of 2-opt
//! reversals reproduces.

use vstd::prelude::*;

use crate::instance::lemma_dim_headroom;
use crate::random_source::rand_below;
use crate::solution::Solution;
use crate::solution::bridge_block_limit;
use crate::solution::double_bridge_seq;
use crate::solution::is_double_bridge_of;
use crate::solution::lemma_bridge_placements;

verus! {

/// Apply one random double-bridge move: draw two block lengths in
/// `[2, max(2, ceil(n / 10))]`, a start for the first block inside the
/// tour interior, and then one placement uniformly among all valid
/// (side, position) pairs for the second block.  On four nodes no
/// placement ever exists and the solution comes back unchanged; from six
/// nodes up every draw admits a placement, so a double bridge is always
/// applied; on five nodes the draw decides.
#[verifier::loop_isolation(false)]
pub fn perturbation<'a>(s: Solution<'a>) -> (r: Solution<'a>)
    requires
        s.wf(),
        s.n() >= 4,
    ensures
        r.wf(),
        r.subseq_matrix.instance == s.subseq_matrix.instance,
        r.sequence@ == s.sequence@ || is_double_bridge_of(r.sequence@, s.sequence@, s.n()),
        s.n() >= 6 ==> is_double_bridge_of(r.sequence@, s.sequence@, s.n()),
        s.n() <= 4 ==> r.sequence@ == s.sequence@,
{
    let ghost t0 = s.sequence@;
    let mut s = s;
    let n = s.subseq_matrix.instance.dimension;
    proof {
        assert(16 <= usize::MAX);
        lemma_dim_headroom(n + 1, usize::MAX as int);
    }
    let tenth = (n + 9) / 10;
    let upper = if tenth < 2 {
        2
    } else {
        tenth
    };
    let block_size_i = 2 + rand_below(upper - 1);
    let block_size_j = 2 + rand_below(upper - 1);
    proof {
        assert(upper as int == bridge_block_limit(n as int));
        if n >= 6 {
            lemma_bridge_placements(
                n as int,
                block_size_i as int,
                block_size_j as int,
                1,
            );
        }
        assert(n >= block_size_i + 2);
    }
    let i = 1 + rand_below(n - block_size_i - 1);
    let possibilities_before = if i > block_size_j {
        i - block_size_j
    } else {
        0
    };
    let possibilities_after = if n + 1 > i + block_size_i + block_size_j {
        n + 1 - (i + block_size_i + block_size_j)
    } else {
        0
    };
    if possibilities_before + possibilities_after == 0 {
        proof {
            if n >= 6 {
                lemma_bridge_placements(
                    n as int,
                    block_size_i as int,
                    block_size_j as int,
                    i as int,
                );
            }
        }
        return s;
    }
    let pick = rand_below(possibilities_before + possibilities_after);
    if pick < possibilities_before {
        let j = 1 + pick;
        s.apply_double_bridge(j, i, block_size_j, block_size_i);
        proof {
            assert(s.sequence@ == double_bridge_seq(
                t0,
                j as int,
                i as int,
                block_size_j as int,
                block_size_i as int,
            ));
            assert(is_double_bridge_of(s.sequence@, t0, n as int));
        }
    } else {
        let j = i + block_size_i + (pick - possibilities_before);
        s.apply_double_bridge(i, j, block_size_i, block_size_j);
        proof {
            assert(s.sequence@ == double_bridge_seq(
                t0,
                i as int,
                j as int,
                block_size_i as int,
                block_size_j as int,
            ));
            assert(is_double_bridge_of(s.sequence@, t0, n as int));
        }
    }
    s
}

} // verus!
