//! Best-improvement local search over five alternating neighborhoods:
//! Swap, 2-opt, and Or-opt with block sizes one to three.
//!
//! Each scan prices every candidate move in O(1) from the cached
//! subsequence aggregates, applies only the single most-improving move,
//! and refreshes the aggregates over the affected span.  The active
//! neighborhood set grows back to all five only on a strictly
//! cost-decreasing move and otherwise shrinks, and the cost is a bounded
//! non-negative integer, so the search always terminates.

use vstd::prelude::*;

use crate::instance::COST_LIMIT;
use crate::instance::Instance;
use crate::instance::lemma_dim_headroom;
use crate::random_source::rand_below;
use crate::solution::Solution;
use crate::solution::lemma_exchange_multiset;
use crate::solution::lemma_same_multiset_tour;
use crate::solution::lemma_tour_nodes;
use crate::solution::reverse_range;
use crate::solution::rotate_left_range;
use crate::subsequence::chain_agg;
use crate::subsequence::lemma_chain_bounds;
use crate::subsequence::lemma_chain_is_replay;
use crate::subsequence::lemma_extend_chain;
use crate::subsequence::lemma_span_items_frame;
use crate::subsequence::lemma_span_items_valid;
use crate::subsequence::lemma_start_chain;
use crate::subsequence::replay_cost;
use crate::subsequence::seq_items;
use crate::subsequence::span_clean;
use crate::subsequence::span_items;
use crate::subsequence::valid_items;

verus! {

/// The tour with the nodes at positions `i` and `j` exchanged.
pub open spec fn swap_seq(t: Seq<usize>, i: int, j: int) -> Seq<usize> {
    t.update(i, t[j]).update(j, t[i])
}

/// The tour with the block of positions `i..=j` reversed.
pub open spec fn two_opt_seq(t: Seq<usize>, i: int, j: int) -> Seq<usize> {
    t.subrange(0, i) + t.subrange(i, j + 1).reverse() + t.subrange(j + 1, t.len() as int)
}

/// The tour with the block `[i, i + bs)` relocated to just after
/// position `j`, for `j >= i + bs`.
pub open spec fn oropt_fwd_seq(t: Seq<usize>, i: int, bs: int, j: int) -> Seq<usize> {
    t.subrange(0, i) + t.subrange(i + bs, j + 1) + t.subrange(i, i + bs) + t.subrange(
        j + 1,
        t.len() as int,
    )
}

/// The tour with the block `[i, i + bs)` relocated to just after
/// position `j`, for `j < i`.
pub open spec fn oropt_back_seq(t: Seq<usize>, i: int, bs: int, j: int) -> Seq<usize> {
    t.subrange(0, j + 1) + t.subrange(i, i + bs) + t.subrange(j + 1, i) + t.subrange(
        i + bs,
        t.len() as int,
    )
}


/// No Swap move strictly improves a tour of cost `value`.
pub open spec fn swap_optimal(inst: Instance, t: Seq<usize>, value: int) -> bool {
    forall|i: int, j: int|
        1 <= i && i + 2 <= j && j + 1 < t.len() ==> replay_cost(
            inst,
            #[trigger] swap_seq(t, i, j),
        ) >= value
}

/// No 2-opt move strictly improves a tour of cost `value`.
pub open spec fn two_opt_optimal(inst: Instance, t: Seq<usize>, value: int) -> bool {
    forall|i: int, j: int|
        1 <= i && i + 1 <= j && j + 1 < t.len() ==> replay_cost(
            inst,
            #[trigger] two_opt_seq(t, i, j),
        ) >= value
}

/// No Or-opt relocation of a block of `bs` nodes strictly improves a
/// tour of cost `value`.
pub open spec fn oropt_optimal(inst: Instance, t: Seq<usize>, bs: int, value: int) -> bool {
    &&& forall|i: int, j: int|
        1 <= i && i + bs <= j && j + 1 < t.len() ==> replay_cost(
            inst,
            #[trigger] oropt_fwd_seq(t, i, bs, j),
        ) >= value
    &&& forall|i: int, j: int|
        1 <= j && j + 2 < i && i + bs < t.len() ==> replay_cost(
            inst,
            #[trigger] oropt_back_seq(t, i, bs, j),
        ) >= value
}

/// Facts every neighborhood scan starts from: the tour's nodes are
/// valid, and its replayed cost equals `value`, bounded by `COST_LIMIT`.
proof fn lemma_scan_setup(inst: Instance, t: Seq<usize>)
    requires
        inst.wf(),
        inst.fits(),
        crate::solution::is_tour(t, inst.dimension as int),
    ensures
        crate::subsequence::valid_tour_nodes(inst, t),
        valid_items(inst, seq_items(t)),
        chain_agg(inst, seq_items(t)).c == replay_cost(inst, t),
        0 <= replay_cost(inst, t) <= COST_LIMIT,
        t.len() + 8 <= usize::MAX,
{
    lemma_tour_nodes(inst, t);
    assert(valid_items(inst, seq_items(t)));
    lemma_chain_is_replay(inst, t);
    lemma_chain_bounds(inst, seq_items(t));
    assert(16 <= usize::MAX);
    lemma_dim_headroom(t.len() as int, usize::MAX as int);
}

/// Scan all Swap moves, apply the most improving one if any exists.
#[verifier::loop_isolation(false)]
fn best_swap<'a>(s: &mut Solution<'a>) -> (improved: bool)
    requires
        old(s).wf(),
    ensures
        final(s).wf(),
        final(s).subseq_matrix.instance == old(s).subseq_matrix.instance,
        improved ==> final(s).value < old(s).value,
        !improved ==> *final(s) == *old(s),
        !improved ==> swap_optimal(old(s).inst(), old(s).sequence@, old(s).value as int),
        improved ==> swap_optimal(old(s).inst(), old(s).sequence@, final(s).value as int),
        improved ==> exists|i: int, j: int|
            1 <= i && i + 2 <= j && j + 1 < old(s).sequence@.len() && final(s).sequence@
                == #[trigger] swap_seq(old(s).sequence@, i, j),
{
    let ghost t = s.sequence@;
    let ghost inst = s.inst();
    let ghost n = s.n();
    proof {
        lemma_scan_setup(inst, t);
    }
    let len = s.sequence.len();
    let last_idx = len - 1;
    let mut best_delta: i32 = 0;
    let mut best_i: usize = 0;
    let mut best_j: usize = 0;
    let mut i: usize = 1;
    while i + 2 < len
        invariant
            old(s) == s,
            old(s).wf(),
            t == s.sequence@,
            inst == s.inst(),
            n == s.n(),
            len == t.len(),
            last_idx == len - 1,
            1 <= i && i <= len,
            best_delta <= 0,
            best_delta < 0 ==> 1 <= best_i as int && best_i + 2 <= best_j && best_j + 1 < len
                && replay_cost(inst, swap_seq(t, best_i as int, best_j as int)) == s.value
                + best_delta,
            forall|x: int, y: int|
                1 <= x < i as int && x + 2 <= y && y + 1 < len ==> replay_cost(
                    inst,
                    #[trigger] swap_seq(t, x, y),
                ) >= s.value + best_delta,
        decreases len - i,
    {
        let mut j: usize = i + 2;
        while j + 1 < len
            invariant
                old(s) == s,
                old(s).wf(),
                t == s.sequence@,
                inst == s.inst(),
                n == s.n(),
                len == t.len(),
                last_idx == len - 1,
                1 <= i && i + 2 < len,
                i + 2 <= j && j <= len,
                best_delta <= 0,
                best_delta < 0 ==> 1 <= best_i as int && best_i + 2 <= best_j && best_j + 1 < len
                    && replay_cost(inst, swap_seq(t, best_i as int, best_j as int)) == s.value
                    + best_delta,
                forall|x: int, y: int|
                    1 <= x < i as int && x + 2 <= y && y + 1 < len ==> replay_cost(
                        inst,
                        #[trigger] swap_seq(t, x, y),
                    ) >= s.value + best_delta,
                forall|y: int|
                    i + 2 <= y < j as int ==> replay_cost(inst, #[trigger] swap_seq(t, i as int, y))
                        >= s.value + best_delta,
            decreases len - j,
        {
            let ghost x1 = span_items(t, 0, i - 1);
            let ghost x2 = x1 + span_items(t, j as int, j as int);
            let ghost x3 = x2 + span_items(t, i + 1, j - 1);
            let ghost x4 = x3 + span_items(t, i as int, i as int);
            let ghost x5 = x4 + span_items(t, j + 1, last_idx as int);
            proof {
                lemma_scan_setup(inst, t);
                lemma_start_chain(s.subseq_matrix, t, 0, i - 1);
                lemma_extend_chain(s.subseq_matrix, t, x1, j as int, j as int);
                lemma_extend_chain(s.subseq_matrix, t, x2, i + 1, j - 1);
                lemma_extend_chain(s.subseq_matrix, t, x3, i as int, i as int);
                lemma_extend_chain(s.subseq_matrix, t, x4, j + 1, last_idx as int);
                lemma_span_items_valid(inst, t, 0, i - 1);
                lemma_span_items_valid(inst, t, j as int, j as int);
                lemma_span_items_valid(inst, t, i + 1, j - 1);
                lemma_span_items_valid(inst, t, i as int, i as int);
                lemma_span_items_valid(inst, t, j + 1, last_idx as int);
                assert(x5 =~= seq_items(swap_seq(t, i as int, j as int)));
                lemma_chain_is_replay(inst, swap_seq(t, i as int, j as int));
            }
            let sigma = s
                .subseq_matrix
                .concatenator_for(0, i - 1)
                .concatenate(j, j)
                .concatenate(i + 1, j - 1)
                .concatenate(i, i)
                .concatenate(j + 1, last_idx)
                .into_subsequence();
            let delta = (sigma.c as i32) - (s.value as i32);
            if delta < best_delta {
                best_delta = delta;
                best_i = i;
                best_j = j;
            }
            j = j + 1;
        }
        i = i + 1;
    }
    proof {
        assert forall|x: int, y: int|
            1 <= x && x + 2 <= y && y + 1 < len implies replay_cost(
            inst,
            #[trigger] swap_seq(t, x, y),
        ) >= s.value + best_delta by {
            assert(x < i as int);
        }
    }
    if best_delta < 0 {
        let ghost t2 = swap_seq(t, best_i as int, best_j as int);
        let node_a = s.sequence[best_i];
        let node_b = s.sequence[best_j];
        s.sequence.set(best_i, node_b);
        s.sequence.set(best_j, node_a);
        proof {
            let bi = best_i as int;
            let bj = best_j as int;
            assert(s.sequence@ == t2);
            let p1 = t.subrange(0, bi);
            let pa = t.subrange(bi, bi + 1);
            let p3 = t.subrange(bi + 1, bj);
            let pb = t.subrange(bj, bj + 1);
            let p5 = t.subrange(bj + 1, len as int);
            assert(t =~= p1 + pa + p3 + pb + p5);
            assert(t2 =~= p1 + pb + p3 + pa + p5);
            lemma_exchange_multiset(p1, pa, p3, pb, p5);
            lemma_same_multiset_tour(t, t2, n);
            lemma_tour_nodes(inst, t2);
            assert forall|p: int, q: int|
                0 <= p < s.subseq_matrix.dimension && 0 <= q < s.subseq_matrix.dimension
                    && span_clean(p, q, bi, bj) implies #[trigger] s.subseq_matrix.entry_valid(
                t2,
                p,
                q,
            ) by {
                assert(s.subseq_matrix.entry_valid(t, p, q));
                lemma_span_items_frame(t, t2, p, q);
            }
        }
        s.update(Some((best_i, best_j)));
        proof {
            assert(s.sequence@ == swap_seq(t, best_i as int, best_j as int));
            assert(swap_optimal(inst, t, s.value as int));
        }
        return true;
    }
    false
}

/// Scan all 2-opt moves, apply the most improving one if any exists.
#[verifier::loop_isolation(false)]
#[verifier::rlimit(80)]
fn best_2opt<'a>(s: &mut Solution<'a>) -> (improved: bool)
    requires
        old(s).wf(),
    ensures
        final(s).wf(),
        final(s).subseq_matrix.instance == old(s).subseq_matrix.instance,
        improved ==> final(s).value < old(s).value,
        !improved ==> *final(s) == *old(s),
        !improved ==> two_opt_optimal(old(s).inst(), old(s).sequence@, old(s).value as int),
        improved ==> two_opt_optimal(old(s).inst(), old(s).sequence@, final(s).value as int),
        improved ==> exists|i: int, j: int|
            1 <= i && i + 1 <= j && j + 1 < old(s).sequence@.len() && final(s).sequence@
                == #[trigger] two_opt_seq(old(s).sequence@, i, j),
{
    let ghost t = s.sequence@;
    let ghost inst = s.inst();
    let ghost n = s.n();
    proof {
        lemma_scan_setup(inst, t);
    }
    let len = s.sequence.len();
    let last_idx = len - 1;
    let mut best_delta: i32 = 0;
    let mut best_i: usize = 0;
    let mut best_j: usize = 0;
    let mut i: usize = 1;
    while i + 2 < len
        invariant
            old(s) == s,
            old(s).wf(),
            t == s.sequence@,
            inst == s.inst(),
            n == s.n(),
            len == t.len(),
            last_idx == len - 1,
            1 <= i && i <= len,
            best_delta <= 0,
            best_delta < 0 ==> 1 <= best_i as int && best_i < best_j && best_j + 1 < len
                && replay_cost(inst, two_opt_seq(t, best_i as int, best_j as int)) == s.value
                + best_delta,
            forall|x: int, y: int|
                1 <= x < i as int && x + 1 <= y && y + 1 < len ==> replay_cost(
                    inst,
                    #[trigger] two_opt_seq(t, x, y),
                ) >= s.value + best_delta,
        decreases len - i,
    {
        let mut j: usize = i + 1;
        while j + 1 < len
            invariant
                old(s) == s,
                old(s).wf(),
                t == s.sequence@,
                inst == s.inst(),
                n == s.n(),
                len == t.len(),
                last_idx == len - 1,
                1 <= i && i + 2 < len,
                i + 1 <= j && j <= len,
                best_delta <= 0,
                best_delta < 0 ==> 1 <= best_i as int && best_i < best_j && best_j + 1 < len
                    && replay_cost(inst, two_opt_seq(t, best_i as int, best_j as int)) == s.value
                    + best_delta,
                forall|x: int, y: int|
                    1 <= x < i as int && x + 1 <= y && y + 1 < len ==> replay_cost(
                        inst,
                        #[trigger] two_opt_seq(t, x, y),
                    ) >= s.value + best_delta,
                forall|y: int|
                    i + 1 <= y < j as int ==> replay_cost(
                        inst,
                        #[trigger] two_opt_seq(t, i as int, y),
                    ) >= s.value + best_delta,
            decreases len - j,
        {
            let ghost x1 = span_items(t, 0, i - 1);
            let ghost x2 = x1 + span_items(t, j as int, i as int);
            let ghost x3 = x2 + span_items(t, j + 1, last_idx as int);
            proof {
                lemma_scan_setup(inst, t);
                lemma_start_chain(s.subseq_matrix, t, 0, i - 1);
                lemma_extend_chain(s.subseq_matrix, t, x1, j as int, i as int);
                lemma_extend_chain(s.subseq_matrix, t, x2, j + 1, last_idx as int);
                lemma_span_items_valid(inst, t, 0, i - 1);
                lemma_span_items_valid(inst, t, j as int, i as int);
                lemma_span_items_valid(inst, t, j + 1, last_idx as int);
                assert(x3 =~= seq_items(two_opt_seq(t, i as int, j as int)));
                lemma_chain_is_replay(inst, two_opt_seq(t, i as int, j as int));
            }
            let sigma = s
                .subseq_matrix
                .concatenator_for(0, i - 1)
                .concatenate(j, i)
                .concatenate(j + 1, last_idx)
                .into_subsequence();
            let delta = (sigma.c as i32) - (s.value as i32);
            if delta < best_delta {
                best_delta = delta;
                best_i = i;
                best_j = j;
            }
            j = j + 1;
        }
        i = i + 1;
    }
    proof {
        assert forall|x: int, y: int|
            1 <= x && x + 1 <= y && y + 1 < len implies replay_cost(
            inst,
            #[trigger] two_opt_seq(t, x, y),
        ) >= s.value + best_delta by {
            assert(x < i as int);
        }
    }
    if best_delta < 0 {
        let ghost bi = best_i as int;
        let ghost bj = best_j as int;
        let ghost t2 = two_opt_seq(t, bi, bj);
        reverse_range(&mut s.sequence, best_i, best_j + 1);
        proof {
            assert(s.sequence@ =~= t2);
            let p1 = t.subrange(0, bi);
            let mid = t.subrange(bi, bj + 1);
            let p5 = t.subrange(bj + 1, len as int);
            assert(t =~= p1 + mid + p5);
            vstd::seq_lib::lemma_multiset_commutative(p1, mid);
            vstd::seq_lib::lemma_multiset_commutative(p1 + mid, p5);
            vstd::seq_lib::lemma_multiset_commutative(p1, mid.reverse());
            vstd::seq_lib::lemma_multiset_commutative(p1 + mid.reverse(), p5);
            mid.lemma_reverse_to_multiset();
            assert(t2 =~= p1 + mid.reverse() + p5);
            assert(t2.to_multiset() == t.to_multiset());
            lemma_same_multiset_tour(t, t2, n);
            lemma_tour_nodes(inst, t2);
            assert forall|p: int, q: int|
                0 <= p < s.subseq_matrix.dimension && 0 <= q < s.subseq_matrix.dimension
                    && span_clean(p, q, bi, bj) implies #[trigger] s.subseq_matrix.entry_valid(
                t2,
                p,
                q,
            ) by {
                assert(s.subseq_matrix.entry_valid(t, p, q));
                lemma_span_items_frame(t, t2, p, q);
            }
        }
        s.update(Some((best_i, best_j)));
        proof {
            assert(s.sequence@ == two_opt_seq(t, bi, bj));
            assert(two_opt_optimal(inst, t, s.value as int));
        }
        return true;
    }
    false
}

/// Scan all Or-opt relocations of a block of `block_size` nodes and
/// report the most improving one.
#[verifier::loop_isolation(false)]
#[verifier::rlimit(100)]
fn scan_oropt<'a>(s: &Solution<'a>, block_size: usize) -> (res: (i32, usize, usize))
    requires
        s.wf(),
        1 <= block_size <= 3,
    ensures
        res.0 <= 0,
        res.0 < 0 ==> oropt_best_ok(
            s.inst(),
            s.sequence@,
            block_size as int,
            res.1 as int,
            res.2 as int,
            s.value as int,
            res.0 as int,
        ),
        oropt_optimal(s.inst(), s.sequence@, block_size as int, s.value + res.0),
{
    let ghost t = s.sequence@;
    let ghost inst = s.inst();
    let ghost n = s.n();
    let ghost bs = block_size as int;
    proof {
        lemma_scan_setup(inst, t);
    }
    let len = s.sequence.len();
    let last_idx = len - 1;
    let mut best_delta: i32 = 0;
    let mut best_i: usize = 0;
    let mut best_j: usize = 0;
    let mut i: usize = 1;
    while i + block_size < len
        invariant
            s.wf(),
            t == s.sequence@,
            inst == s.inst(),
            n == s.n(),
            len == t.len(),
            last_idx == len - 1,
            1 <= block_size <= 3,
            bs == block_size as int,
            1 <= i && i <= len,
            best_delta <= 0,
            best_delta < 0 ==> oropt_best_ok(
                inst,
                t,
                bs,
                best_i as int,
                best_j as int,
                s.value as int,
                best_delta as int,
            ),
            forall|x: int, y: int|
                1 <= x < i as int && x + bs <= y && y + 1 < len ==> replay_cost(
                    inst,
                    #[trigger] oropt_fwd_seq(t, x, bs, y),
                ) >= s.value + best_delta,
            forall|x: int, y: int|
                1 <= y && y + 2 < x && x < i as int && x + bs < len ==> replay_cost(
                    inst,
                    #[trigger] oropt_back_seq(t, x, bs, y),
                ) >= s.value + best_delta,
        decreases len - i,
    {
        // Relocations of the block to before its current place.
        let mut j: usize = 1;
        while j + 2 < i
            invariant
                s.wf(),
                t == s.sequence@,
                inst == s.inst(),
                n == s.n(),
                len == t.len(),
                last_idx == len - 1,
                1 <= block_size <= 3,
                bs == block_size as int,
                1 <= i && i + block_size < len,
                1 <= j && j <= i,
                best_delta <= 0,
                best_delta < 0 ==> oropt_best_ok(
                    inst,
                    t,
                    bs,
                    best_i as int,
                    best_j as int,
                    s.value as int,
                    best_delta as int,
                ),
                forall|x: int, y: int|
                    1 <= x < i as int && x + bs <= y && y + 1 < len ==> replay_cost(
                        inst,
                        #[trigger] oropt_fwd_seq(t, x, bs, y),
                    ) >= s.value + best_delta,
                forall|x: int, y: int|
                    1 <= y && y + 2 < x && x < i as int && x + bs < len ==> replay_cost(
                        inst,
                        #[trigger] oropt_back_seq(t, x, bs, y),
                    ) >= s.value + best_delta,
                forall|y: int|
                    1 <= y < j as int ==> replay_cost(
                        inst,
                        #[trigger] oropt_back_seq(t, i as int, bs, y),
                    ) >= s.value + best_delta,
            decreases i - j,
        {
            let ghost x1 = span_items(t, 0, j as int);
            let ghost x2 = x1 + span_items(t, i as int, i + block_size - 1);
            let ghost x3 = x2 + span_items(t, j + 1, i - 1);
            let ghost x4 = x3 + span_items(t, i + block_size, last_idx as int);
            proof {
                lemma_scan_setup(inst, t);
                lemma_start_chain(s.subseq_matrix, t, 0, j as int);
                lemma_extend_chain(s.subseq_matrix, t, x1, i as int, i + bs - 1);
                lemma_extend_chain(s.subseq_matrix, t, x2, j + 1, i - 1);
                lemma_extend_chain(s.subseq_matrix, t, x3, i + bs, last_idx as int);
                lemma_span_items_valid(inst, t, 0, j as int);
                lemma_span_items_valid(inst, t, i as int, i + bs - 1);
                lemma_span_items_valid(inst, t, j + 1, i - 1);
                lemma_span_items_valid(inst, t, i + bs, last_idx as int);
                assert(x4 =~= seq_items(oropt_back_seq(t, i as int, bs, j as int)));
                lemma_chain_is_replay(inst, oropt_back_seq(t, i as int, bs, j as int));
            }
            let sigma = s
                .subseq_matrix
                .concatenator_for(0, j)
                .concatenate(i, i + block_size - 1)
                .concatenate(j + 1, i - 1)
                .concatenate(i + block_size, last_idx)
                .into_subsequence();
            let delta = (sigma.c as i32) - (s.value as i32);
            if delta < best_delta {
                best_delta = delta;
                best_i = i;
                best_j = j;
            }
            j = j + 1;
        }
        // Relocations of the block to after its current place.
        let mut j2: usize = i + block_size;
        while j2 + 1 < len
            invariant
                s.wf(),
                t == s.sequence@,
                inst == s.inst(),
                n == s.n(),
                len == t.len(),
                last_idx == len - 1,
                1 <= block_size <= 3,
                bs == block_size as int,
                1 <= i && i + block_size < len,
                i + block_size <= j2 && j2 <= len,
                best_delta <= 0,
                best_delta < 0 ==> oropt_best_ok(
                    inst,
                    t,
                    bs,
                    best_i as int,
                    best_j as int,
                    s.value as int,
                    best_delta as int,
                ),
                forall|x: int, y: int|
                    1 <= x < i as int && x + bs <= y && y + 1 < len ==> replay_cost(
                        inst,
                        #[trigger] oropt_fwd_seq(t, x, bs, y),
                    ) >= s.value + best_delta,
                forall|x: int, y: int|
                    1 <= y && y + 2 < x && x < i as int && x + bs < len ==> replay_cost(
                        inst,
                        #[trigger] oropt_back_seq(t, x, bs, y),
                    ) >= s.value + best_delta,
                forall|y: int|
                    1 <= y && y + 2 < i as int ==> replay_cost(
                        inst,
                        #[trigger] oropt_back_seq(t, i as int, bs, y),
                    ) >= s.value + best_delta,
                forall|y: int|
                    i + bs <= y < j2 as int ==> replay_cost(
                        inst,
                        #[trigger] oropt_fwd_seq(t, i as int, bs, y),
                    ) >= s.value + best_delta,
            decreases len - j2,
        {
            let ghost x1 = span_items(t, 0, i - 1);
            let ghost x2 = x1 + span_items(t, i + block_size, j2 as int);
            let ghost x3 = x2 + span_items(t, i as int, i + block_size - 1);
            let ghost x4 = x3 + span_items(t, j2 + 1, last_idx as int);
            proof {
                lemma_scan_setup(inst, t);
                lemma_start_chain(s.subseq_matrix, t, 0, i - 1);
                lemma_extend_chain(s.subseq_matrix, t, x1, i + bs, j2 as int);
                lemma_extend_chain(s.subseq_matrix, t, x2, i as int, i + bs - 1);
                lemma_extend_chain(s.subseq_matrix, t, x3, j2 + 1, last_idx as int);
                lemma_span_items_valid(inst, t, 0, i - 1);
                lemma_span_items_valid(inst, t, i + bs, j2 as int);
                lemma_span_items_valid(inst, t, i as int, i + bs - 1);
                lemma_span_items_valid(inst, t, j2 + 1, last_idx as int);
                assert(x4 =~= seq_items(oropt_fwd_seq(t, i as int, bs, j2 as int)));
                lemma_chain_is_replay(inst, oropt_fwd_seq(t, i as int, bs, j2 as int));
            }
            let sigma = s
                .subseq_matrix
                .concatenator_for(0, i - 1)
                .concatenate(i + block_size, j2)
                .concatenate(i, i + block_size - 1)
                .concatenate(j2 + 1, last_idx)
                .into_subsequence();
            let delta = (sigma.c as i32) - (s.value as i32);
            if delta < best_delta {
                best_delta = delta;
                best_i = i;
                best_j = j2;
            }
            j2 = j2 + 1;
        }
        i = i + 1;
    }
    proof {
        assert forall|x: int, y: int|
            1 <= x && x + bs <= y && y + 1 < len implies replay_cost(
            inst,
            #[trigger] oropt_fwd_seq(t, x, bs, y),
        ) >= s.value + best_delta by {
            assert(x < i as int);
        }
        assert forall|x: int, y: int|
            1 <= y && y + 2 < x && x + bs < len implies replay_cost(
            inst,
            #[trigger] oropt_back_seq(t, x, bs, y),
        ) >= s.value + best_delta by {
            assert(x < i as int);
        }
    }
    (best_delta, best_i, best_j)
}

/// Scan all Or-opt relocations of a block of `block_size` nodes, apply
/// the most improving one if any exists.
#[verifier::loop_isolation(false)]
#[verifier::rlimit(100)]
fn best_oropt<'a>(s: &mut Solution<'a>, block_size: usize) -> (improved: bool)
    requires
        old(s).wf(),
        1 <= block_size <= 3,
    ensures
        final(s).wf(),
        final(s).subseq_matrix.instance == old(s).subseq_matrix.instance,
        improved ==> final(s).value < old(s).value,
        !improved ==> *final(s) == *old(s),
        !improved ==> oropt_optimal(
            old(s).inst(),
            old(s).sequence@,
            block_size as int,
            old(s).value as int,
        ),
        improved ==> oropt_optimal(
            old(s).inst(),
            old(s).sequence@,
            block_size as int,
            final(s).value as int,
        ),
        improved ==> exists|i: int, j: int|
            #![trigger oropt_fwd_seq(old(s).sequence@, i, block_size as int, j)]
            #![trigger oropt_back_seq(old(s).sequence@, i, block_size as int, j)]
            (1 <= i && i + block_size <= j && j + 1 < old(s).sequence@.len() && final(s).sequence@
                == oropt_fwd_seq(old(s).sequence@, i, block_size as int, j)) || (1 <= j && j + 2
                < i && i + block_size < old(s).sequence@.len() && final(s).sequence@
                == oropt_back_seq(old(s).sequence@, i, block_size as int, j)),
{
    let ghost t = s.sequence@;
    let ghost inst = s.inst();
    let ghost n = s.n();
    let ghost bs = block_size as int;
    let len = s.sequence.len();
    let (best_delta, best_i, best_j) = scan_oropt(s, block_size);
    if best_delta < 0 {
        let ghost bi = best_i as int;
        let ghost bj = best_j as int;
        if best_i < best_j {
            let ghost t2 = oropt_fwd_seq(t, bi, bs, bj);
            rotate_left_range(&mut s.sequence, best_i, best_j + 1, block_size);
            proof {
                assert(s.sequence@ =~= t2);
                let p1 = t.subrange(0, bi);
                let blk = t.subrange(bi, bi + bs);
                let mid = t.subrange(bi + bs, bj + 1);
                let p5 = t.subrange(bj + 1, len as int);
                let emp = Seq::<usize>::empty();
                assert(t =~= p1 + blk + emp + mid + p5);
                assert(t2 =~= p1 + mid + emp + blk + p5);
                lemma_exchange_multiset(p1, blk, emp, mid, p5);
                lemma_same_multiset_tour(t, t2, n);
                lemma_tour_nodes(inst, t2);
                assert forall|p: int, q: int|
                    0 <= p < s.subseq_matrix.dimension && 0 <= q < s.subseq_matrix.dimension
                        && span_clean(p, q, bi, bj) implies #[trigger] s.subseq_matrix.entry_valid(
                    t2,
                    p,
                    q,
                ) by {
                    assert(s.subseq_matrix.entry_valid(t, p, q));
                    lemma_span_items_frame(t, t2, p, q);
                }
            }
            s.update(Some((best_i, best_j)));
            proof {
                assert(s.sequence@ == oropt_fwd_seq(t, bi, bs, bj));
                assert(oropt_optimal(inst, t, bs, s.value as int));
            }
        } else {
            let ghost t2 = oropt_back_seq(t, bi, bs, bj);
            rotate_left_range(
                &mut s.sequence,
                best_j + 1,
                best_i + block_size,
                best_i - (best_j + 1),
            );
            proof {
                assert(s.sequence@ =~= t2);
                let p1 = t.subrange(0, bj + 1);
                let mid = t.subrange(bj + 1, bi);
                let blk = t.subrange(bi, bi + bs);
                let p5 = t.subrange(bi + bs, len as int);
                let emp = Seq::<usize>::empty();
                assert(t =~= p1 + mid + emp + blk + p5);
                assert(t2 =~= p1 + blk + emp + mid + p5);
                lemma_exchange_multiset(p1, mid, emp, blk, p5);
                lemma_same_multiset_tour(t, t2, n);
                lemma_tour_nodes(inst, t2);
                assert forall|p: int, q: int|
                    0 <= p < s.subseq_matrix.dimension && 0 <= q < s.subseq_matrix.dimension
                        && span_clean(p, q, bj, bi + bs) implies #[trigger] s.subseq_matrix.entry_valid(
                    t2,
                    p,
                    q,
                ) by {
                    assert(s.subseq_matrix.entry_valid(t, p, q));
                    lemma_span_items_frame(t, t2, p, q);
                }
            }
            s.update(Some((best_j, best_i + block_size)));
            proof {
                assert(s.sequence@ == oropt_back_seq(t, bi, bs, bj));
                assert(oropt_optimal(inst, t, bs, s.value as int));
            }
        }
        return true;
    }
    false
}

/// What the best-so-far Or-opt move promises: a valid parameter pair
/// whose relocated tour costs exactly `value + delta`.
pub open spec fn oropt_best_ok(
    inst: Instance,
    t: Seq<usize>,
    bs: int,
    bi: int,
    bj: int,
    value: int,
    delta: int,
) -> bool {
    &&& 1 <= bi
    &&& bi + bs < t.len()
    &&& if bi < bj {
        &&& bi + bs <= bj
        &&& bj + 1 < t.len()
        &&& replay_cost(inst, oropt_fwd_seq(t, bi, bs, bj)) == value + delta
    } else {
        &&& 1 <= bj
        &&& bj + 2 < bi
        &&& replay_cost(inst, oropt_back_seq(t, bi, bs, bj)) == value + delta
    }
}

/// The five neighborhoods the search alternates between.
#[derive(Clone, Copy)]
enum Searches {
    Swap,
    TwoOpt,
    OrOpt(usize),
}

/// An Or-opt entry carries a block size the scans accept.
spec fn search_ok(x: Searches) -> bool {
    match x {
        Searches::OrOpt(b) => 1 <= b <= 3,
        _ => true,
    }
}

/// Any element other than the removed one survives a `swap_remove`.
proof fn lemma_swap_remove_keeps<A>(s: Seq<A>, i: int, x: A)
    requires
        0 <= i < s.len(),
        s.contains(x),
        x != s[i],
    ensures
        s.update(i, s.last()).drop_last().contains(x),
{
    let k = choose|k: int| 0 <= k < s.len() && s[k] == x;
    let r = s.update(i, s.last()).drop_last();
    if k < s.len() - 1 && k != i {
        assert(r[k] == x);
    } else {
        assert(r[i] == x);
    }
}

/// The full active-neighborhood list.
fn all_searches() -> (r: Vec<Searches>)
    ensures
        r@.len() == 5,
        forall|k: int| 0 <= k < r@.len() ==> search_ok(#[trigger] r@[k]),
        r@[0] == Searches::Swap,
        r@[1] == Searches::TwoOpt,
        r@[2] == Searches::OrOpt(1usize),
        r@[3] == Searches::OrOpt(2usize),
        r@[4] == Searches::OrOpt(3usize),
{
    let mut r: Vec<Searches> = Vec::new();
    r.push(Searches::Swap);
    r.push(Searches::TwoOpt);
    r.push(Searches::OrOpt(1));
    r.push(Searches::OrOpt(2));
    r.push(Searches::OrOpt(3));
    r
}

/// Hill-climb `s` to a local optimum: repeatedly pick an active
/// neighborhood at random, apply its best improving move if one exists
/// (which re-activates all five), and otherwise retire it.  The search
/// ends when no neighborhood is active; the cost never increases, and
/// every intermediate state keeps the solution invariant.
pub fn local_search<'a>(s: &mut Solution<'a>)
    requires
        old(s).wf(),
    ensures
        final(s).wf(),
        final(s).subseq_matrix.instance == old(s).subseq_matrix.instance,
        final(s).value <= old(s).value,
        swap_optimal(final(s).inst(), final(s).sequence@, final(s).value as int),
        two_opt_optimal(final(s).inst(), final(s).sequence@, final(s).value as int),
        forall|b: int|
            1 <= b <= 3 ==> oropt_optimal(
                final(s).inst(),
                final(s).sequence@,
                b,
                final(s).value as int,
            ),
{
    let mut nl = all_searches();
    while nl.len() > 0
        invariant
            s.wf(),
            s.subseq_matrix.instance == old(s).subseq_matrix.instance,
            s.value <= old(s).value,
            forall|k: int| 0 <= k < nl@.len() ==> search_ok(#[trigger] nl@[k]),
            !nl@.contains(Searches::Swap) ==> swap_optimal(
                s.inst(),
                s.sequence@,
                s.value as int,
            ),
            !nl@.contains(Searches::TwoOpt) ==> two_opt_optimal(
                s.inst(),
                s.sequence@,
                s.value as int,
            ),
            forall|b: int|
                1 <= b <= 3 && !nl@.contains(Searches::OrOpt(b as usize)) ==> oropt_optimal(
                    s.inst(),
                    s.sequence@,
                    b,
                    s.value as int,
                ),
        decreases s.value, nl.len(),
    {
        let chosen = rand_below(nl.len());
        let search_type = nl[chosen];
        let improved = match search_type {
            Searches::Swap => best_swap(s),
            Searches::TwoOpt => best_2opt(s),
            Searches::OrOpt(block_size) => best_oropt(s, block_size),
        };
        if improved {
            nl = all_searches();
            proof {
                assert(nl@.contains(Searches::Swap)) by {
                    assert(nl@[0] == Searches::Swap);
                }
                assert(nl@.contains(Searches::TwoOpt)) by {
                    assert(nl@[1] == Searches::TwoOpt);
                }
                assert forall|b: int| 1 <= b <= 3 implies #[trigger] nl@.contains(
                    Searches::OrOpt(b as usize),
                ) by {
                    assert(nl@[1 + b] == Searches::OrOpt(b as usize));
                }
            }
        } else {
            let ghost old_nl = nl@;
            nl.swap_remove(chosen);
            proof {
                let scanned = old_nl[chosen as int];
                if !nl@.contains(Searches::Swap) && scanned != Searches::Swap {
                    if old_nl.contains(Searches::Swap) {
                        lemma_swap_remove_keeps(old_nl, chosen as int, Searches::Swap);
                    }
                }
                if !nl@.contains(Searches::TwoOpt) && scanned != Searches::TwoOpt {
                    if old_nl.contains(Searches::TwoOpt) {
                        lemma_swap_remove_keeps(old_nl, chosen as int, Searches::TwoOpt);
                    }
                }
                assert forall|b: int|
                    1 <= b <= 3 && !nl@.contains(Searches::OrOpt(b as usize)) implies oropt_optimal(
                    s.inst(),
                    s.sequence@,
                    b,
                    s.value as int,
                ) by {
                    if scanned != Searches::OrOpt(b as usize) {
                        if old_nl.contains(Searches::OrOpt(b as usize)) {
                            lemma_swap_remove_keeps(
                                old_nl,
                                chosen as int,
                                Searches::OrOpt(b as usize),
                            );
                        }
                    }
                }
            }
        }
    }
}

} // verus!
