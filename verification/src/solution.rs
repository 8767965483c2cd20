//! A tour together with its cached aggregates and its cost.

use vstd::prelude::*;
use vstd::seq_lib::lemma_multiset_commutative;
use vstd::seq_lib::to_multiset_build;
use vstd::seq_lib::to_multiset_contains;

use crate::instance::Instance;
use crate::subsequence::SubsequenceMatrix;
use crate::subsequence::zero_agg;
use crate::subsequence::lemma_chain_is_replay;
use crate::subsequence::lemma_span_index;
use crate::subsequence::lemma_span_items_frame;
use crate::subsequence::replay_cost;
use crate::subsequence::seq_items;
use crate::subsequence::span_clean;
use crate::subsequence::span_items;
use crate::subsequence::valid_tour_nodes;

verus! {

/// The nodes `0, 1, ..., n - 1`, in order.
pub open spec fn all_nodes(n: int) -> Seq<usize> {
    Seq::new(n as nat, |i: int| i as usize)
}

/// A closed depot tour over `n` nodes: `n + 1` positions, the depot at
/// both ends, and the first `n` positions a permutation of all nodes.
pub open spec fn is_tour(s: Seq<usize>, n: int) -> bool {
    &&& n >= 1
    &&& s.len() == n + 1
    &&& s[0] == 0
    &&& s[n] == 0
    &&& s.subrange(0, n).to_multiset() == all_nodes(n).to_multiset()
}

/// The tour with the interior blocks `[i, i + bi)` and `[j, j + bj)`
/// exchanged, each keeping its internal order.
pub open spec fn double_bridge_seq(t: Seq<usize>, i: int, j: int, bi: int, bj: int) -> Seq<usize> {
    t.subrange(0, i) + t.subrange(j, j + bj) + t.subrange(i + bi, j) + t.subrange(i, i + bi)
        + t.subrange(j + bj, t.len() as int)
}

/// The largest block length the perturbation draws on an instance of
/// `n` nodes: `max(2, ceil(n / 10))`.
pub open spec fn bridge_block_limit(n: int) -> int {
    if (n + 9) / 10 < 2 {
        2
    } else {
        (n + 9) / 10
    }
}

/// `r` is `t` with two disjoint interior blocks of drawable lengths
/// exchanged, neither reversed.
pub open spec fn is_double_bridge_of(r: Seq<usize>, t: Seq<usize>, n: int) -> bool {
    exists|a: int, b: int, ba: int, bb: int|
        1 <= a && 2 <= ba <= bridge_block_limit(n) && 2 <= bb <= bridge_block_limit(n) && a + ba
            <= b && b + bb <= n && r == #[trigger] double_bridge_seq(t, a, b, ba, bb)
}

/// On six or more nodes, every drawable pair of block lengths leaves at
/// least one valid placement for the second block, whichever start the
/// first block drew.
pub proof fn lemma_bridge_placements(n: int, bsi: int, bsj: int, i: int)
    requires
        n >= 6,
        2 <= bsi <= bridge_block_limit(n),
        2 <= bsj <= bridge_block_limit(n),
    ensures
        bsi + 2 <= n,
        1 <= i <= n - bsi - 1 ==> i > bsj || n + 1 - i - bsi - bsj >= 1,
{
    let u = bridge_block_limit(n);
    assert(3 * u <= n) by {
        if (n + 9) / 10 < 2 {
        } else {
            let q = (n + 9) / 10;
            assert(10 * q <= n + 9);
            assert(30 * q <= 3 * n + 27);
            assert(3 * n + 27 <= 10 * n);
        }
    }
}

/// `w` is `v` with the block of positions `[lo, hi)` reversed in place.
pub open spec fn reversed_within(v: Seq<usize>, w: Seq<usize>, lo: int, hi: int) -> bool {
    &&& w.len() == v.len()
    &&& forall|k: int| 0 <= k < lo ==> w[k] == v[k]
    &&& forall|k: int| hi <= k < v.len() ==> w[k] == v[k]
    &&& forall|k: int| lo <= k < hi ==> w[k] == v[lo + hi - 1 - k]
}

/// Reversing the whole span `[i, j + bj)` and then each of its three
/// pieces at their landing places realizes exactly the double-bridge
/// block exchange, with neither block internally reversed.
pub proof fn lemma_four_reversals(
    t: Seq<usize>,
    t1: Seq<usize>,
    t2: Seq<usize>,
    t3: Seq<usize>,
    t4: Seq<usize>,
    i: int,
    j: int,
    bi: int,
    bj: int,
)
    requires
        1 <= i,
        1 <= bi,
        1 <= bj,
        i + bi <= j,
        j + bj <= t.len(),
        reversed_within(t, t1, i, j + bj),
        reversed_within(t1, t2, i, i + bj),
        reversed_within(t2, t3, i + bj, i + bj + (j - (i + bi))),
        reversed_within(t3, t4, j + bj - bi, j + bj),
    ensures
        t4 == double_bridge_seq(t, i, j, bi, bj),
{
    let len = t.len() as int;
    let iel = i + bi;
    let jel = j + bj;
    let ml = i + bj;
    let m2l = ml + (j - iel);
    assert(m2l == jel - bi);
    assert forall|k: int| 0 <= k < i || jel <= k < len implies t4[k] == t[k] by {
        assert(t4[k] == t3[k]);
        assert(t3[k] == t2[k]);
        assert(t2[k] == t1[k]);
    }
    assert forall|k: int| i <= k < ml implies t4[k] == t[j + (k - i)] by {
        assert(t4[k] == t3[k]);
        assert(t3[k] == t2[k]);
        assert(t2[k] == t1[i + ml - 1 - k]);
        assert(t1[i + ml - 1 - k] == t[i + jel - 1 - (i + ml - 1 - k)]);
    }
    assert forall|k: int| ml <= k < m2l implies t4[k] == t[iel + (k - ml)] by {
        assert(t4[k] == t3[k]);
        assert(t3[k] == t2[ml + m2l - 1 - k]);
        assert(t2[ml + m2l - 1 - k] == t1[ml + m2l - 1 - k]);
        assert(t1[ml + m2l - 1 - k] == t[i + jel - 1 - (ml + m2l - 1 - k)]);
    }
    assert forall|k: int| m2l <= k < jel implies t4[k] == t[i + (k - m2l)] by {
        assert(t4[k] == t3[m2l + jel - 1 - k]);
        assert(t3[m2l + jel - 1 - k] == t2[m2l + jel - 1 - k]);
        assert(t2[m2l + jel - 1 - k] == t1[m2l + jel - 1 - k]);
        assert(t1[m2l + jel - 1 - k] == t[i + jel - 1 - (m2l + jel - 1 - k)]);
    }
    assert(t4 =~= double_bridge_seq(t, i, j, bi, bj));
}

/// A tour only names nodes below `n`.
pub proof fn lemma_tour_values(n: int, s: Seq<usize>)
    requires
        is_tour(s, n),
    ensures
        forall|p: int| 0 <= p < s.len() ==> (#[trigger] s[p]) < n,
{
    let sub = s.subrange(0, n);
    assert forall|p: int| 0 <= p < s.len() implies (#[trigger] s[p]) < n by {
        if p < n {
            to_multiset_contains(sub, sub[p]);
            assert(sub.contains(sub[p]));
            to_multiset_contains(all_nodes(n), sub[p]);
            assert(all_nodes(n).contains(sub[p]));
            let k = choose|k: int| 0 <= k < n && all_nodes(n)[k] == sub[p];
            assert(sub[p] == k as usize);
        }
    }
}

/// The same fact phrased against an instance's node count.
pub proof fn lemma_tour_nodes(inst: Instance, s: Seq<usize>)
    requires
        is_tour(s, inst.dimension as int),
    ensures
        valid_tour_nodes(inst, s),
{
    lemma_tour_values(inst.dimension as int, s);
}

/// Exchanging the second and fourth of five contiguous pieces does not
/// change the multiset of elements.
pub proof fn lemma_exchange_multiset<A>(
    p1: Seq<A>,
    p2: Seq<A>,
    p3: Seq<A>,
    p4: Seq<A>,
    p5: Seq<A>,
)
    ensures
        (p1 + p2 + p3 + p4 + p5).to_multiset() == (p1 + p4 + p3 + p2 + p5).to_multiset(),
{
    lemma_multiset_commutative(p1, p2);
    lemma_multiset_commutative(p1 + p2, p3);
    lemma_multiset_commutative(p1 + p2 + p3, p4);
    lemma_multiset_commutative(p1 + p2 + p3 + p4, p5);
    lemma_multiset_commutative(p1, p4);
    lemma_multiset_commutative(p1 + p4, p3);
    lemma_multiset_commutative(p1 + p4 + p3, p2);
    lemma_multiset_commutative(p1 + p4 + p3 + p2, p5);
    assert((p1 + p2 + p3 + p4 + p5).to_multiset() =~= (p1 + p4 + p3 + p2 + p5).to_multiset());
}

/// A sequence with the same elements as a tour, the depot still at both
/// ends, is again a tour.
pub proof fn lemma_same_multiset_tour(t1: Seq<usize>, t2: Seq<usize>, n: int)
    requires
        is_tour(t1, n),
        t2.len() == n + 1,
        t2[0] == 0,
        t2[n] == 0,
        t2.to_multiset() == t1.to_multiset(),
    ensures
        is_tour(t2, n),
{
    let s1 = t1.subrange(0, n);
    let s2 = t2.subrange(0, n);
    assert(t1 =~= s1.push(t1[n]));
    assert(t2 =~= s2.push(t2[n]));
    to_multiset_build(s1, t1[n]);
    to_multiset_build(s2, t2[n]);
    assert(s1.to_multiset().insert(0usize) == s2.to_multiset().insert(0usize));
    assert forall|v: usize| #[trigger] s2.to_multiset().count(v) == s1.to_multiset().count(v) by {
        assert(s1.to_multiset().insert(0usize).count(v) == s2.to_multiset().insert(0usize).count(
            v,
        ));
    }
    assert(s2.to_multiset() =~= s1.to_multiset());
}

/// Reverse the elements of `v[lo..hi)` in place.
pub fn reverse_range(v: &mut Vec<usize>, lo: usize, hi: usize)
    requires
        lo <= hi,
        hi <= old(v)@.len(),
    ensures
        final(v)@.len() == old(v)@.len(),
        forall|k: int| 0 <= k < lo ==> final(v)@[k] == old(v)@[k],
        forall|k: int| hi <= k < old(v)@.len() ==> final(v)@[k] == old(v)@[k],
        forall|k: int| lo <= k < hi ==> final(v)@[k] == old(v)@[lo + hi - 1 - k],
{
    let mut a = lo;
    let mut b = hi;
    while b - a >= 2
        invariant
            lo <= a && a <= b && b <= hi,
            hi <= old(v)@.len(),
            v@.len() == old(v)@.len(),
            a - lo == hi - b,
            forall|k: int| 0 <= k < lo ==> v@[k] == old(v)@[k],
            forall|k: int| hi <= k < old(v)@.len() ==> v@[k] == old(v)@[k],
            forall|k: int| lo <= k < a ==> v@[k] == old(v)@[lo + hi - 1 - k],
            forall|k: int| b <= k < hi ==> v@[k] == old(v)@[lo + hi - 1 - k],
            forall|k: int| a <= k < b ==> v@[k] == old(v)@[k],
        decreases b - a,
    {
        let x = v[a];
        let y = v[b - 1];
        v.set(a, y);
        v.set(b - 1, x);
        a = a + 1;
        b = b - 1;
    }
}

/// Rotate the elements of `v[lo..hi)` left by `k` places: the block
/// `v[lo..lo + k)` moves to the end of the range.
pub fn rotate_left_range(v: &mut Vec<usize>, lo: usize, hi: usize, k: usize)
    requires
        lo <= hi,
        hi <= old(v)@.len(),
        k <= hi - lo,
    ensures
        final(v)@.len() == old(v)@.len(),
        forall|q: int| 0 <= q < lo ==> final(v)@[q] == old(v)@[q],
        forall|q: int| hi <= q < old(v)@.len() ==> final(v)@[q] == old(v)@[q],
        forall|q: int| lo <= q < hi - k ==> final(v)@[q] == old(v)@[q + k],
        forall|q: int| hi - k <= q < hi ==> final(v)@[q] == old(v)@[q - (hi - k) + lo],
{
    let mut tmp: Vec<usize> = Vec::new();
    let mut s: usize = 0;
    while s < k
        invariant
            s <= k,
            k <= hi - lo && lo <= hi && hi <= v@.len(),
            v@ == old(v)@,
            tmp@.len() == s,
            forall|q: int| 0 <= q < s as int ==> tmp@[q] == v@[lo + q],
        decreases k - s,
    {
        tmp.push(v[lo + s]);
        s = s + 1;
    }
    let mut idx: usize = lo;
    while idx + k < hi
        invariant
            lo <= idx && idx <= hi,
            idx + k <= hi || k == 0,
            k <= hi - lo && lo <= hi && hi <= old(v)@.len(),
            v@.len() == old(v)@.len(),
            tmp@.len() == k,
            forall|q: int| 0 <= q < k as int ==> tmp@[q] == old(v)@[lo + q],
            forall|q: int| 0 <= q < lo ==> v@[q] == old(v)@[q],
            forall|q: int| idx <= q < old(v)@.len() ==> v@[q] == old(v)@[q],
            forall|q: int| lo <= q < idx ==> v@[q] == old(v)@[q + k],
        decreases hi - idx,
    {
        let moved = v[idx + k];
        v.set(idx, moved);
        idx = idx + 1;
    }
    let mut w: usize = 0;
    while w < k
        invariant
            w <= k,
            k <= hi - lo && lo <= hi && hi <= old(v)@.len(),
            v@.len() == old(v)@.len(),
            tmp@.len() == k,
            forall|q: int| 0 <= q < k as int ==> tmp@[q] == old(v)@[lo + q],
            forall|q: int| 0 <= q < lo ==> v@[q] == old(v)@[q],
            forall|q: int| hi <= q < old(v)@.len() ==> v@[q] == old(v)@[q],
            forall|q: int| lo <= q < hi - k ==> v@[q] == old(v)@[q + k],
            forall|q: int|
                (hi - k) + w <= q < hi ==> v@[q] == old(v)@[q],
            forall|q: int| hi - k <= q < (hi - k) + w ==> v@[q] == old(v)@[q - (hi - k) + lo],
        decreases k - w,
    {
        v.set(hi - k + w, tmp[w]);
        w = w + 1;
    }
}

/// Copy a vector of nodes element by element.
pub fn clone_nodes(v: &Vec<usize>) -> (r: Vec<usize>)
    ensures
        r@ == v@,
{
    let mut r: Vec<usize> = Vec::new();
    let mut k: usize = 0;
    while k < v.len()
        invariant
            k <= v@.len(),
            r@ =~= v@.subrange(0, k as int),
        decreases v@.len() - k,
    {
        r.push(v[k]);
        k = k + 1;
    }
    proof {
        assert(r@ =~= v@);
    }
    r
}

/// A tour, its total latency-weighted cost, and the aggregate table that
/// prices its candidate moves.
#[derive(Debug)]
pub struct Solution<'a> {
    pub sequence: Vec<usize>,
    pub value: u32,
    pub subseq_matrix: SubsequenceMatrix<'a>,
}

impl<'a> Solution<'a> {
    /// The instance this solution lives on.
    pub open spec fn inst(self) -> Instance {
        *self.subseq_matrix.instance
    }

    /// The node count of that instance.
    pub open spec fn n(self) -> int {
        self.inst().dimension as int
    }

    /// The solution invariant: the sequence is a closed tour, the
    /// aggregate table reflects it, and `value` is exactly the cost
    /// replayed over the whole sequence.
    pub open spec fn wf(self) -> bool {
        &&& self.inst().wf()
        &&& self.inst().fits()
        &&& is_tour(self.sequence@, self.n())
        &&& self.subseq_matrix.valid_for(self.sequence@)
        &&& self.value == replay_cost(self.inst(), self.sequence@)
    }

    /// Wrap a sequence with a fresh aggregate table; the table reflects
    /// nothing until `update` runs over the full range.
    pub fn new(sequence: Vec<usize>, value: u32, instance: &'a Instance) -> (s: Solution<'a>)
        requires
            instance.wf(),
            instance.fits(),
        ensures
            s.sequence == sequence,
            s.value == value,
            s.subseq_matrix.wf(),
            s.subseq_matrix.instance == instance,
            forall|k: int|
                0 <= k < s.subseq_matrix.matrix@.len() ==> (
                #[trigger] s.subseq_matrix.matrix@[k])@ == zero_agg(),
    {
        Solution { sequence, value, subseq_matrix: SubsequenceMatrix::from(instance) }
    }

    /// Refresh the aggregate table over the dirty window and re-read the
    /// total cost: afterwards `value` equals the cost replayed from
    /// scratch over the whole sequence.
    pub fn update(&mut self, bounds: Option<(usize, usize)>)
        requires
            old(self).subseq_matrix.wf(),
            old(self).inst().fits(),
            old(self).sequence@.len() == old(self).subseq_matrix.dimension,
            valid_tour_nodes(old(self).inst(), old(self).sequence@),
            match bounds {
                Some((b, e)) => b <= e && e < old(self).subseq_matrix.dimension && old(
                    self,
                ).subseq_matrix.clean_valid_for(old(self).sequence@, b as int, e as int),
                None => true,
            },
        ensures
            final(self).sequence == old(self).sequence,
            final(self).subseq_matrix.valid_for(final(self).sequence@),
            final(self).subseq_matrix.dimension == old(self).subseq_matrix.dimension,
            final(self).subseq_matrix.instance == old(self).subseq_matrix.instance,
            final(self).value == replay_cost(old(self).inst(), old(self).sequence@),
    {
        self.subseq_matrix.update(&self.sequence, bounds);
        self.value = self.subseq_matrix.extract_solution_cost();
        proof {
            let t = self.sequence@;
            let inst = self.inst();
            let last = t.len() - 1;
            lemma_span_index(0, last);
            assert(span_items(t, 0, last) =~= seq_items(t));
            lemma_chain_is_replay(inst, t);
            assert(self.subseq_matrix.entry_valid(t, 0, last));
        }
    }

    /// Exchange the two interior blocks `[i, i + block_size_i)` and
    /// `[j, j + block_size_j)` with four targeted reversals, keeping each
    /// block's internal order, then refresh the affected aggregates.
    pub fn apply_double_bridge(
        &mut self,
        i: usize,
        j: usize,
        block_size_i: usize,
        block_size_j: usize,
    )
        requires
            old(self).wf(),
            1 <= i,
            1 <= block_size_i,
            1 <= block_size_j,
            i + block_size_i <= j,
            j + block_size_j <= old(self).n(),
        ensures
            final(self).wf(),
            final(self).inst() == old(self).inst(),
            final(self).subseq_matrix.instance == old(self).subseq_matrix.instance,
            final(self).sequence@ == double_bridge_seq(
                old(self).sequence@,
                i as int,
                j as int,
                block_size_i as int,
                block_size_j as int,
            ),
            final(self).value == replay_cost(old(self).inst(), final(self).sequence@),
    {
        let ghost t = self.sequence@;
        let ghost n = self.n();
        let ghost len = t.len();
        let i_end = i + block_size_i;
        let j_end = j + block_size_j;
        let mid = i + block_size_j;
        let mid2 = mid + (j - i_end);
        reverse_range(&mut self.sequence, i, j_end);
        let ghost t1 = self.sequence@;
        reverse_range(&mut self.sequence, i, mid);
        let ghost t2 = self.sequence@;
        reverse_range(&mut self.sequence, mid, mid2);
        let ghost t3 = self.sequence@;
        reverse_range(&mut self.sequence, j_end - block_size_i, j_end);
        let ghost t4 = self.sequence@;
        let ghost pre = t.subrange(0, i as int);
        let ghost blk_a = t.subrange(i as int, i_end as int);
        let ghost blk_b = t.subrange(i_end as int, j as int);
        let ghost blk_c = t.subrange(j as int, j_end as int);
        let ghost post = t.subrange(j_end as int, len as int);
        proof {
            assert(reversed_within(t, t1, i as int, j_end as int));
            assert(reversed_within(t1, t2, i as int, mid as int));
            assert(reversed_within(t2, t3, mid as int, mid2 as int));
            assert(reversed_within(t3, t4, j_end - block_size_i, j_end as int));
            lemma_four_reversals(
                t,
                t1,
                t2,
                t3,
                t4,
                i as int,
                j as int,
                block_size_i as int,
                block_size_j as int,
            );
            assert(t =~= pre + blk_a + blk_b + blk_c + post);
            assert(t4 =~= pre + blk_c + blk_b + blk_a + post);
            lemma_exchange_multiset(pre, blk_a, blk_b, blk_c, post);
            assert((pre + blk_a + blk_b + blk_c + post).to_multiset() == t.to_multiset());
            assert((pre + blk_c + blk_b + blk_a + post).to_multiset() == t4.to_multiset());
            lemma_same_multiset_tour(t, t4, n);
            lemma_tour_nodes(self.inst(), t4);
            assert forall|p: int, q: int|
                0 <= p < self.subseq_matrix.dimension && 0 <= q < self.subseq_matrix.dimension
                    && span_clean(p, q, i as int, j_end as int) implies #[trigger] self.subseq_matrix.entry_valid(
                t4,
                p,
                q,
            ) by {
                assert(self.subseq_matrix.entry_valid(t, p, q));
                lemma_span_items_frame(t, t4, p, q);
            }
        }
        self.update(Some((i, j_end)));
    }
}

impl<'a> Clone for Solution<'a> {
    /// An element-for-element copy with the same cached table.
    fn clone(&self) -> (r: Self)
        ensures
            r.sequence@ == self.sequence@,
            r.value == self.value,
            r.subseq_matrix.matrix@ == self.subseq_matrix.matrix@,
            r.subseq_matrix.dimension == self.subseq_matrix.dimension,
            r.subseq_matrix.instance == self.subseq_matrix.instance,
    {
        let sequence = clone_nodes(&self.sequence);
        let mut table: Vec<crate::subsequence::Subsequence> = Vec::new();
        let mut k: usize = 0;
        while k < self.subseq_matrix.matrix.len()
            invariant
                k <= self.subseq_matrix.matrix@.len(),
                table@ =~= self.subseq_matrix.matrix@.subrange(0, k as int),
            decreases self.subseq_matrix.matrix@.len() - k,
        {
            table.push(self.subseq_matrix.matrix[k]);
            k = k + 1;
        }
        proof {
            assert(table@ =~= self.subseq_matrix.matrix@);
        }
        Solution {
            sequence,
            value: self.value,
            subseq_matrix: SubsequenceMatrix {
                matrix: table,
                dimension: self.subseq_matrix.dimension,
                instance: self.subseq_matrix.instance,
            },
        }
    }
}


/// Removing index `i` by swapping in the last element keeps exactly the
/// remaining elements.
pub proof fn lemma_swap_remove_multiset<A>(s: Seq<A>, i: int)
    requires
        0 <= i < s.len(),
    ensures
        s.update(i, s.last()).drop_last().to_multiset() == s.to_multiset().remove(s[i]),
{
    let u = s.update(i, s.last());
    let d = u.drop_last();
    assert(u =~= d.push(u.last()));
    to_multiset_build(d, u.last());
    if i < s.len() - 1 {
        vstd::seq_lib::to_multiset_update(s, i, s.last());
        assert(u.last() == s.last());
        assert forall|v: A|
            #[trigger] d.to_multiset().count(v) == s.to_multiset().remove(s[i]).count(v) by {
            assert(d.push(s.last()).to_multiset().count(v) == d.to_multiset().insert(
                s.last(),
            ).count(v));
            assert(u.to_multiset().count(v) == s.to_multiset().insert(s.last()).remove(
                s[i],
            ).count(v));
        }
        assert(d.to_multiset() =~= s.to_multiset().remove(s[i]));
    } else {
        assert(u =~= s);
        assert(s =~= d.push(s.last()));
        assert forall|v: A|
            #[trigger] d.to_multiset().count(v) == s.to_multiset().remove(s[i]).count(v) by {
            assert(d.push(s.last()).to_multiset().count(v) == d.to_multiset().insert(
                s.last(),
            ).count(v));
        }
        assert(d.to_multiset() =~= s.to_multiset().remove(s[i]));
    }
}

/// The solution invariant depends only on the views of the fields, so a
/// field-for-field copy inherits it.
pub proof fn lemma_wf_congruence<'a>(a: Solution<'a>, b: Solution<'a>)
    requires
        a.wf(),
        b.sequence@ == a.sequence@,
        b.value == a.value,
        b.subseq_matrix.matrix@ == a.subseq_matrix.matrix@,
        b.subseq_matrix.dimension == a.subseq_matrix.dimension,
        b.subseq_matrix.instance == a.subseq_matrix.instance,
    ensures
        b.wf(),
{
    assert forall|p: int, q: int|
        0 <= p < b.subseq_matrix.dimension && 0 <= q
            < b.subseq_matrix.dimension implies #[trigger] b.subseq_matrix.entry_valid(
        b.sequence@,
        p,
        q,
    ) by {
        assert(a.subseq_matrix.entry_valid(a.sequence@, p, q));
        assert(b.subseq_matrix.entry(p, q) == a.subseq_matrix.entry(p, q));
    }
}

} // verus!
