//! Composable subsequence aggregates: the cost model of the engine.
//!
//! A contiguous block of tour positions is summarised by an aggregate
//! `(t, c, w, first, last)`: `t` is the travel length through the block,
//! `w` the number of billable positions (every position but the tour's
//! start counts), `c` the accumulated latency-weighted cost, and `first` /
//! `last` the boundary nodes.  Two adjacent blocks compose in O(1), and
//! composition is associative, so a whole tour and every candidate move
//! can be priced from precomputed block aggregates.

use vstd::prelude::*;

use crate::instance::COST_LIMIT;
use crate::instance::Instance;
use crate::instance::lemma_row_major_bound;
use crate::instance::lemma_row_major_injective;

verus! {

/// The mathematical value of a block summary.
pub ghost struct Agg {
    pub t: int,
    pub c: int,
    pub w: int,
    pub first: int,
    pub last: int,
}

/// The all-zero summary a fresh table is filled with.
pub open spec fn zero_agg() -> Agg {
    Agg { t: 0, c: 0, w: 0, first: 0, last: 0 }
}

/// The summary of a single position holding `node`; only billable
/// positions contribute weight.
pub open spec fn single_agg(node: int, billable: bool) -> Agg {
    Agg { t: 0, c: 0, w: if billable { 1int } else { 0int }, first: node, last: node }
}

/// O(1) composition of the summaries of two adjacent blocks, first `a`
/// then `b`.
pub open spec fn compose(inst: Instance, a: Agg, b: Agg) -> Agg {
    let d = inst.dist(a.last, b.first);
    Agg {
        t: a.t + d + b.t,
        c: a.c + b.w * (a.t + d) + b.c,
        w: a.w + b.w,
        first: a.first,
        last: b.last,
    }
}

/// A block's contents as a sequence of (node, billable) pairs.
pub type Items = Seq<(int, bool)>;

/// The aggregate of a non-empty block, folded up one position at a time.
pub open spec fn chain_agg(inst: Instance, items: Items) -> Agg
    decreases items.len(),
{
    if items.len() <= 1 {
        single_agg(items[0].0, items[0].1)
    } else {
        compose(
            inst,
            chain_agg(inst, items.drop_last()),
            single_agg(items.last().0, items.last().1),
        )
    }
}

/// Every node named by the block exists in the instance.
pub open spec fn valid_items(inst: Instance, items: Items) -> bool {
    forall|k: int| 0 <= k < items.len() ==> 0 <= (#[trigger] items[k]).0 < inst.dimension
}

/// All three aggregate numbers stay below `COST_LIMIT`.
pub open spec fn agg_fits(a: Agg) -> bool {
    &&& 0 <= a.t <= COST_LIMIT
    &&& 0 <= a.c <= COST_LIMIT
    &&& 0 <= a.w <= COST_LIMIT
}

/// The tour positions `i..=j`, ascending when `i <= j` and descending
/// otherwise; a descending span prices a reversed block.
pub open spec fn span(i: int, j: int) -> Seq<int>
    decreases (if i <= j { j - i } else { i - j }),
{
    if i == j {
        seq![i]
    } else if i < j {
        span(i, j - 1).push(j)
    } else {
        span(i, j + 1).push(j)
    }
}

/// The (node, billable) pairs a position sequence reads off a tour.
pub open spec fn tour_items(tour: Seq<usize>, ps: Seq<int>) -> Items {
    ps.map_values(|p: int| (tour[p] as int, p != 0))
}

/// The contents of the block of positions `i..=j` of `tour`.
pub open spec fn span_items(tour: Seq<usize>, i: int, j: int) -> Items {
    tour_items(tour, span(i, j))
}

/// The whole of a node sequence as a block: position 0 is the unbilled
/// start.
pub open spec fn seq_items(s: Seq<usize>) -> Items {
    s.map(|k: int, v: usize| (v as int, k != 0))
}

/// Travel length of a node sequence: the sum of the distances between
/// consecutive nodes.
pub open spec fn path_len(inst: Instance, s: Seq<usize>) -> int
    decreases s.len(),
{
    if s.len() <= 1 {
        0
    } else {
        path_len(inst, s.drop_last()) + inst.dist(s[s.len() - 2] as int, s.last() as int)
    }
}

/// The latency-weighted cost of a node sequence, replayed from scratch:
/// each position after the first is billed the full travel length needed
/// to reach it.
pub open spec fn replay_cost(inst: Instance, s: Seq<usize>) -> int
    decreases s.len(),
{
    if s.len() <= 1 {
        0
    } else {
        replay_cost(inst, s.drop_last()) + path_len(inst, s)
    }
}

/// Composition of aggregates is associative, on all fields.
pub proof fn lemma_compose_assoc(inst: Instance, a: Agg, b: Agg, c: Agg)
    ensures
        compose(inst, compose(inst, a, b), c) == compose(inst, a, compose(inst, b, c)),
{
    let d1 = inst.dist(a.last, b.first);
    let d2 = inst.dist(b.last, c.first);
    let lhs = compose(inst, compose(inst, a, b), c);
    let rhs = compose(inst, a, compose(inst, b, c));
    assert(lhs.c == rhs.c) by (nonlinear_arith)
        requires
            lhs.c == (a.c + b.w * (a.t + d1) + b.c) + c.w * ((a.t + d1 + b.t) + d2) + c.c,
            rhs.c == a.c + (b.w + c.w) * (a.t + d1) + (b.c + c.w * (b.t + d2) + c.c),
    {}
}

/// Folding a concatenation equals composing the two folds.
pub proof fn lemma_chain_app(inst: Instance, x: Items, y: Items)
    requires
        x.len() >= 1,
        y.len() >= 1,
    ensures
        chain_agg(inst, x + y) == compose(inst, chain_agg(inst, x), chain_agg(inst, y)),
    decreases y.len(),
{
    if y.len() == 1 {
        assert((x + y).drop_last() =~= x);
        assert((x + y).last() == y[0]);
    } else {
        assert((x + y).drop_last() =~= x + y.drop_last());
        lemma_chain_app(inst, x, y.drop_last());
        lemma_compose_assoc(
            inst,
            chain_agg(inst, x),
            chain_agg(inst, y.drop_last()),
            single_agg(y.last().0, y.last().1),
        );
    }
}

/// A fold's boundary nodes are the block's boundary nodes.
pub proof fn lemma_chain_ends(inst: Instance, items: Items)
    requires
        items.len() >= 1,
    ensures
        chain_agg(inst, items).first == items[0].0,
        chain_agg(inst, items).last == items.last().0,
    decreases items.len(),
{
    if items.len() > 1 {
        lemma_chain_ends(inst, items.drop_last());
    }
}

/// Bounds on a fold over a block of at most `dimension + 1` valid nodes:
/// with `fits`, every field stays below `COST_LIMIT`.
pub proof fn lemma_chain_bounds(inst: Instance, items: Items)
    requires
        inst.wf(),
        inst.fits(),
        valid_items(inst, items),
        1 <= items.len() <= inst.dimension + 1,
    ensures
        agg_fits(chain_agg(inst, items)),
        chain_agg(inst, items).w <= items.len(),
        chain_agg(inst, items).c <= chain_agg(inst, items).w * chain_agg(inst, items).t,
{
    let k = inst.dimension + 1;
    lemma_chain_bounds_scaled(inst, items);
    let a = chain_agg(inst, items);
    let len = items.len() as int;
    assert(a.w <= len <= k <= COST_LIMIT);
    assert(a.t <= COST_LIMIT && a.c <= COST_LIMIT) by (nonlinear_arith)
        requires
            k * k * a.t <= (len - 1) * COST_LIMIT,
            k * k * a.c <= (len - 1) * (len - 1) * COST_LIMIT,
            0 <= a.t,
            0 <= a.c,
            1 <= len <= k,
            2 <= k,
            COST_LIMIT > 0,
    {}
}

/// The scaled induction behind `lemma_chain_bounds`.
proof fn lemma_chain_bounds_scaled(inst: Instance, items: Items)
    requires
        inst.wf(),
        inst.fits(),
        valid_items(inst, items),
        1 <= items.len() <= inst.dimension + 1,
    ensures
        ({
            let a = chain_agg(inst, items);
            let k = inst.dimension + 1;
            let len = items.len() as int;
            &&& 0 <= a.t
            &&& 0 <= a.c
            &&& 0 <= a.w <= len
            &&& a.c <= a.w * a.t
            &&& k * k * a.t <= (len - 1) * COST_LIMIT
            &&& k * k * a.c <= (len - 1) * (len - 1) * COST_LIMIT
            &&& 0 <= a.first < inst.dimension
            &&& 0 <= a.last < inst.dimension
        }),
    decreases items.len(),
{
    let k = inst.dimension + 1;
    let a = chain_agg(inst, items);
    let len = items.len() as int;
    if items.len() == 1 {
        assert(items[0].0 == a.first);
    } else {
        let prev = items.drop_last();
        assert(valid_items(inst, prev)) by {
            assert(forall|q: int|
                0 <= q < prev.len() ==> (#[trigger] prev[q]) == items[q]);
        }
        lemma_chain_bounds_scaled(inst, prev);
        let b = chain_agg(inst, prev);
        let s = single_agg(items.last().0, items.last().1);
        let d = inst.dist(b.last, s.first);
        assert(0 <= items[len - 1].0 < inst.dimension);
        assert(k * k * d <= COST_LIMIT);
        assert(d >= 0);
        let plen = len - 1;
        assert({
            &&& 0 <= a.t
            &&& 0 <= a.c
            &&& a.c <= a.w * a.t
            &&& k * k * a.t <= (len - 1) * COST_LIMIT
            &&& k * k * a.c <= (len - 1) * (len - 1) * COST_LIMIT
        }) by (nonlinear_arith)
            requires
                a.t == b.t + d,
                a.c == b.c + s.w * (b.t + d),
                a.w == b.w + s.w,
                0 <= s.w <= 1,
                0 <= b.t,
                0 <= b.c,
                0 <= b.w <= plen,
                b.c <= b.w * b.t,
                k * k * b.t <= (plen - 1) * COST_LIMIT,
                k * k * b.c <= (plen - 1) * (plen - 1) * COST_LIMIT,
                k * k * d <= COST_LIMIT,
                0 <= d,
                plen == len - 1,
                1 <= plen,
                2 <= k,
        {}
    }
}

/// Concatenating two valid blocks whose combined size still fits: the
/// composed aggregate is the fold of the concatenation and stays in
/// bounds.
pub proof fn lemma_chain_concat_fits(inst: Instance, x: Items, y: Items)
    requires
        inst.wf(),
        inst.fits(),
        valid_items(inst, x),
        valid_items(inst, y),
        x.len() >= 1,
        y.len() >= 1,
        x.len() + y.len() <= inst.dimension + 1,
    ensures
        valid_items(inst, x + y),
        chain_agg(inst, x + y) == compose(inst, chain_agg(inst, x), chain_agg(inst, y)),
        agg_fits(chain_agg(inst, x + y)),
{
    assert(valid_items(inst, x + y)) by {
        assert(forall|q: int|
            0 <= q < x.len() + y.len() ==> (#[trigger] (x + y)[q]) == if q < x.len() {
                x[q]
            } else {
                y[q - x.len()]
            });
    }
    lemma_chain_app(inst, x, y);
    lemma_chain_bounds(inst, x + y);
}

/// The fold of a whole node sequence computes exactly the replayed
/// latency-weighted cost, travel length, and billable count.
pub proof fn lemma_chain_is_replay(inst: Instance, s: Seq<usize>)
    requires
        s.len() >= 1,
    ensures
        ({
            let a = chain_agg(inst, seq_items(s));
            &&& a.c == replay_cost(inst, s)
            &&& a.t == path_len(inst, s)
            &&& a.w == s.len() - 1
            &&& a.first == s[0]
            &&& a.last == s.last()
        }),
    decreases s.len(),
{
    if s.len() > 1 {
        assert(seq_items(s).drop_last() =~= seq_items(s.drop_last()));
        lemma_chain_is_replay(inst, s.drop_last());
        assert(seq_items(s).last() == (s.last() as int, true));
    }
}

/// Shape of a span: its length and each of its positions.
pub proof fn lemma_span_index(i: int, j: int)
    ensures
        i <= j ==> span(i, j).len() == j - i + 1,
        i > j ==> span(i, j).len() == i - j + 1,
        forall|k: int|
            0 <= k < span(i, j).len() ==> #[trigger] span(i, j)[k] == (if i <= j {
                i + k
            } else {
                i - k
            }),
    decreases (if i <= j { j - i } else { i - j }),
{
    if i < j {
        lemma_span_index(i, j - 1);
    } else if i > j {
        lemma_span_index(i, j + 1);
    }
}

/// Reading a span off two tours that agree on its positions gives the
/// same block contents.
pub proof fn lemma_span_items_frame(t1: Seq<usize>, t2: Seq<usize>, i: int, j: int)
    requires
        forall|p: int|
            (if i <= j { i <= p <= j } else { j <= p <= i }) ==> 0 <= p < t1.len() && 0 <= p
                < t2.len() && t1[p] == t2[p],
    ensures
        span_items(t1, i, j) == span_items(t2, i, j),
{
    lemma_span_index(i, j);
    assert(span_items(t1, i, j) =~= span_items(t2, i, j));
}

/// Length of the span `i..=j` in either orientation.
pub open spec fn span_len(i: int, j: int) -> int {
    if i <= j {
        j - i + 1
    } else {
        i - j + 1
    }
}

/// Every node a tour names exists in the instance.
pub open spec fn valid_tour_nodes(inst: Instance, tour: Seq<usize>) -> bool {
    forall|p: int| 0 <= p < tour.len() ==> (#[trigger] tour[p]) < inst.dimension
}

/// A valid tour yields valid block contents on any span.
pub proof fn lemma_span_items_valid(inst: Instance, tour: Seq<usize>, i: int, j: int)
    requires
        valid_tour_nodes(inst, tour),
        0 <= i < tour.len(),
        0 <= j < tour.len(),
    ensures
        valid_items(inst, span_items(tour, i, j)),
        span_items(tour, i, j).len() == (if i <= j { j - i + 1 } else { i - j + 1 }),
        forall|k: int|
            0 <= k < span_items(tour, i, j).len() ==> #[trigger] span_items(tour, i, j)[k] == (
            (tour[if i <= j { i + k } else { i - k }] as int), (if i <= j { i + k } else { i - k })
                != 0),
{
    lemma_span_index(i, j);
}

/// One cached block summary, stored with machine integers.
#[derive(Clone, Copy, Debug)]
pub struct Subsequence {
    pub t: u32,
    pub c: u32,
    pub w: u32,
    pub first: usize,
    pub last: usize,
}

impl View for Subsequence {
    type V = Agg;

    open spec fn view(&self) -> Agg {
        Agg {
            t: self.t as int,
            c: self.c as int,
            w: self.w as int,
            first: self.first as int,
            last: self.last as int,
        }
    }
}

impl Subsequence {
    /// Extend this summary with the adjacent block summarised by `other`.
    fn concatenate(self, other: &Subsequence, instance: &Instance) -> (r: Subsequence)
        requires
            instance.wf(),
            self.last < instance.dimension,
            other.first < instance.dimension,
            agg_fits(compose(*instance, self@, other@)),
        ensures
            r@ == compose(*instance, self@, other@),
    {
        let distance = instance.distance(self.last, other.first);
        Subsequence {
            t: self.t + distance + other.t,
            c: self.c + other.w * (self.t + distance) + other.c,
            w: self.w + other.w,
            first: self.first,
            last: other.last,
        }
    }

    /// The summary of the single tour position `i`.
    fn create_single_node(i: usize, sequence: &Vec<usize>) -> (r: Subsequence)
        requires
            i < sequence@.len(),
        ensures
            r@ == single_agg(sequence@[i as int] as int, i != 0),
    {
        Subsequence {
            t: 0,
            c: 0,
            w: if i == 0 {
                0
            } else {
                1
            },
            first: sequence[i],
            last: sequence[i],
        }
    }
}

/// All pairwise block summaries of one tour, in a single row-major table
/// read in both orientations: entry `(i, j)` with `i <= j` is the block
/// read forward, entry `(i, j)` with `i > j` the block read in reverse.
#[derive(Clone, Debug)]
pub struct SubsequenceMatrix<'a> {
    pub matrix: Vec<Subsequence>,
    pub dimension: usize,
    pub instance: &'a Instance,
}

/// Start of the columns phase-two rebuilding touches in row `p`.
pub open spec fn fwd_start(p: int, begin: int) -> int {
    if p + 1 >= begin {
        p + 1
    } else {
        begin
    }
}

/// Entries whose span avoids the dirty window `[begin, end]` entirely.
pub open spec fn span_clean(i: int, j: int, begin: int, end: int) -> bool {
    (i < begin && j < begin) || (i > end && j > end)
}

impl<'a> SubsequenceMatrix<'a> {
    pub open spec fn wf(self) -> bool {
        &&& self.instance.wf()
        &&& self.dimension == self.instance.dimension + 1
        &&& self.dimension * self.dimension <= usize::MAX
        &&& self.matrix@.len() == self.dimension * self.dimension
    }

    /// The cached summary for the block of positions `i..=j`, read
    /// forward when `i <= j` and in reverse otherwise.
    pub open spec fn entry(self, i: int, j: int) -> Agg {
        self.matrix@[i * self.dimension + j]@
    }

    /// The cached entry equals the aggregate the tour dictates.
    pub open spec fn entry_valid(self, tour: Seq<usize>, i: int, j: int) -> bool {
        self.entry(i, j) == chain_agg(*self.instance, span_items(tour, i, j))
    }

    /// The whole table reflects `tour`.
    pub open spec fn valid_for(self, tour: Seq<usize>) -> bool {
        &&& self.wf()
        &&& tour.len() == self.dimension
        &&& valid_tour_nodes(*self.instance, tour)
        &&& forall|i: int, j: int|
            0 <= i < self.dimension && 0 <= j < self.dimension ==> self.entry_valid(tour, i, j)
    }

    /// Every entry whose span avoids `[begin, end]` reflects `tour`; what
    /// a bounded update demands of the caller.
    pub open spec fn clean_valid_for(self, tour: Seq<usize>, begin: int, end: int) -> bool {
        forall|i: int, j: int|
            0 <= i < self.dimension && 0 <= j < self.dimension && span_clean(i, j, begin, end)
                ==> self.entry_valid(tour, i, j)
    }

    /// A fresh, not yet meaningful table for `instance`; it must be
    /// filled by a full `update` before it is read.
    pub fn from(instance: &'a Instance) -> (r: Self)
        requires
            instance.wf(),
            instance.fits(),
        ensures
            r.wf(),
            r.instance == instance,
            r.dimension == instance.dimension + 1,
            forall|k: int| 0 <= k < r.matrix@.len() ==> (#[trigger] r.matrix@[k])@ == zero_agg(),
    {
        let dimension = instance.dimension + 1;
        assert(dimension * dimension <= usize::MAX);
        let total = dimension * dimension;
        let mut matrix: Vec<Subsequence> = Vec::new();
        let mut idx: usize = 0;
        while idx < total
            invariant
                matrix@.len() == idx,
                idx <= total,
                forall|k: int| 0 <= k < idx as int ==> (#[trigger] matrix@[k])@ == zero_agg(),
            decreases total - idx,
        {
            matrix.push(Subsequence { t: 0, c: 0, w: 0, first: 0, last: 0 });
            idx = idx + 1;
        }
        SubsequenceMatrix { matrix, dimension, instance }
    }

    pub fn get(&self, i: usize, j: usize) -> (r: &Subsequence)
        requires
            self.wf(),
            i < self.dimension,
            j < self.dimension,
        ensures
            r@ == self.entry(i as int, j as int),
    {
        proof {
            lemma_row_major_bound(self.dimension as int, i as int, j as int);
        }
        &self.matrix[(i * self.dimension) + j]
    }

    pub fn get_mut(&mut self, i: usize, j: usize) -> (r: &mut Subsequence)
        requires
            old(self).wf(),
            i < old(self).dimension,
            j < old(self).dimension,
        ensures
            *r == old(self).matrix@[i * old(self).dimension + j],
            final(self).matrix@ == old(self).matrix@.update(
                i * old(self).dimension + j,
                *final(r),
            ),
            final(self).dimension == old(self).dimension,
            final(self).instance == old(self).instance,
    {
        proof {
            lemma_row_major_bound(self.dimension as int, i as int, j as int);
        }
        let idx = (i * self.dimension) + j;
        &mut self.matrix[idx]
    }

    /// Overwrite one entry, leaving every other entry as it was.
    fn set_entry(&mut self, i: usize, j: usize, sub: Subsequence)
        requires
            old(self).wf(),
            i < old(self).dimension,
            j < old(self).dimension,
        ensures
            final(self).wf(),
            final(self).dimension == old(self).dimension,
            final(self).instance == old(self).instance,
            final(self).entry(i as int, j as int) == sub@,
            forall|p: int, q: int|
                0 <= p < old(self).dimension && 0 <= q < old(self).dimension && !(p == i && q == j)
                    ==> final(self).entry(p, q) == old(self).entry(p, q),
    {
        let ghost dim = self.dimension as int;
        proof {
            lemma_row_major_bound(dim, i as int, j as int);
        }
        let idx = (i * self.dimension) + j;
        self.matrix.set(idx, sub);
        proof {
            assert forall|p: int, q: int|
                0 <= p < dim && 0 <= q < dim && !(p == i && q == j) implies self.entry(p, q)
                == old(self).entry(p, q) by {
                lemma_row_major_bound(dim, p, q);
                if p * dim + q == i * dim + j {
                    lemma_row_major_injective(dim, p, q, i as int, j as int);
                }
            }
        }
    }

    /// Begin a composition chain from the cached entry `(i, j)`.
    pub fn concatenator_for<'b>(&'b self, i: usize, j: usize) -> (r: SubsequenceConcatenator<
        'b,
        'a,
    >)
        requires
            self.wf(),
            i < self.dimension,
            j < self.dimension,
        ensures
            r.matrix == self,
            r.subsequence@ == self.entry(i as int, j as int),
    {
        SubsequenceConcatenator { subsequence: *self.get(i, j), matrix: self }
    }

    /// Recompute exactly the entries whose span meets the dirty window
    /// `[begin, end]` (the whole table when `bounds` is `None`): first the
    /// dirty single positions, then forward entries by extending to the
    /// right, then reversed entries by extending downward.  Entries whose
    /// span avoids the window are left untouched, which keeps the work
    /// bounded; the caller vouches that those still reflect `sequence`.
    pub fn update(&mut self, sequence: &Vec<usize>, bounds: Option<(usize, usize)>)
        requires
            old(self).wf(),
            old(self).instance.fits(),
            sequence@.len() == old(self).dimension,
            valid_tour_nodes(*old(self).instance, sequence@),
            match bounds {
                Some((b, e)) => b <= e && e < old(self).dimension && old(self).clean_valid_for(
                    sequence@,
                    b as int,
                    e as int,
                ),
                None => true,
            },
        ensures
            final(self).valid_for(sequence@),
            final(self).dimension == old(self).dimension,
            final(self).instance == old(self).instance,
    {
        let len = sequence.len();
        let (begin, end) = match bounds {
            Some(p) => p,
            None => (0usize, len - 1),
        };
        let ghost t = sequence@;
        let ghost dim = self.dimension as int;
        let ghost b = begin as int;
        let ghost e = end as int;
        proof {
            assert(old(self).clean_valid_for(t, b, e));
        }
        self.rebuild_singles(sequence, begin, end);
        let ghost m1 = *self;
        proof {
            assert forall|p: int, q: int|
                0 <= p < q < dim && (q < b || p > e) implies m1.entry_valid(t, p, q) by {
                assert(span_clean(p, q, b, e));
                assert(old(self).entry_valid(t, p, q));
            }
        }
        self.rebuild_forward(sequence, begin, end);
        let ghost m2 = *self;
        proof {
            assert forall|p: int, q: int|
                0 <= q < p < dim && (p < b || q > e) implies m2.entry_valid(t, p, q) by {
                assert(span_clean(p, q, b, e));
                assert(old(self).entry_valid(t, p, q));
                assert(m1.entry(p, q) == old(self).entry(p, q));
            }
        }
        self.rebuild_reverse(sequence, begin, end);
    }

    /// First pass of `update`: rebuild the dirty single-position entries;
    /// afterwards every diagonal entry reflects `sequence`.
    #[verifier::loop_isolation(false)]
    fn rebuild_singles(&mut self, sequence: &Vec<usize>, begin: usize, end: usize)
        requires
            old(self).wf(),
            sequence@.len() == old(self).dimension,
            begin <= end < old(self).dimension,
            forall|p: int|
                0 <= p < old(self).dimension && !(begin <= p <= end) ==> old(self).entry_valid(
                    sequence@,
                    p,
                    p,
                ),
        ensures
            final(self).wf(),
            final(self).dimension == old(self).dimension,
            final(self).instance == old(self).instance,
            forall|p: int|
                0 <= p < old(self).dimension ==> final(self).entry_valid(sequence@, p, p),
            forall|p: int, q: int|
                0 <= p < old(self).dimension && 0 <= q < old(self).dimension && p != q ==> final(self).entry(p, q) == old(self).entry(p, q),
    {
        let ghost t = sequence@;
        let ghost dim = self.dimension as int;
        let ghost b = begin as int;
        let ghost e = end as int;
        let mut i: usize = begin;
        while i <= end
            invariant
                begin <= i && i <= end + 1,
                begin <= end && end < self.dimension,
                sequence@ == t,
                sequence@.len() == dim,
                dim == self.dimension,
                self.wf(),
                self.dimension == old(self).dimension,
                self.instance == old(self).instance,
                forall|p: int, q: int|
                    0 <= p < dim && 0 <= q < dim && !(p == q && b <= p < i as int) ==> self.entry(
                        p,
                        q,
                    ) == old(self).entry(p, q),
                forall|p: int| b <= p < i as int ==> self.entry_valid(t, p, p),
            decreases end + 1 - i,
        {
            let sub = Subsequence::create_single_node(i, sequence);
            let ghost pre = *self;
            self.set_entry(i, i, sub);
            proof {
                assert(span_items(t, i as int, i as int) =~= seq![
                    ((t[i as int] as int), i as int != 0),
                ]);
                assert forall|p: int| b <= p < i as int + 1 implies self.entry_valid(t, p, p) by {
                    if p < i as int {
                        assert(pre.entry_valid(t, p, p));
                    }
                }
            }
            i = i + 1;
        }
        proof {
            assert forall|p: int| 0 <= p < dim implies self.entry_valid(t, p, p) by {
                if p < b || p > e {
                    assert(old(self).entry_valid(t, p, p));
                }
            }
        }
    }

    /// Second pass of `update`: rebuild every forward entry whose span
    /// meets the dirty window, extending cached prefixes one position to
    /// the right.  Reversed entries are untouched.
    #[verifier::loop_isolation(false)]
    fn rebuild_forward(&mut self, sequence: &Vec<usize>, begin: usize, end: usize)
        requires
            old(self).wf(),
            old(self).instance.fits(),
            sequence@.len() == old(self).dimension,
            valid_tour_nodes(*old(self).instance, sequence@),
            begin <= end < old(self).dimension,
            forall|p: int|
                0 <= p < old(self).dimension ==> old(self).entry_valid(sequence@, p, p),
            forall|p: int, q: int|
                0 <= p < q < old(self).dimension && (q < begin || p > end) ==> old(self).entry_valid(sequence@, p, q),
        ensures
            final(self).wf(),
            final(self).dimension == old(self).dimension,
            final(self).instance == old(self).instance,
            forall|p: int, q: int|
                0 <= p <= q < old(self).dimension ==> final(self).entry_valid(sequence@, p, q),
            forall|p: int, q: int|
                0 <= q < p < old(self).dimension ==> final(self).entry(p, q) == old(self).entry(
                    p,
                    q,
                ),
    {
        let len = sequence.len();
        let ghost t = sequence@;
        let ghost dim = self.dimension as int;
        let ghost inst = *self.instance;
        let ghost b = begin as int;
        let ghost e = end as int;
        let mut i: usize = 0;
        while i <= end
            invariant
                i <= end + 1,
                begin <= end && end < self.dimension,
                len == self.dimension,
                sequence@ == t,
                sequence@.len() == dim,
                dim == self.dimension,
                inst == *self.instance,
                self.wf(),
                self.instance.fits(),
                valid_tour_nodes(inst, t),
                self.dimension == old(self).dimension,
                self.instance == old(self).instance,
                forall|p: int| 0 <= p < dim ==> self.entry_valid(t, p, p),
                forall|p: int, q: int|
                    0 <= q < p < dim ==> self.entry(p, q) == old(self).entry(p, q),
                forall|p: int, q: int|
                    0 <= p < q < dim && q < b ==> self.entry_valid(t, p, q),
                forall|p: int, q: int| e < p < q < dim ==> self.entry_valid(t, p, q),
                forall|p: int, q: int|
                    0 <= p < i as int && fwd_start(p, b) <= q < dim ==> self.entry_valid(t, p, q),
            decreases end + 1 - i,
        {
            let start = if begin > i {
                begin
            } else {
                i + 1
            };
            let mut j: usize = start;
            while j < len
                invariant
                    start <= j && j <= len,
                    start as int == fwd_start(i as int, b),
                    i as int <= e,
                    begin <= end && end < self.dimension,
                    len == self.dimension,
                    sequence@ == t,
                    sequence@.len() == dim,
                    dim == self.dimension,
                    inst == *self.instance,
                    self.wf(),
                    self.instance.fits(),
                    valid_tour_nodes(inst, t),
                    self.dimension == old(self).dimension,
                    self.instance == old(self).instance,
                    forall|p: int| 0 <= p < dim ==> self.entry_valid(t, p, p),
                    forall|p: int, q: int|
                        0 <= q < p < dim ==> self.entry(p, q) == old(self).entry(p, q),
                    forall|p: int, q: int|
                        0 <= p < q < dim && q < b ==> self.entry_valid(t, p, q),
                    forall|p: int, q: int| e < p < q < dim ==> self.entry_valid(t, p, q),
                    forall|p: int, q: int|
                        0 <= p < i as int && fwd_start(p, b) <= q < dim ==> self.entry_valid(
                            t,
                            p,
                            q,
                        ),
                    forall|q: int|
                        fwd_start(i as int, b) <= q < j as int ==> self.entry_valid(
                            t,
                            i as int,
                            q,
                        ),
                decreases len - j,
            {
                let ghost ii = i as int;
                let ghost jj = j as int;
                let ghost x = span_items(t, ii, jj - 1);
                let ghost y = span_items(t, jj, jj);
                proof {
                    lemma_span_items_valid(inst, t, ii, jj - 1);
                    lemma_span_items_valid(inst, t, jj, jj);
                    lemma_span_items_valid(inst, t, ii, jj);
                    assert(self.entry_valid(t, ii, jj - 1));
                    assert(self.entry_valid(t, jj, jj));
                    lemma_chain_concat_fits(inst, x, y);
                    lemma_chain_ends(inst, x);
                    lemma_chain_ends(inst, y);
                    assert(x + y =~= span_items(t, ii, jj));
                }
                let sub = self.concatenator_for(i, j - 1).concatenate(j, j).into_subsequence();
                let ghost pre = *self;
                self.set_entry(i, j, sub);
                proof {
                    assert forall|p: int| 0 <= p < dim implies self.entry_valid(t, p, p) by {
                        assert(pre.entry_valid(t, p, p));
                        assert(!(p == ii && p == jj));
                    }
                    assert forall|p: int, q: int|
                        0 <= p < q < dim && q < b implies self.entry_valid(t, p, q) by {
                        assert(pre.entry_valid(t, p, q));
                        assert(!(p == ii && q == jj));
                    }
                    assert forall|p: int, q: int|
                        e < p < q < dim implies self.entry_valid(t, p, q) by {
                        assert(pre.entry_valid(t, p, q));
                        assert(!(p == ii && q == jj));
                    }
                    assert forall|p: int, q: int|
                        0 <= p < ii && fwd_start(p, b) <= q < dim implies self.entry_valid(
                        t,
                        p,
                        q,
                    ) by {
                        assert(pre.entry_valid(t, p, q));
                        assert(!(p == ii && q == jj));
                    }
                    assert forall|q: int|
                        fwd_start(ii, b) <= q < jj + 1 implies self.entry_valid(t, ii, q) by {
                        if q < jj {
                            assert(pre.entry_valid(t, ii, q));
                        }
                    }
                }
                j = j + 1;
            }
            i = i + 1;
        }
        proof {
            assert forall|p: int, q: int| 0 <= p <= q < dim implies self.entry_valid(t, p, q) by {
                if p < q && p <= e && q >= fwd_start(p, b) {
                }
            }
        }
    }

    /// Third pass of `update`: rebuild every reversed entry whose span
    /// meets the dirty window, extending cached reversed blocks one
    /// position downward.  Forward entries are untouched.
    #[verifier::loop_isolation(false)]
    fn rebuild_reverse(&mut self, sequence: &Vec<usize>, begin: usize, end: usize)
        requires
            old(self).wf(),
            old(self).instance.fits(),
            sequence@.len() == old(self).dimension,
            valid_tour_nodes(*old(self).instance, sequence@),
            begin <= end < old(self).dimension,
            forall|p: int, q: int|
                0 <= p <= q < old(self).dimension ==> old(self).entry_valid(sequence@, p, q),
            forall|p: int, q: int|
                0 <= q < p < old(self).dimension && (p < begin || q > end) ==> old(self).entry_valid(sequence@, p, q),
        ensures
            final(self).valid_for(sequence@),
            final(self).dimension == old(self).dimension,
            final(self).instance == old(self).instance,
    {
        let len = sequence.len();
        let ghost t = sequence@;
        let ghost dim = self.dimension as int;
        let ghost inst = *self.instance;
        let ghost b = begin as int;
        let ghost e = end as int;
        let mut i: usize = len;
        while i > begin
            invariant
                begin <= i && i <= len,
                begin <= end && end < self.dimension,
                len == self.dimension,
                sequence@ == t,
                sequence@.len() == dim,
                dim == self.dimension,
                inst == *self.instance,
                self.wf(),
                self.instance.fits(),
                valid_tour_nodes(inst, t),
                self.dimension == old(self).dimension,
                self.instance == old(self).instance,
                forall|p: int, q: int| 0 <= p <= q < dim ==> self.entry_valid(t, p, q),
                forall|p: int, q: int|
                    0 <= q < p < dim && (p < b || q > e) ==> self.entry_valid(t, p, q),
                forall|p: int, q: int|
                    i as int <= p < dim && 0 <= q <= e && q < p ==> self.entry_valid(t, p, q),
            decreases i - begin,
        {
            i = i - 1;
            let row = i;
            if row >= 1 {
                let jtop = if end < row - 1 {
                    end
                } else {
                    row - 1
                };
                let mut j: usize = jtop + 1;
                while j > 0
                    invariant
                        j <= jtop + 1,
                        jtop as int == (if e < row as int - 1 {
                            e
                        } else {
                            row as int - 1
                        }),
                        1 <= row && row < len,
                        begin <= row,
                        begin <= end && end < self.dimension,
                        len == self.dimension,
                        sequence@ == t,
                        sequence@.len() == dim,
                        dim == self.dimension,
                        inst == *self.instance,
                        self.wf(),
                        self.instance.fits(),
                        valid_tour_nodes(inst, t),
                        self.dimension == old(self).dimension,
                        self.instance == old(self).instance,
                        forall|p: int, q: int| 0 <= p <= q < dim ==> self.entry_valid(t, p, q),
                        forall|p: int, q: int|
                            0 <= q < p < dim && (p < b || q > e) ==> self.entry_valid(t, p, q),
                        forall|p: int, q: int|
                            (row as int) < p < dim && 0 <= q <= e && q < p ==> self.entry_valid(
                                t,
                                p,
                                q,
                            ),
                        forall|q: int|
                            j as int <= q <= jtop as int ==> self.entry_valid(t, row as int, q),
                    decreases j,
                {
                    j = j - 1;
                    let ghost rr = row as int;
                    let ghost jj = j as int;
                    let ghost x = span_items(t, rr, jj + 1);
                    let ghost y = span_items(t, jj, jj);
                    proof {
                        lemma_span_items_valid(inst, t, rr, jj + 1);
                        lemma_span_items_valid(inst, t, jj, jj);
                        lemma_span_items_valid(inst, t, rr, jj);
                        assert(self.entry_valid(t, rr, jj + 1));
                        assert(self.entry_valid(t, jj, jj));
                        lemma_chain_concat_fits(inst, x, y);
                        lemma_chain_ends(inst, x);
                        lemma_chain_ends(inst, y);
                        assert(x + y =~= span_items(t, rr, jj));
                    }
                    let sub = self.concatenator_for(row, j + 1).concatenate(
                        j,
                        j,
                    ).into_subsequence();
                    let ghost pre = *self;
                    self.set_entry(row, j, sub);
                    proof {
                        assert forall|p: int, q: int| 0 <= p <= q < dim implies self.entry_valid(
                            t,
                            p,
                            q,
                        ) by {
                            assert(pre.entry_valid(t, p, q));
                            assert(!(p == rr && q == jj));
                        }
                        assert forall|p: int, q: int|
                            0 <= q < p < dim && (p < b || q > e) implies self.entry_valid(
                            t,
                            p,
                            q,
                        ) by {
                            assert(pre.entry_valid(t, p, q));
                            assert(!(p == rr && q == jj));
                        }
                        assert forall|p: int, q: int|
                            rr < p < dim && 0 <= q <= e && q < p implies self.entry_valid(
                            t,
                            p,
                            q,
                        ) by {
                            assert(pre.entry_valid(t, p, q));
                            assert(!(p == rr && q == jj));
                        }
                        assert forall|q: int|
                            j as int <= q <= jtop as int implies self.entry_valid(
                            t,
                            row as int,
                            q,
                        ) by {
                            if q != jj {
                                assert(pre.entry_valid(t, row as int, q));
                            }
                        }
                    }
                }
            }
        }
    }

    /// The latency-weighted cost of the whole tour, as cached.
    pub fn extract_solution_cost(&self) -> (cost: u32)
        requires
            self.wf(),
        ensures
            cost == self.entry(0, self.dimension - 1).c,
    {
        self.get(0, self.dimension - 1).c
    }
}

/// A left-to-right fold over cached entries, pricing one candidate
/// rearrangement of the tour.
pub struct SubsequenceConcatenator<'b, 'a> {
    pub subsequence: Subsequence,
    pub matrix: &'b SubsequenceMatrix<'a>,
}

impl<'b, 'a> SubsequenceConcatenator<'b, 'a> {
    /// Extend the chain with the cached entry `(i, j)`.
    pub fn concatenate(self, i: usize, j: usize) -> (r: SubsequenceConcatenator<'b, 'a>)
        requires
            self.matrix.wf(),
            i < self.matrix.dimension,
            j < self.matrix.dimension,
            self.subsequence.last < self.matrix.instance.dimension,
            self.matrix.entry(i as int, j as int).first < self.matrix.instance.dimension,
            agg_fits(
                compose(
                    *self.matrix.instance,
                    self.subsequence@,
                    self.matrix.entry(i as int, j as int),
                ),
            ),
        ensures
            r.matrix == self.matrix,
            r.subsequence@ == compose(
                *self.matrix.instance,
                self.subsequence@,
                self.matrix.entry(i as int, j as int),
            ),
    {
        let entry = self.matrix.get(i, j);
        SubsequenceConcatenator {
            subsequence: self.subsequence.concatenate(entry, self.matrix.instance),
            matrix: self.matrix,
        }
    }

    pub fn into_subsequence(self) -> (r: Subsequence)
        ensures
            r == self.subsequence,
    {
        self.subsequence
    }
}

/// The first link of a pricing chain: a cached entry of a valid table is
/// the fold of its span's contents.
pub proof fn lemma_start_chain(m: SubsequenceMatrix, t: Seq<usize>, a: int, bq: int)
    requires
        m.valid_for(t),
        0 <= a < t.len(),
        0 <= bq < t.len(),
    ensures
        m.entry(a, bq) == chain_agg(*m.instance, span_items(t, a, bq)),
        valid_items(*m.instance, span_items(t, a, bq)),
        span_items(t, a, bq).len() == span_len(a, bq),
        m.entry(a, bq).first == t[a],
        m.entry(a, bq).last == t[bq],
{
    let inst = *m.instance;
    assert(m.entry_valid(t, a, bq));
    lemma_span_items_valid(inst, t, a, bq);
    lemma_chain_ends(inst, span_items(t, a, bq));
    lemma_span_index(a, bq);
}

/// One link of a pricing chain: extending a fold with a cached entry
/// composes the span's contents onto the accumulated block and stays in
/// bounds.
pub proof fn lemma_extend_chain(m: SubsequenceMatrix, t: Seq<usize>, acc: Items, a: int, bq: int)
    requires
        m.valid_for(t),
        m.instance.fits(),
        valid_items(*m.instance, acc),
        acc.len() >= 1,
        0 <= a < t.len(),
        0 <= bq < t.len(),
        acc.len() + span_len(a, bq) <= m.instance.dimension + 1,
    ensures
        valid_items(*m.instance, acc + span_items(t, a, bq)),
        (acc + span_items(t, a, bq)).len() == acc.len() + span_len(a, bq),
        chain_agg(*m.instance, acc + span_items(t, a, bq)) == compose(
            *m.instance,
            chain_agg(*m.instance, acc),
            m.entry(a, bq),
        ),
        agg_fits(chain_agg(*m.instance, acc + span_items(t, a, bq))),
        agg_fits(compose(*m.instance, chain_agg(*m.instance, acc), m.entry(a, bq))),
        0 <= chain_agg(*m.instance, acc).last < m.instance.dimension,
        m.entry(a, bq).first == t[a],
        0 <= m.entry(a, bq).first < m.instance.dimension,
{
    let inst = *m.instance;
    assert(m.entry_valid(t, a, bq));
    lemma_span_items_valid(inst, t, a, bq);
    lemma_span_index(a, bq);
    lemma_chain_concat_fits(inst, acc, span_items(t, a, bq));
    lemma_chain_ends(inst, acc);
    lemma_chain_ends(inst, span_items(t, a, bq));
}

} // verus!
