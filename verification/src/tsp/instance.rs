//! The distance oracle of the tour-length variant: a dense square
//! matrix of row vectors.

use vstd::prelude::*;

use crate::instance::COST_LIMIT;

verus! {

/// A distance oracle over `dimension` nodes, one row vector per node.
#[derive(Debug, Default)]
pub struct Instance {
    pub dimension: usize,
    pub matrix: Vec<Vec<usize>>,
}

impl Instance {
    /// The matrix really is a `dimension x dimension` table.
    pub open spec fn wf(self) -> bool {
        &&& self.dimension >= 1
        &&& self.matrix@.len() == self.dimension
        &&& forall|r: int|
            0 <= r < self.dimension ==> (#[trigger] self.matrix@[r])@.len() == self.dimension
    }

    /// The distance from node `i` to node `j`.
    pub open spec fn dist(self, i: int, j: int) -> int {
        self.matrix@[i]@[j] as int
    }

    /// Distances are small enough that no tour length, and no move
    /// delta, can leave the `COST_LIMIT` range.
    pub open spec fn fits(self) -> bool {
        &&& 2 * self.dimension + 16 <= usize::MAX
        &&& forall|i: int, j: int|
            0 <= i < self.dimension && 0 <= j < self.dimension ==> (self.dimension + 8)
                * #[trigger] self.dist(i, j) <= COST_LIMIT
    }

    /// The matrix is symmetric, as every reversal-based move assumes.
    pub open spec fn symmetric(self) -> bool {
        forall|i: int, j: int|
            0 <= i < self.dimension && 0 <= j < self.dimension ==> #[trigger] self.dist(i, j)
                == self.dist(j, i)
    }
}

/// The travel length of a node sequence: the sum of the distances
/// between consecutive nodes.
pub open spec fn tour_len(inst: Instance, s: Seq<usize>) -> int
    decreases s.len(),
{
    if s.len() <= 1 {
        0
    } else {
        tour_len(inst, s.drop_last()) + inst.dist(s[s.len() - 2] as int, s.last() as int)
    }
}

/// Splitting a walk: the length of a concatenation is the two lengths
/// plus the joining edge.
pub proof fn lemma_len_app(inst: Instance, x: Seq<usize>, y: Seq<usize>)
    requires
        x.len() >= 1,
        y.len() >= 1,
    ensures
        tour_len(inst, x + y) == tour_len(inst, x) + inst.dist(x.last() as int, y[0] as int)
            + tour_len(inst, y),
    decreases y.len(),
{
    if y.len() == 1 {
        assert((x + y).drop_last() =~= x);
    } else {
        assert((x + y).drop_last() =~= x + y.drop_last());
        lemma_len_app(inst, x, y.drop_last());
        assert(y.drop_last()[0] == y[0]);
    }
}

/// On a symmetric instance a walk and its reverse have the same length.
pub proof fn lemma_len_reverse(inst: Instance, x: Seq<usize>)
    requires
        inst.symmetric(),
        x.len() >= 1,
        forall|k: int| 0 <= k < x.len() ==> 0 <= (#[trigger] x[k]) < inst.dimension,
    ensures
        tour_len(inst, x.reverse()) == tour_len(inst, x),
    decreases x.len(),
{
    if x.len() > 1 {
        let d = x.drop_last();
        assert(x.reverse() =~= seq![x.last()] + d.reverse());
        lemma_len_reverse(inst, d);
        lemma_len_app(inst, seq![x.last()], d.reverse());
        assert(d.reverse()[0] == d.last());
        assert(d.last() == x[x.len() - 2]);
    }
}

/// A walk of at most `dimension + 1` valid nodes has a length within
/// `COST_LIMIT` when the instance fits.
pub proof fn lemma_len_bounds(inst: Instance, s: Seq<usize>)
    requires
        inst.wf(),
        inst.fits(),
        1 <= s.len() <= inst.dimension + 1,
        forall|k: int| 0 <= k < s.len() ==> 0 <= (#[trigger] s[k]) < inst.dimension,
    ensures
        0 <= tour_len(inst, s) <= COST_LIMIT,
        (inst.dimension + 8) * tour_len(inst, s) <= (s.len() - 1) * COST_LIMIT,
    decreases s.len(),
{
    let k = inst.dimension + 8;
    let tl = tour_len(inst, s);
    let len = s.len() as int;
    if s.len() == 1 {
        assert(k * 0 == 0) by (nonlinear_arith);
    } else {
        let d = s.drop_last();
        lemma_len_bounds(inst, d);
        let edge = inst.dist(s[s.len() - 2] as int, s.last() as int);
        assert(k * edge <= COST_LIMIT);
        assert(0 <= edge) by {
            assert(s[s.len() - 2] < inst.dimension);
        }
        assert({
            &&& 0 <= tl
            &&& k * tl <= (len - 1) * COST_LIMIT
        }) by (nonlinear_arith)
            requires
                tl == tour_len(inst, d) + edge,
                0 <= tour_len(inst, d),
                k * tour_len(inst, d) <= (len - 2) * COST_LIMIT,
                k * edge <= COST_LIMIT,
                0 <= edge,
                2 <= len,
                9 <= k,
        {}
        assert(tl <= COST_LIMIT) by (nonlinear_arith)
            requires
                k * tl <= (len - 1) * COST_LIMIT,
                0 <= tl,
                len - 1 <= k,
                9 <= k,
                COST_LIMIT > 0,
        {}
    }
}

/// Every single distance is small next to `COST_LIMIT`.
pub proof fn lemma_dist_small(inst: Instance, i: int, j: int)
    requires
        inst.wf(),
        inst.fits(),
        0 <= i < inst.dimension,
        0 <= j < inst.dimension,
    ensures
        0 <= inst.dist(i, j),
        9 * inst.dist(i, j) <= COST_LIMIT,
{
    let d = inst.dist(i, j);
    assert((inst.dimension + 8) * d <= COST_LIMIT);
    assert(9 * d <= (inst.dimension + 8) * d) by (nonlinear_arith)
        requires
            0 <= d,
            1 <= inst.dimension,
    {}
}

} // verus!
