//! The problem instance: a node count and a dense matrix of pairwise
//! integer distances, immutable for the whole run.

use vstd::prelude::*;

verus! {

/// Every aggregate cost the engine computes is kept below this bound so
/// that cost differences fit in `i32`.
pub const COST_LIMIT: u32 = 0x7fff_ffff;

/// A distance oracle over `dimension` nodes.  `matrix` is stored row-major:
/// the distance from `i` to `j` sits at index `i * dimension + j`.
#[derive(Clone, Debug)]
pub struct Instance {
    pub dimension: usize,
    pub name: String,
    pub matrix: Vec<u32>,
}

impl Instance {
    /// The matrix really is a `dimension x dimension` table.
    pub open spec fn wf(self) -> bool {
        &&& self.dimension >= 1
        &&& self.dimension * self.dimension <= usize::MAX
        &&& self.matrix@.len() == self.dimension * self.dimension
    }

    /// The distance from node `i` to node `j`.
    pub open spec fn dist(self, i: int, j: int) -> int {
        self.matrix@[i * self.dimension + j] as int
    }

    /// Distances are small enough that no aggregate over a tour of
    /// `dimension + 1` positions can exceed `COST_LIMIT`, and the
    /// aggregate table itself is addressable.
    pub open spec fn fits(self) -> bool {
        &&& self.dimension + 1 <= COST_LIMIT
        &&& (self.dimension + 1) * (self.dimension + 1) <= usize::MAX
        &&& forall|i: int, j: int|
            0 <= i < self.dimension && 0 <= j < self.dimension ==> (self.dimension + 1) * (
            self.dimension + 1) * #[trigger] self.dist(i, j) <= COST_LIMIT
    }

    #[inline]
    pub fn distance(&self, i: usize, j: usize) -> (d: u32)
        requires
            self.wf(),
            i < self.dimension,
            j < self.dimension,
        ensures
            d == self.dist(i as int, j as int),
    {
        proof {
            lemma_row_major_bound(self.dimension as int, i as int, j as int);
        }
        self.matrix[(i * self.dimension) + j]
    }

    pub fn matrix_slice(&self) -> (m: &[u32])
        ensures
            m@ == self.matrix@,
    {
        self.matrix.as_slice()
    }
}

/// A row-major index stays inside the table.
pub proof fn lemma_row_major_bound(dim: int, i: int, j: int)
    by (nonlinear_arith)
    requires
        0 <= i < dim,
        0 <= j < dim,
    ensures
        0 <= i * dim + j < dim * dim,
        i * dim <= (dim - 1) * dim,
        (dim - 1) * dim < dim * dim,
{
}

/// A table dimension whose square is addressable leaves headroom for
/// small index offsets.
pub proof fn lemma_dim_headroom(dim: int, cap: int)
    by (nonlinear_arith)
    requires
        2 <= dim,
        dim * dim <= cap,
        16 <= cap,
    ensures
        dim + 8 <= cap,
{
}

/// Distinct row/column pairs map to distinct row-major indices.
pub proof fn lemma_row_major_injective(dim: int, i: int, j: int, p: int, q: int)
    by (nonlinear_arith)
    requires
        0 <= i < dim,
        0 <= j < dim,
        0 <= p < dim,
        0 <= q < dim,
        i * dim + j == p * dim + q,
    ensures
        i == p && j == q,
{
}

} // verus!
