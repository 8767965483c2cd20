//! The plain tour-length variant of the engine: the same iterated local
//! search, but the objective is the ordinary closed-tour length, deltas
//! are priced directly from the distance matrix, and no aggregate table
//! is kept.

pub mod construction;
pub mod instance;
pub mod local_search;
pub mod perturbation;
pub mod solution;

use vstd::prelude::*;

use crate::tsp::construction::construction;
use crate::tsp::instance::Instance;
use crate::tsp::local_search::local_search;
use crate::tsp::perturbation::perturbation;
use crate::tsp::solution::Solution;

verus! {

/// Run `max_iter` independent restarts of construction, hill-climbing
/// and double-bridge perturbation, and return the best tour found,
/// under the plain tour-length objective.
#[verifier::loop_isolation(false)]
pub fn ils(max_iter: u32, max_iter_ils: u32, instance: &Instance) -> (best: Solution)
    requires
        instance.wf(),
        instance.fits(),
        instance.symmetric(),
        instance.dimension >= 4,
        max_iter >= 1,
        max_iter_ils < u32::MAX,
    ensures
        best.wf_for(*instance),
{
    let mut best = ils_restart(max_iter_ils, instance);
    let mut it: u32 = 1;
    while it < max_iter
        invariant
            best.wf_for(*instance),
        decreases max_iter - it,
    {
        let candidate = ils_restart(max_iter_ils, instance);
        if candidate.value < best.value {
            best = candidate;
        }
        it = it + 1;
    }
    best
}

/// One restart: construct, then alternate local search and perturbation
/// until `max_iter_ils` consecutive perturbations fail to improve.
#[verifier::loop_isolation(false)]
pub fn ils_restart(max_iter_ils: u32, instance: &Instance) -> (best: Solution)
    requires
        instance.wf(),
        instance.fits(),
        instance.symmetric(),
        instance.dimension >= 4,
        max_iter_ils < u32::MAX,
    ensures
        best.wf_for(*instance),
{
    let mut s = construction(instance);
    let mut inner_best = s.duplicate();
    let mut iter_ils: u32 = 1;
    while iter_ils <= max_iter_ils
        invariant
            s.wf_for(*instance),
            inner_best.wf_for(*instance),
            1 <= iter_ils,
        decreases inner_best.value, max_iter_ils - iter_ils + 1,
    {
        local_search(&mut s, instance);
        if s.value < inner_best.value {
            inner_best = s.duplicate();
            iter_ils = 0;
        }
        s = perturbation(inner_best.duplicate(), instance);
        iter_ils = iter_ils + 1;
    }
    inner_best
}

} // verus!
