//! The iterated-local-search driver: repeated restarts of construction,
//! hill-climbing, and perturbation, keeping the best solution found.

use vstd::prelude::*;

use crate::construction::construction;
use crate::instance::Instance;
use crate::local_search::local_search;
use crate::perturbation::perturbation;
use crate::solution::Solution;
use crate::solution::lemma_wf_congruence;

verus! {

/// One complete restart: construct a solution, then alternate local
/// search and perturbation until `max_iter_ils` consecutive
/// perturbations fail to improve the restart's best.  The inner loop
/// terminates because the best cost is a non-negative integer that
/// strictly drops whenever the non-improvement counter resets.
#[verifier::loop_isolation(false)]
pub fn ils_restart<'a>(max_iter_ils: u32, instance: &'a Instance) -> (best: Solution<'a>)
    requires
        instance.wf(),
        instance.fits(),
        instance.dimension >= 4,
        max_iter_ils < u32::MAX,
    ensures
        best.wf(),
        best.subseq_matrix.instance == instance,
{
    let mut s = construction(instance);
    let mut inner_best = s.clone();
    proof {
        lemma_wf_congruence(s, inner_best);
    }
    let mut iter_ils: u32 = 1;
    while iter_ils <= max_iter_ils
        invariant
            s.wf(),
            inner_best.wf(),
            s.subseq_matrix.instance == instance,
            inner_best.subseq_matrix.instance == instance,
            1 <= iter_ils,
        decreases inner_best.value, max_iter_ils - iter_ils + 1,
    {
        local_search(&mut s);
        if s.value < inner_best.value {
            inner_best = s.clone();
            proof {
                lemma_wf_congruence(s, inner_best);
            }
            iter_ils = 0;
        }
        let restart_point = inner_best.clone();
        proof {
            lemma_wf_congruence(inner_best, restart_point);
        }
        s = perturbation(restart_point);
        iter_ils = iter_ils + 1;
    }
    inner_best
}

/// Run `max_iter` independent restarts and return the best solution
/// found.  The result is always a feasible closed tour whose `value` is
/// exactly its replayed cost.
#[verifier::loop_isolation(false)]
pub fn ils<'a>(max_iter: u32, max_iter_ils: u32, instance: &'a Instance) -> (best: Solution<'a>)
    requires
        instance.wf(),
        instance.fits(),
        instance.dimension >= 4,
        max_iter >= 1,
        max_iter_ils < u32::MAX,
    ensures
        best.wf(),
        best.subseq_matrix.instance == instance,
{
    let mut best = ils_restart(max_iter_ils, instance);
    let mut it: u32 = 1;
    while it < max_iter
        invariant
            best.wf(),
            best.subseq_matrix.instance == instance,
        decreases max_iter - it,
    {
        let candidate = ils_restart(max_iter_ils, instance);
        if candidate.value < best.value {
            best = candidate;
        }
        it = it + 1;
    }
    best
}

} // verus!
