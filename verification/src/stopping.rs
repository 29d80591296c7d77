//! When the tabu search and the GRASP stop.
use vstd::prelude::*;

verus! {

/// Iterations without improvement after which a run with neither a time nor an
/// evaluation limit stops.
pub const MAX_CONVERGENCE_ITER: usize = 5000;

/// Why a run stops.
#[derive(Clone, Copy, PartialEq, Eq, Structural, Debug)]
pub enum StopReason {
    /// The time limit is set and reached.
    TimeLimit,
    /// The evaluation limit is set and reached.
    EvaluationLimit,
    /// Neither limit is set and the best route has not improved for
    /// `MAX_CONVERGENCE_ITER` iterations.
    Convergence,
}

/// The stopping tests, in order, for a run that has lasted `elapsed_secs`
/// whole seconds, counted `eval_count` evaluations and gone
/// `iter_without_improvement` iterations without improving; limits of 0 are
/// not set. `None` when the run goes on.
pub fn search_stop(
    elapsed_secs: u64,
    max_time_secs: u64,
    max_evals: u64,
    eval_count: u64,
    iter_without_improvement: usize,
) -> (r: Option<StopReason>)
    ensures
        r == if max_time_secs > 0 && elapsed_secs >= max_time_secs {
            Some(StopReason::TimeLimit)
        } else if max_evals > 0 && eval_count >= max_evals {
            Some(StopReason::EvaluationLimit)
        } else if max_time_secs == 0 && max_evals == 0 && iter_without_improvement
            >= MAX_CONVERGENCE_ITER {
            Some(StopReason::Convergence)
        } else {
            None
        },
{
    if max_time_secs > 0 && elapsed_secs >= max_time_secs {
        Some(StopReason::TimeLimit)
    } else if max_evals > 0 && eval_count >= max_evals {
        Some(StopReason::EvaluationLimit)
    } else if max_time_secs == 0 && max_evals == 0 && iter_without_improvement
        >= MAX_CONVERGENCE_ITER {
        Some(StopReason::Convergence)
    } else {
        None
    }
}

} // verus!
