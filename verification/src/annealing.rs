//! The parts of the simulated annealing that are not floating point: when to
//! stop, the penalised objective, and the random neighbour of a route.
use crate::models::{lemma_greedy_in_range, lemma_greedy_prefix_len, Problem, Solution, MAX_TOUR};
use crate::phase1::inner_distinct;
use crate::rng::{epoch_step, EpochRng};
use std::time::{Duration, Instant};
use vstd::prelude::*;

verus! {

/// Limits of a run; 0 means no limit.
pub struct StopCriteria {
    pub max_time_secs: u64,
    pub max_evals: u64,
}

/// What a run has done so far.
pub struct RunStats {
    pub eval_count: u64,
}

#[verifier::external_type_specification]
#[verifier::external_body]
pub struct ExInstant(Instant);

/// Calls `Instant::elapsed`: the time since `start`. Nothing is promised of
/// the value: it is read from the clock.
#[verifier::external_body]
fn elapsed_since(start: &Instant) -> Duration {
    start.elapsed()
}

/// Calls `Duration::as_secs`: the whole seconds of `d`. Nothing is promised of
/// the value, since nothing is known of `d`.
#[verifier::external_body]
fn whole_secs(d: &Duration) -> u64 {
    d.as_secs()
}

/// The stop rule: a time limit that is set and reached, or an evaluation limit
/// that is set and reached.
pub open spec fn stop_condition(elapsed: u64, stop: &StopCriteria, stats: &RunStats) -> bool {
    (stop.max_time_secs > 0 && elapsed >= stop.max_time_secs) || (stop.max_evals > 0
        && stats.eval_count >= stop.max_evals)
}

/// The stop rule for a run that has lasted `elapsed` whole seconds.
pub fn stop_reached(elapsed: u64, stop: &StopCriteria, stats: &RunStats) -> (r: bool)
    ensures
        r == stop_condition(elapsed, stop, stats),
{
    let time_stop = stop.max_time_secs > 0 && elapsed >= stop.max_time_secs;
    let eval_stop = stop.max_evals > 0 && stats.eval_count >= stop.max_evals;
    time_stop || eval_stop
}

/// Whether a run started at `start` must stop now.
pub fn should_stop(start: &Instant, stop: &StopCriteria, stats: &RunStats) -> (r: bool)
    ensures
        exists|elapsed: u64| r == stop_condition(elapsed, stop, stats),
        stop.max_evals > 0 && stats.eval_count >= stop.max_evals ==> r,
        stop.max_time_secs == 0 ==> (r <==> stop.max_evals > 0 && stats.eval_count
            >= stop.max_evals),
{
    let elapsed = whole_secs(&elapsed_since(start));
    stop_reached(elapsed, stop, stats)
}

/// Profit minus `factor` times the excess of `cost` over the budget.
pub open spec fn penalised(profit: int, cost: int, t_max: int, factor: int) -> int {
    profit - factor * if cost > t_max {
        cost - t_max
    } else {
        0
    }
}

/// Counts one evaluation and returns the profit of `sol` minus a hundred times
/// its excess over the budget.
pub fn evaluate(sol: &Solution, problem: &Problem, stats: &mut RunStats) -> (r: i128)
    requires
        old(stats).eval_count < u64::MAX,
    ensures
        final(stats).eval_count == old(stats).eval_count + 1,
        r == penalised(sol.total_profit as int, sol.total_cost as int, problem.t_max as int, 100),
{
    stats.eval_count = stats.eval_count + 1;
    let penalty_factor: i128 = 100;
    let cost_violation: i128 = if sol.total_cost > problem.t_max {
        sol.total_cost as i128 - problem.t_max as i128
    } else {
        0
    };
    sol.total_profit as i128 - penalty_factor * cost_violation
}

/// The profit minus a hundred times the excess of `cost` over the budget.
pub fn evaluate_raw(profit: i64, cost: i64, t_max: u64) -> (r: i128)
    ensures
        r == penalised(profit as int, cost as int, t_max as int, 100),
{
    let penalty_factor: i128 = 100;
    let cost_violation: i128 = if cost as i128 > t_max as i128 {
        cost as i128 - t_max as i128
    } else {
        0
    };
    profit as i128 - penalty_factor * cost_violation
}

/// Whether `x` occurs in `v`.
pub fn contains_value(v: &Vec<usize>, x: usize) -> (r: bool)
    ensures
        r == v@.contains(x),
{
    let mut i: usize = 0;
    while i < v.len()
        invariant
            i <= v@.len(),
            forall|k: int| 0 <= k < i ==> v@[k] != x,
        decreases v@.len() - i,
    {
        if v[i] == x {
            assert(v@[i as int] == x);
            return true;
        }
        i = i + 1;
    }
    false
}

/// The random change that the annealing proposes for the cluster sequence `cl`,
/// with the generator at `state`, and the generator state after it. One draw
/// chooses between an insertion (even) and a replacement (odd). An insertion,
/// possible while the route has at most `num_clusters` stops, draws a cluster in
/// `1..num_clusters` and a position in `1..=len-1`; a replacement, possible when
/// there is an inner stop, draws an inner position and a cluster. The change is
/// made only when the drawn cluster is not on the route yet.
pub open spec fn annealing_proposal(pb: &Problem, cl: Seq<usize>, state: u64) -> (
    Option<Seq<usize>>,
    u64,
) {
    let nc = pb.num_clusters;
    let len = cl.len();
    let s1 = epoch_step(state);
    if (s1 % 2) == 0 {
        if len <= nc && nc > 1 {
            let s2 = epoch_step(s1);
            let c = ((s2 as usize) % ((nc - 1) as usize) + 1) as usize;
            let s3 = epoch_step(s2);
            let max_pos = if len - 1 > 1 { len - 1 } else { 1 };
            let pos = (s3 as usize) % (max_pos as usize) + 1;
            if !cl.contains(c) {
                (Some(cl.insert(pos as int, c)), s3)
            } else {
                (None, s3)
            }
        } else {
            (None, s1)
        }
    } else {
        if len > 2 && nc > 1 {
            let s2 = epoch_step(s1);
            let pos = (s2 as usize) % ((len - 2) as usize) + 1;
            let s3 = epoch_step(s2);
            let c = ((s3 as usize) % ((nc - 1) as usize) + 1) as usize;
            if !cl.contains(c) {
                (Some(cl.update(pos as int, c)), s3)
            } else {
                (None, s3)
            }
        } else {
            (None, s1)
        }
    }
}

/// The annealing's changes keep the shape of a route: when its cluster
/// sequence starts and ends at the depot and its inner clusters are distinct
/// and not the depot, the changed sequence is so too.
pub proof fn lemma_proposal_keeps_distinct(pb: &Problem, cl: Seq<usize>, state: u64)
    requires
        2 <= cl.len() <= usize::MAX,
        cl[0] == 0,
        cl.last() == 0,
        inner_distinct(cl),
    ensures
        annealing_proposal(pb, cl, state).0 matches Some(c2) ==> {
            &&& c2.len() >= 2
            &&& c2[0] == 0
            &&& c2.last() == 0
            &&& inner_distinct(c2)
        },
{
    let nc = pb.num_clusters;
    let len = cl.len();
    let s1 = epoch_step(state);
    if (s1 % 2) == 0 {
        if len <= nc && nc > 1 {
            let s2 = epoch_step(s1);
            let c = ((s2 as usize) % ((nc - 1) as usize) + 1) as usize;
            let s3 = epoch_step(s2);
            let max_pos = if len - 1 > 1 { len - 1 } else { 1 };
            let pos = ((s3 as usize) % (max_pos as usize) + 1) as int;
            if !cl.contains(c) {
                let c2 = cl.insert(pos, c);
                assert(1 <= pos <= len - 1);
                assert(c != 0);
                assert forall|k: int| 1 <= k < c2.len() - 1 implies #[trigger] c2[k] != 0 by {
                    if k < pos {
                        assert(c2[k] == cl[k]);
                    } else if k > pos {
                        assert(c2[k] == cl[k - 1]);
                    }
                }
                assert forall|k1: int, k2: int| 1 <= k1 < k2 < c2.len() - 1 implies #[trigger] c2[k1]
                    != #[trigger] c2[k2] by {
                    let f1 = if k1 < pos { k1 } else { k1 - 1 };
                    let f2 = if k2 < pos { k2 } else { k2 - 1 };
                    if k1 == pos {
                        assert(c2[k2] == cl[f2]);
                        assert(cl.contains(cl[f2]));
                    } else if k2 == pos {
                        assert(c2[k1] == cl[f1]);
                        assert(cl.contains(cl[f1]));
                    } else {
                        assert(c2[k1] == cl[f1]);
                        assert(c2[k2] == cl[f2]);
                    }
                }
                assert(c2[0] == cl[0]);
                assert(c2.last() == cl.last());
            }
        }
    } else {
        if len > 2 && nc > 1 {
            let s2 = epoch_step(s1);
            let pos = ((s2 as usize) % ((len - 2) as usize) + 1) as int;
            let s3 = epoch_step(s2);
            let c = ((s3 as usize) % ((nc - 1) as usize) + 1) as usize;
            if !cl.contains(c) {
                let c2 = cl.update(pos, c);
                assert(1 <= pos <= len - 2);
                assert(c != 0);
                assert forall|k1: int, k2: int| 1 <= k1 < k2 < c2.len() - 1 implies #[trigger] c2[k1]
                    != #[trigger] c2[k2] by {
                    if k1 == pos {
                        assert(cl.contains(cl[k2]));
                    } else if k2 == pos {
                        assert(cl.contains(cl[k1]));
                    }
                }
            }
        }
    }
}

/// A random neighbour of `current` for the annealing: the proposed change of its
/// cluster sequence (see `annealing_proposal`), with the nodes chosen greedily
/// and the totals recomputed; `None` when no change was made.
pub fn annealing_neighbor(problem: &Problem, current: &Solution, rng: &mut EpochRng) -> (r: Option<
    Solution,
>)
    requires
        problem.wf(),
        2 <= current.tour_clusters@.len() <= MAX_TOUR,
        problem.clusters_in_range(current.tour_clusters@),
    ensures
        ({
            let p = annealing_proposal(problem, current.tour_clusters@, old(rng)@);
            &&& final(rng)@ == p.1
            &&& match p.0 {
                None => r is None,
                Some(cl) => r matches Some(s) && s.tour_clusters@ == cl && s.tour_nodes@
                    == problem.greedy_tour(cl) && s.total_cost == problem.route_cost(s.tour_nodes@)
                    && s.total_profit == problem.clusters_profit(cl.drop_last()),
            }
        }),
{
    let nc = problem.num_clusters;
    let is_insert = rng.next_u64() % 2 == 0;
    let mut neighbor = current.clone();
    let len = neighbor.tour_clusters.len();
    let moved = if is_insert {
        if len <= nc && nc > 1 {
            let c = (rng.next_u64() as usize % (nc - 1)) + 1;
            let max_pos = if len - 1 > 1 { len - 1 } else { 1 };
            let pos = (rng.next_u64() as usize % max_pos) + 1;
            if !contains_value(&neighbor.tour_clusters, c) {
                neighbor.tour_clusters.insert(pos, c);
                true
            } else {
                false
            }
        } else {
            false
        }
    } else {
        if len > 2 && nc > 1 {
            let pos = (rng.next_u64() as usize % (len - 2)) + 1;
            let c = (rng.next_u64() as usize % (nc - 1)) + 1;
            if !contains_value(&neighbor.tour_clusters, c) {
                neighbor.tour_clusters.set(pos, c);
                true
            } else {
                false
            }
        } else {
            false
        }
    };
    if !moved {
        return None;
    }
    proof {
        let cl = neighbor.tour_clusters@;
        assert(problem.clusters_in_range(cl)) by {
            assert forall|k: int| 0 <= k < cl.len() implies #[trigger] cl[k] < problem.num_clusters by {
                if k < current.tour_clusters@.len() {
                    assert(current.tour_clusters@[k] < problem.num_clusters);
                }
            }
        }
    }
    neighbor.update_nodes_greedy(problem);
    proof {
        let cl = neighbor.tour_clusters@;
        lemma_greedy_prefix_len(problem, cl, cl.len() - 2);
        lemma_greedy_in_range(problem, cl, cl.len() - 2);
        let g = problem.greedy_tour(cl);
        assert forall|k: int| 0 <= k < g.len() implies #[trigger] g[k] < problem.num_nodes by {
            if k < g.len() - 1 {
                assert(g[k] == problem.greedy_prefix(cl, cl.len() - 2)[k]);
            }
        }
        assert(cl.drop_last().len() < cl.len());
    }
    neighbor.recompute(problem);
    Some(neighbor)
}

/// The state of an annealing run between moves: the current route and its
/// value, and the best route within the budget found so far and its value.
pub struct AnnealState {
    pub current: Solution,
    pub current_eval: i128,
    pub best: Solution,
    pub best_eval: i128,
}

/// Takes the neighbour `neighbor` of value `neighbor_eval` when `accepted` (the
/// caller's acceptance test): it becomes the current route, and the best one
/// too when its value is above the best value and it is within the budget.
/// Nothing changes when it is not accepted.
pub fn take_neighbor(
    problem: &Problem,
    st: &mut AnnealState,
    neighbor: Solution,
    neighbor_eval: i128,
    accepted: bool,
)
    ensures
        !accepted ==> *final(st) == *old(st),
        accepted ==> final(st).current.same(&neighbor) && final(st).current_eval == neighbor_eval,
        accepted && neighbor_eval > old(st).best_eval && neighbor.total_cost <= problem.t_max
            ==> final(st).best.same(&neighbor) && final(st).best_eval == neighbor_eval,
        !(accepted && neighbor_eval > old(st).best_eval && neighbor.total_cost <= problem.t_max)
            ==> final(st).best == old(st).best && final(st).best_eval == old(st).best_eval,
{
    if accepted {
        if neighbor_eval > st.best_eval && neighbor.total_cost <= problem.t_max {
            st.best = neighbor.clone();
            st.best_eval = neighbor_eval;
        }
        st.current = neighbor;
        st.current_eval = neighbor_eval;
    }
}

} // verus!
