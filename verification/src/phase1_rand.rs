//! A random first route: the clusters in shuffled order, each tried once at a
//! random member, kept when the route stays within the budget.
use crate::feasibility::feasible;
use crate::models::{Problem, Solution, MAX_PROFIT, MAX_TOUR};
use crate::phase1::{inner_distinct, insertion_delta, lemma_append_cost};
use crate::rng::{epoch_step, lemma_shuffled_distinct, shuffled, EpochRng};
use vstd::prelude::*;

verus! {

/// The cluster ids `1..n`.
pub open spec fn ascending_ids(n: int) -> Seq<usize> {
    Seq::new((n - 1) as nat, |k: int| (k + 1) as usize)
}

/// The random route after trying the clusters `ids[0..k]` with the generator
/// starting at `state`: a cluster with members draws one member at random and
/// keeps it, just before the return to the depot, when the route stays within
/// the budget. Gives (nodes, clusters, profit, cost, generator state).
pub open spec fn random_route(pb: &Problem, ids: Seq<usize>, state: u64, k: int) -> (
    Seq<usize>,
    Seq<usize>,
    int,
    int,
    u64,
)
    decreases k,
{
    if k <= 0 {
        (seq![0usize, 0usize], seq![0usize, 0usize], 0, 0, state)
    } else {
        let st = random_route(pb, ids, state, k - 1);
        let c = ids[k - 1];
        let ns = pb.members(c as int);
        if ns.len() == 0 {
            st
        } else {
            let s2 = epoch_step(st.4);
            let v = ns[((s2 as usize) % (ns.len() as usize)) as int];
            let last = st.0[st.0.len() - 2];
            let delta = insertion_delta(pb, last as int, v as int);
            if st.3 + delta <= pb.t_max {
                (
                    st.0.insert(st.0.len() - 1, v),
                    st.1.insert(st.1.len() - 1, c),
                    st.2 + pb.profit(c as int),
                    st.3 + delta,
                    s2,
                )
            } else {
                (st.0, st.1, st.2, st.3, s2)
            }
        }
    }
}

/// A random route: the clusters `1..num_clusters` are shuffled with `rng`, and
/// each non-empty one in turn draws a member with `rng.gen_range_usize` and is
/// kept, just before the return to the depot, when the route stays within the
/// budget.
pub fn random_feasible_initial_solution(problem: &Problem, rng: &mut EpochRng) -> (sol: Solution)
    requires
        problem.wf(),
    ensures
        ({
            let sh = shuffled(
                ascending_ids(problem.num_clusters as int),
                old(rng)@,
                problem.num_clusters - 2,
            );
            let r = random_route(problem, sh.0, sh.1, problem.num_clusters - 1);
            &&& sol.tour_nodes@ == r.0
            &&& sol.tour_clusters@ == r.1
            &&& sol.total_profit == r.2
            &&& sol.total_cost == r.3
            &&& final(rng)@ == r.4
        }),
        sol.total_cost == problem.route_cost(sol.tour_nodes@),
        problem.partitioned() ==> feasible(problem, &sol),
{
    let nc = problem.num_clusters;
    let mut cluster_ids: Vec<usize> = Vec::new();
    let mut c: usize = 1;
    while c < nc
        invariant
            1 <= c <= nc,
            cluster_ids@ == ascending_ids(c as int),
        decreases nc - c,
    {
        cluster_ids.push(c);
        c = c + 1;
        assert(cluster_ids@ =~= ascending_ids(c as int));
    }
    let ghost ids0 = cluster_ids@;
    let ghost st0 = rng@;
    rng.shuffle(cluster_ids.as_mut_slice());
    proof {
        lemma_shuffled_distinct(ids0, st0, nc - 2, 1, nc);
    }
    let ghost ids = cluster_ids@;
    let ghost st1 = rng@;
    let mut tour_nodes: Vec<usize> = vec![0, 0];
    let mut tour_clusters: Vec<usize> = vec![0, 0];
    let mut total_cost: u64 = 0;
    let mut total_profit: u64 = 0;
    proof {
        let z = seq![0usize, 0usize];
        assert(tour_nodes@ =~= z);
        assert(z.drop_last() =~= seq![0usize]);
        assert(problem.arc(0, 0) == 0);
        assert(problem.route_cost(seq![0usize]) == 0);
        assert(problem.route_cost(z) == problem.route_cost(z.drop_last()) + problem.arc(0, 0));
    }
    let mut k: usize = 0;
    while k < cluster_ids.len()
        invariant
            problem.wf(),
            nc == problem.num_clusters,
            ids == cluster_ids@,
            ids.len() + 1 == nc,
            forall|j: int| 0 <= j < ids.len() ==> 1 <= #[trigger] ids[j] < nc,
            forall|a: int, b: int| 0 <= a < b < ids.len() ==> #[trigger] ids[a] != #[trigger] ids[b],
            k <= ids.len(),
            ({
                let r = random_route(problem, ids, st1, k as int);
                &&& tour_nodes@ == r.0
                &&& tour_clusters@ == r.1
                &&& total_profit == r.2
                &&& total_cost == r.3
                &&& rng@ == r.4
            }),
            total_cost == problem.route_cost(tour_nodes@),
            total_cost <= problem.t_max,
            2 <= tour_nodes@.len() <= k + 2,
            tour_clusters@.len() == tour_nodes@.len(),
            total_profit <= (tour_nodes@.len() - 2) * MAX_PROFIT,
            tour_nodes@[0] == 0 && tour_nodes@.last() == 0,
            tour_clusters@[0] == 0 && tour_clusters@.last() == 0,
            problem.nodes_in_range(tour_nodes@),
            problem.clusters_in_range(tour_clusters@),
            inner_distinct(tour_clusters@),
            forall|j: int|
                1 <= j < tour_nodes@.len() - 1 ==> problem.members(tour_clusters@[j] as int).contains(
                    #[trigger] tour_nodes@[j],
                ),
            forall|j: int|
                1 <= j < tour_clusters@.len() - 1 ==> exists|t: int|
                    0 <= t < k && ids[t] == #[trigger] tour_clusters@[j],
        decreases ids.len() - k,
    {
        let c = cluster_ids[k];
        let nodes = &problem.nodes_of_cluster[c];
        if nodes.len() == 0 {
            k = k + 1;
            continue;
        }
        let idx = rng.gen_range_usize(0, nodes.len());
        let candidate_node = nodes[idx];
        proof {
            let t0 = idx as int;
            assert(problem.nodes_of_cluster@[c as int]@[t0] == candidate_node);
            assert(problem.members(c as int).contains(candidate_node));
            crate::models::lemma_route_cost_bound(problem, tour_nodes@);
        }
        let len = tour_nodes.len();
        let last_visited = tour_nodes[len - 2];
        let cost_removed = problem.get_dist(last_visited, 0);
        let cost_added = problem.get_dist(last_visited, candidate_node) + problem.get_dist(
            candidate_node,
            0,
        );
        let delta_cost: i64 = cost_added as i64 - cost_removed as i64;
        if (total_cost as i128) + (delta_cost as i128) <= (problem.t_max as i128) {
            let ghost old_nodes = tour_nodes@;
            let ghost old_cl = tour_clusters@;
            proof {
                lemma_append_cost(problem, tour_nodes@, candidate_node);
                crate::models::lemma_route_cost_bound(
                    problem,
                    tour_nodes@.insert(len - 1, candidate_node),
                );
                assert forall|j: int| 0 <= j < len + 1 implies #[trigger] tour_nodes@.insert(
                    len - 1,
                    candidate_node,
                )[j] < problem.num_nodes by {
                    if j < len - 1 {
                        assert(tour_nodes@.insert(len - 1, candidate_node)[j] == tour_nodes@[j]);
                    } else if j > len - 1 {
                        assert(tour_nodes@.insert(len - 1, candidate_node)[j] == tour_nodes@[j - 1]);
                    }
                }
            }
            tour_nodes.insert(len - 1, candidate_node);
            tour_clusters.insert(len - 1, c);
            total_cost = (total_cost as i64 + delta_cost) as u64;
            total_profit = total_profit + problem.profits[c];
            proof {
                let nn = tour_nodes@;
                let ncl = tour_clusters@;
                assert forall|j: int| 0 <= j < ncl.len() implies #[trigger] ncl[j] < problem.num_clusters by {
                    if j < len - 1 {
                        assert(ncl[j] == old_cl[j]);
                    } else if j > len - 1 {
                        assert(ncl[j] == old_cl[j - 1]);
                    }
                }
                assert forall|j: int|
                    1 <= j < nn.len() - 1 implies problem.members(ncl[j] as int).contains(
                        #[trigger] nn[j],
                    ) by {
                    if j < len - 1 {
                        assert(ncl[j] == old_cl[j]);
                        assert(nn[j] == old_nodes[j]);
                    }
                }
                assert forall|j: int|
                    1 <= j < ncl.len() - 1 implies exists|t: int|
                        0 <= t < k + 1 && ids[t] == #[trigger] ncl[j] by {
                    if j < len - 1 {
                        assert(ncl[j] == old_cl[j]);
                        let t = choose|t: int| 0 <= t < k && ids[t] == old_cl[j];
                        assert(ids[t] == ncl[j]);
                    } else {
                        assert(ids[k as int] == ncl[j]);
                    }
                }
                assert forall|j: int| 1 <= j < ncl.len() - 1 implies #[trigger] ncl[j] != 0 by {
                    if j < len - 1 {
                        assert(ncl[j] == old_cl[j]);
                    }
                }
                assert forall|j1: int, j2: int|
                    1 <= j1 < j2 < ncl.len() - 1 implies #[trigger] ncl[j1] != #[trigger] ncl[j2] by {
                    if j2 < len - 1 {
                        assert(ncl[j1] == old_cl[j1]);
                        assert(ncl[j2] == old_cl[j2]);
                    } else {
                        assert(ncl[j1] == old_cl[j1]);
                        let t = choose|t: int| 0 <= t < k && ids[t] == old_cl[j1];
                        assert(ids[t] != ids[k as int]);
                    }
                }
                assert(ncl.last() == 0);
                assert(nn.last() == 0);
                assert(nn[0] == 0);
                assert(ncl[0] == 0);
            }
        }
        k = k + 1;
    }
    let sol = Solution { tour_nodes, tour_clusters, total_profit, total_cost };
    proof {
        if problem.partitioned() {
            assert forall|j: int| 0 <= j < sol.tour_nodes@.len() implies #[trigger] sol.tour_nodes@[j]
                < problem.num_nodes && sol.tour_clusters@[j] < problem.num_clusters
                && problem.cluster_of_node@[sol.tour_nodes@[j] as int] == sol.tour_clusters@[j] by {
                let c = sol.tour_clusters@[j] as int;
                if j == 0 || j == sol.tour_nodes@.len() - 1 {
                    assert(problem.members(0).contains(0usize));
                }
                assert(problem.members(c).contains(sol.tour_nodes@[j]));
                let t = choose|t: int|
                    0 <= t < problem.members(c).len() && problem.members(c)[t] == sol.tour_nodes@[j];
                assert(problem.cluster_of_node@[problem.members(c)[t] as int] == c);
            }
        }
    }
    sol
}

} // verus!
