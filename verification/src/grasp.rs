//! The integer parts of the randomized greedy construction: which clusters can
//! still be appended within the budget (with their cheapest member), appending
//! one, and comparing solutions.
use crate::models::{Problem, Solution, MAX_TOUR};
use crate::phase1::{improve_fix, insertion_delta, lemma_append_cost, lemma_assignment_stops, tour_improvement};
use crate::tabu::{accurate, assigned, route_of};
use vstd::prelude::*;

verus! {

/// The first of `ns[0..k]` with the least extra travel when visited between `u`
/// and the final return to the depot, with that extra travel; `(0, i64::MAX)`
/// when `k` is 0.
pub open spec fn cheapest_append(pb: &Problem, u: int, ns: Seq<usize>, k: int) -> (usize, int)
    decreases k,
{
    if k <= 0 {
        (0usize, i64::MAX as int)
    } else {
        let prev = cheapest_append(pb, u, ns, k - 1);
        let add = insertion_delta(pb, u, ns[k - 1] as int);
        if add < prev.1 {
            (ns[k - 1], add)
        } else {
            prev
        }
    }
}

/// The candidates among the clusters `un[0..k]`: those with members whose
/// cheapest member keeps a route of length `cost` (last node before the depot
/// `u`) within the budget, as (cluster, member, extra travel), in order.
pub open spec fn candidate_list(pb: &Problem, u: int, cost: int, un: Seq<usize>, k: int) -> Seq<
    (usize, usize, i64),
>
    decreases k,
{
    if k <= 0 {
        Seq::empty()
    } else {
        let prev = candidate_list(pb, u, cost, un, k - 1);
        let c = un[k - 1];
        let ns = pb.members(c as int);
        let b = cheapest_append(pb, u, ns, ns.len() as int);
        if ns.len() > 0 && cost + b.1 <= pb.t_max {
            prev.push((c, b.0, b.1 as i64))
        } else {
            prev
        }
    }
}

proof fn lemma_cheapest_append(pb: &Problem, u: int, ns: Seq<usize>, k: int)
    requires
        pb.wf(),
        0 <= u < pb.num_nodes,
        0 <= k <= ns.len(),
        pb.nodes_in_range(ns),
    ensures
        k > 0 ==> ns.contains(cheapest_append(pb, u, ns, k).0),
        k > 0 ==> cheapest_append(pb, u, ns, k).1 == insertion_delta(
            pb,
            u,
            cheapest_append(pb, u, ns, k).0 as int,
        ),
        k > 0 ==> -0x100_0000 <= cheapest_append(pb, u, ns, k).1 <= 0x200_0000,
        forall|t: int| 0 <= t < k ==> cheapest_append(pb, u, ns, k).1 <= insertion_delta(
            pb,
            u,
            #[trigger] ns[t] as int,
        ),
    decreases k,
{
    if k > 0 {
        lemma_cheapest_append(pb, u, ns, k - 1);
        let v = ns[k - 1];
        crate::models::lemma_index_bound(u, v as int, pb.num_nodes as int);
        crate::models::lemma_index_bound(v as int, 0, pb.num_nodes as int);
        crate::models::lemma_index_bound(u, 0, pb.num_nodes as int);
        assert(ns.contains(v)) by {
            assert(ns[k - 1] == v);
        }
        assert(cheapest_append(pb, u, ns, 0) == (0usize, i64::MAX as int));
        assert(pb.dist@[u * pb.num_nodes + v] <= 0x100_0000);
        assert(pb.dist@[v * pb.num_nodes + 0] <= 0x100_0000);
        assert(pb.dist@[u * pb.num_nodes + 0] <= 0x100_0000);
        assert(-0x100_0000 <= insertion_delta(pb, u, v as int) <= 0x200_0000);
    }
}

/// `x = (c, v, add)` is a candidate of least extra travel for a route of
/// length `cost` whose last node before the depot is `u`: `v` is a member of
/// cluster `c`, `add` its extra travel, which keeps the route within the budget,
/// and no member of `c` has less.
pub open spec fn cheapest_candidate(pb: &Problem, u: int, cost: int, x: (usize, usize, i64)) -> bool {
    &&& pb.members(x.0 as int).contains(x.1)
    &&& x.2 == insertion_delta(pb, u, x.1 as int)
    &&& cost + x.2 <= pb.t_max
    &&& forall|q: int|
        0 <= q < pb.members(x.0 as int).len() ==> x.2 <= insertion_delta(
            pb,
            u,
            #[trigger] pb.members(x.0 as int)[q] as int,
        )
}

/// The candidate list of a route of length `cost` whose last node before the
/// depot is `u`, over the clusters `un[0..k]`: each entry names one of those
/// clusters at a member of least extra travel (`cheapest_candidate`).
pub proof fn lemma_candidates_cheapest(pb: &Problem, u: int, cost: int, un: Seq<usize>, k: int)
    requires
        pb.wf(),
        0 <= u < pb.num_nodes,
        pb.clusters_in_range(un),
        0 <= k <= un.len(),
    ensures
        forall|t: int|
            0 <= t < candidate_list(pb, u, cost, un, k).len() ==> cheapest_candidate(
                pb,
                u,
                cost,
                #[trigger] candidate_list(pb, u, cost, un, k)[t],
            ) && exists|j: int| 0 <= j < k && un[j] == candidate_list(pb, u, cost, un, k)[t].0,
    decreases k,
{
    if k > 0 {
        lemma_candidates_cheapest(pb, u, cost, un, k - 1);
        let prev = candidate_list(pb, u, cost, un, k - 1);
        let cl = candidate_list(pb, u, cost, un, k);
        let c = un[k - 1];
        let ns = pb.members(c as int);
        if ns.len() > 0 {
            assert(pb.nodes_in_range(ns)) by {
                assert forall|q: int| 0 <= q < ns.len() implies #[trigger] ns[q] < pb.num_nodes by {
                    assert(pb.nodes_of_cluster@[c as int]@[q] < pb.num_nodes);
                }
            }
            lemma_cheapest_append(pb, u, ns, ns.len() as int);
        }
        let b = cheapest_append(pb, u, ns, ns.len() as int);
        assert forall|t: int| 0 <= t < cl.len() implies cheapest_candidate(pb, u, cost, #[trigger] cl[t])
            && exists|j: int| 0 <= j < k && un[j] == cl[t].0 by {
            if t < prev.len() {
                assert(cl[t] == prev[t]);
                let j0 = choose|j: int| 0 <= j < k - 1 && un[j] == prev[t].0;
                assert(un[j0] == cl[t].0);
            } else {
                assert(cl[t] == (c, b.0, b.1 as i64));
                assert(un[k - 1] == cl[t].0);
            }
        }
    }
}

/// Every cluster among `un[0..k]` with a member whose extra travel keeps a
/// route of length `cost` (last node before the depot `u`) within the budget is
/// on its candidate list.
pub proof fn lemma_candidates_complete(pb: &Problem, u: int, cost: int, un: Seq<usize>, k: int, j: int, q: int)
    requires
        pb.wf(),
        0 <= u < pb.num_nodes,
        pb.clusters_in_range(un),
        0 <= j < k <= un.len(),
        0 <= q < pb.members(un[j] as int).len(),
        cost + insertion_delta(pb, u, pb.members(un[j] as int)[q] as int) <= pb.t_max,
    ensures
        exists|t: int|
            0 <= t < candidate_list(pb, u, cost, un, k).len() && #[trigger] candidate_list(
                pb,
                u,
                cost,
                un,
                k,
            )[t].0 == un[j],
    decreases k,
{
    let prev = candidate_list(pb, u, cost, un, k - 1);
    let cl = candidate_list(pb, u, cost, un, k);
    if j < k - 1 {
        lemma_candidates_complete(pb, u, cost, un, k - 1, j, q);
        let t0 = choose|t: int| 0 <= t < prev.len() && #[trigger] prev[t].0 == un[j];
        assert(cl[t0] == prev[t0]);
    } else {
        let c = un[k - 1];
        let ns = pb.members(c as int);
        assert(pb.nodes_in_range(ns)) by {
            assert forall|q2: int| 0 <= q2 < ns.len() implies #[trigger] ns[q2] < pb.num_nodes by {
                assert(pb.nodes_of_cluster@[c as int]@[q2] < pb.num_nodes);
            }
        }
        lemma_cheapest_append(pb, u, ns, ns.len() as int);
        assert(cheapest_append(pb, u, ns, ns.len() as int).1 <= insertion_delta(pb, u, ns[q] as int));
        assert(cl[prev.len() as int].0 == c);
    }
}

/// Every candidate listed for a route is a member of its cluster, one of the
/// clusters offered, and appending it just before the return to the depot
/// makes the route exactly its extra travel longer, and still within the
/// budget.
pub proof fn lemma_candidates_fit(
    pb: &Problem,
    nodes: Seq<usize>,
    un: Seq<usize>,
    k: int,
    t: int,
)
    requires
        pb.wf(),
        nodes.len() >= 2,
        nodes.last() == 0,
        pb.nodes_in_range(nodes),
        pb.clusters_in_range(un),
        0 <= k <= un.len(),
        0 <= t < candidate_list(
            pb,
            nodes[nodes.len() - 2] as int,
            pb.route_cost(nodes),
            un,
            k,
        ).len(),
    ensures
        ({
            let x = candidate_list(pb, nodes[nodes.len() - 2] as int, pb.route_cost(nodes), un, k)[t];
            &&& un.contains(x.0)
            &&& pb.members(x.0 as int).contains(x.1)
            &&& pb.route_cost(nodes.insert(nodes.len() - 1, x.1)) == pb.route_cost(nodes) + x.2
            &&& pb.route_cost(nodes) + x.2 <= pb.t_max
        }),
    decreases k,
{
    let u = nodes[nodes.len() - 2] as int;
    let cost = pb.route_cost(nodes);
    let prev = candidate_list(pb, u, cost, un, k - 1);
    if t < prev.len() {
        lemma_candidates_fit(pb, nodes, un, k - 1, t);
        assert(candidate_list(pb, u, cost, un, k)[t] == prev[t]);
    } else {
        let c = un[k - 1];
        let ns = pb.members(c as int);
        assert(pb.nodes_in_range(ns)) by {
            assert forall|q: int| 0 <= q < ns.len() implies #[trigger] ns[q] < pb.num_nodes by {
                assert(pb.nodes_of_cluster@[c as int]@[q] < pb.num_nodes);
            }
        }
        lemma_cheapest_append(pb, u, ns, ns.len() as int);
        let b = cheapest_append(pb, u, ns, ns.len() as int);
        assert(un.contains(c)) by {
            assert(un[k - 1] == c);
        }
        lemma_append_cost(pb, nodes, b.0);
    }
}

/// The appendable clusters among `unvisited` for `sol` (last node before the
/// depot `u`), with their cheapest members and extra travel, in the order of
/// `unvisited`.
pub fn grasp_candidates(pb: &Problem, sol: &Solution, unvisited: &Vec<usize>) -> (res: Vec<
    (usize, usize, i64),
>)
    requires
        pb.wf(),
        2 <= sol.tour_nodes@.len(),
        pb.nodes_in_range(sol.tour_nodes@),
        pb.clusters_in_range(unvisited@),
    ensures
        res@ == candidate_list(
            pb,
            sol.tour_nodes@[sol.tour_nodes@.len() - 2] as int,
            sol.total_cost as int,
            unvisited@,
            unvisited@.len() as int,
        ),
{
    let len = sol.tour_nodes.len();
    let u = sol.tour_nodes[len - 2];
    let mut res: Vec<(usize, usize, i64)> = Vec::new();
    let mut k: usize = 0;
    while k < unvisited.len()
        invariant
            pb.wf(),
            u < pb.num_nodes,
            pb.clusters_in_range(unvisited@),
            k <= unvisited@.len(),
            res@ == candidate_list(pb, u as int, sol.total_cost as int, unvisited@, k as int),
        decreases unvisited@.len() - k,
    {
        let c = unvisited[k];
        let members = &pb.nodes_of_cluster[c];
        let mut best_node: usize = 0;
        let mut best_cost_add: i64 = i64::MAX;
        let mut t: usize = 0;
        proof {
            assert(pb.nodes_in_range(members@)) by {
                assert forall|q: int| 0 <= q < members@.len() implies #[trigger] members@[q]
                    < pb.num_nodes by {
                    assert(pb.nodes_of_cluster@[c as int]@[q] < pb.num_nodes);
                }
            }
        }
        while t < members.len()
            invariant
                pb.wf(),
                c < pb.num_clusters,
                members@ == pb.members(c as int),
                pb.nodes_in_range(members@),
                u < pb.num_nodes,
                t <= members@.len(),
                (best_node, best_cost_add as int) == cheapest_append(pb, u as int, members@, t as int),
            decreases members@.len() - t,
        {
            let v = members[t];
            let cost_add: i64 = pb.get_dist(u, v) as i64 + pb.get_dist(v, 0) as i64 - pb.get_dist(u, 0) as i64;
            if cost_add < best_cost_add {
                best_cost_add = cost_add;
                best_node = v;
            }
            t = t + 1;
        }
        if members.len() > 0 && (sol.total_cost as i128) + (best_cost_add as i128) <= (pb.t_max as i128) {
            res.push((c, best_node, best_cost_add));
        }
        k = k + 1;
    }
    res
}

/// Appends `node` of `cluster` just before the return to the depot, adding
/// `cost_add` to the length and the cluster's profit to the profit.
pub fn append_candidate(sol: &mut Solution, pb: &Problem, cluster: usize, node: usize, cost_add: i64)
    requires
        pb.wf(),
        2 <= old(sol).tour_nodes@.len() == old(sol).tour_clusters@.len(),
        old(sol).tour_nodes@.len() + 1 <= MAX_TOUR,
        cluster < pb.num_clusters,
        0 <= old(sol).total_cost + cost_add <= u64::MAX,
        old(sol).total_profit + pb.profit(cluster as int) <= u64::MAX,
    ensures
        final(sol).tour_nodes@ == old(sol).tour_nodes@.insert(old(sol).tour_nodes@.len() - 1, node),
        final(sol).tour_clusters@ == old(sol).tour_clusters@.insert(
            old(sol).tour_clusters@.len() - 1,
            cluster,
        ),
        final(sol).total_cost == old(sol).total_cost + cost_add,
        final(sol).total_profit == old(sol).total_profit + pb.profit(cluster as int),
{
    let end_idx = sol.tour_nodes.len() - 1;
    sol.tour_nodes.insert(end_idx, node);
    sol.tour_clusters.insert(end_idx, cluster);
    sol.total_cost = (sol.total_cost as i128 + cost_add as i128) as u64;
    sol.total_profit = sol.total_profit + pb.profits[cluster];
}

/// `s` without the entries equal to `v`, the others in order.
pub open spec fn without_value(s: Seq<usize>, v: usize) -> Seq<usize>
    decreases s.len(),
{
    if s.len() == 0 {
        Seq::empty()
    } else if s.last() == v {
        without_value(s.drop_last(), v)
    } else {
        without_value(s.drop_last(), v).push(s.last())
    }
}

/// `unvisited` without the entries equal to `chosen`, the others in order.
pub fn remove_value(unvisited: &mut Vec<usize>, chosen: usize)
    ensures
        final(unvisited)@ == without_value(old(unvisited)@, chosen),
{
    let ghost s = unvisited@;
    let mut out: Vec<usize> = Vec::new();
    let mut k: usize = 0;
    while k < unvisited.len()
        invariant
            unvisited@ == s,
            k <= s.len(),
            out@ == without_value(s.take(k as int), chosen),
        decreases s.len() - k,
    {
        let x = unvisited[k];
        proof {
            assert(s.take(k as int + 1).drop_last() =~= s.take(k as int));
            assert(s.take(k as int + 1).last() == x);
        }
        if x != chosen {
            out.push(x);
        }
        k = k + 1;
    }
    assert(s.take(s.len() as int) =~= s);
    *unvisited = out;
}

/// `current` is better than `best`: more profit, or as much profit and shorter.
pub fn improves(current: &Solution, best: &Solution) -> (r: bool)
    ensures
        r == (current.total_profit > best.total_profit || (current.total_profit == best.total_profit
            && current.total_cost < best.total_cost)),
{
    current.total_profit > best.total_profit || (current.total_profit == best.total_profit
        && current.total_cost < best.total_cost)
}

/// One pick of the randomized greedy construction from its restricted
/// candidate list `rcl`: the entry at `draw` modulo the list's length is
/// appended to `sol` (see `append_candidate`) and its cluster leaves
/// `unvisited`; returns the entry.
pub fn append_pick(
    sol: &mut Solution,
    pb: &Problem,
    unvisited: &mut Vec<usize>,
    rcl: &Vec<(usize, usize, i64)>,
    draw: u32,
) -> (pick: (usize, usize, i64))
    requires
        pb.wf(),
        rcl@.len() > 0,
        2 <= old(sol).tour_nodes@.len() == old(sol).tour_clusters@.len(),
        old(sol).tour_nodes@.len() + 1 <= MAX_TOUR,
        ({
            let x = rcl@[(draw as int) % (rcl@.len() as int)];
            &&& x.0 < pb.num_clusters
            &&& 0 <= old(sol).total_cost + x.2 <= u64::MAX
            &&& old(sol).total_profit + pb.profit(x.0 as int) <= u64::MAX
        }),
    ensures
        pick == rcl@[(draw as int) % (rcl@.len() as int)],
        final(sol).tour_nodes@ == old(sol).tour_nodes@.insert(old(sol).tour_nodes@.len() - 1, pick.1),
        final(sol).tour_clusters@ == old(sol).tour_clusters@.insert(
            old(sol).tour_clusters@.len() - 1,
            pick.0,
        ),
        final(sol).total_cost == old(sol).total_cost + pick.2,
        final(sol).total_profit == old(sol).total_profit + pb.profit(pick.0 as int),
        final(unvisited)@ == without_value(old(unvisited)@, pick.0),
{
    let idx = (draw as usize) % rcl.len();
    let pick = rcl[idx];
    append_candidate(sol, pb, pick.0, pick.1, pick.2);
    remove_value(unvisited, pick.0);
    pick
}

/// The state of a GRASP run between iterations: the best route so far, the
/// evaluations counted and the iterations since the best last improved.
pub struct GraspState {
    pub best: Solution,
    pub eval_count: u64,
    pub iter_without_improvement: usize,
}

/// What `tour_improvement` makes of `sol`: its nodes and clusters, and the
/// totals it keeps (those of the new route for a route of more than two stops,
/// else those of `sol`).
pub open spec fn polished(pb: &Problem, sol: &Solution) -> (Seq<usize>, Seq<usize>, int, int) {
    let r = improve_fix(pb, sol.tour_nodes@, sol.tour_clusters@, sol.total_cost as int);
    if sol.tour_nodes@.len() > 2 {
        (r.0, r.1, pb.clusters_profit(r.1.drop_last()), pb.route_cost(r.0))
    } else {
        (r.0, r.1, sol.total_profit as int, sol.total_cost as int)
    }
}

/// One GRASP iteration after the construction of `built`: improves it locally,
/// counts one evaluation, and keeps it as the best when it beats the best (more
/// profit, or as much profit and shorter), else counts one more iteration
/// without improvement. A best within the budget stays within it when `built`
/// is within the budget, keeps exact totals and has each stop in its cluster.
pub fn grasp_step(pb: &Problem, st: &mut GraspState, built: Solution)
    requires
        pb.wf(),
        2 <= built.tour_nodes@.len() <= MAX_TOUR,
        built.tour_clusters@.len() == built.tour_nodes@.len(),
        pb.nodes_in_range(built.tour_nodes@),
        pb.clusters_in_range(built.tour_clusters@),
        old(st).eval_count < u64::MAX,
        old(st).iter_without_improvement < usize::MAX,
    ensures
        final(st).eval_count == old(st).eval_count + 1,
        ({
            let p = polished(pb, &built);
            let better = p.2 > old(st).best.total_profit || (p.2 == old(st).best.total_profit && p.3
                < old(st).best.total_cost);
            &&& better ==> final(st).best.tour_nodes@ == p.0 && final(st).best.tour_clusters@ == p.1
                && final(st).best.total_profit == p.2 && final(st).best.total_cost == p.3
                && final(st).iter_without_improvement == 0
            &&& !better ==> final(st).best.same(&old(st).best) && final(st).iter_without_improvement
                == old(st).iter_without_improvement + 1
        }),
        old(st).best.total_cost <= pb.t_max && built.total_cost <= pb.t_max && assigned(
            pb,
            route_of(&built),
        ) && accurate(pb, &built) ==> final(st).best.total_cost <= pb.t_max,
{
    let mut current = built;
    let ghost orig = current;
    proof {
        lemma_assignment_stops(pb, orig.tour_clusters@, orig.tour_nodes@);
    }
    tour_improvement(pb, &mut current);
    st.eval_count = st.eval_count + 1;
    if improves(&current, &st.best) {
        st.best = current;
        st.iter_without_improvement = 0;
    } else {
        st.iter_without_improvement = st.iter_without_improvement + 1;
    }
}

} // verus!
