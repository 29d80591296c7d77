//! Feasibility of routes: shape, node/cluster agreement, no repeated cluster,
//! and the travel budget.
use crate::models::{Problem, Solution, MAX_TOUR};
use vstd::prelude::*;

verus! {

/// A route that the instance accepts: it starts and ends at the depot (node 0,
/// cluster 0), has as many nodes as clusters, every node is a node of the
/// instance standing for its own cluster, no inner stop is the depot cluster or
/// repeats a cluster, and its length is within the budget.
pub open spec fn feasible(pb: &Problem, sol: &Solution) -> bool {
    let nodes = sol.tour_nodes@;
    let cl = sol.tour_clusters@;
    &&& nodes.len() >= 2
    &&& cl.len() >= 2
    &&& nodes[0] == 0 && nodes.last() == 0
    &&& cl[0] == 0 && cl.last() == 0
    &&& nodes.len() == cl.len()
    &&& forall|k: int|
        0 <= k < nodes.len() ==> #[trigger] nodes[k] < pb.num_nodes && cl[k] < pb.num_clusters
            && pb.cluster_of_node@[nodes[k] as int] == cl[k]
    &&& forall|k: int| 1 <= k < cl.len() - 1 ==> #[trigger] cl[k] != 0
    &&& forall|k1: int, k2: int|
        1 <= k1 < k2 < cl.len() - 1 ==> #[trigger] cl[k1] != #[trigger] cl[k2]
    &&& pb.route_cost(nodes) <= pb.t_max
}

/// Distinct values below `bound` number at most `bound`.
pub proof fn lemma_distinct_bounded(s: Seq<usize>, bound: nat)
    requires
        forall|k: int| 0 <= k < s.len() ==> #[trigger] s[k] < bound,
        forall|k1: int, k2: int| 0 <= k1 < k2 < s.len() ==> #[trigger] s[k1] != #[trigger] s[k2],
    ensures
        s.len() <= bound,
{
    let set = s.to_set();
    s.unique_seq_to_set();
    lemma_set_below_len(bound);
    assert(set.subset_of(Set::new(|x: usize| x < bound)));
    vstd::set_lib::lemma_len_subset(set, Set::new(|x: usize| x < bound));
    lemma_set_below_len(bound);
}

/// The set of `usize` values below `bound` has `bound` elements (or fewer).
proof fn lemma_set_below_len(bound: nat)
    ensures
        Set::new(|x: usize| x < bound).finite(),
        Set::new(|x: usize| x < bound).len() <= bound,
    decreases bound,
{
    if bound == 0 {
        assert(Set::new(|x: usize| x < bound) =~= Set::empty());
    } else {
        lemma_set_below_len((bound - 1) as nat);
        let smaller = Set::new(|x: usize| x < (bound - 1) as nat);
        if bound - 1 <= usize::MAX {
            let top = (bound - 1) as usize;
            assert(Set::new(|x: usize| x < bound) =~= smaller.insert(top));
        } else {
            assert(Set::new(|x: usize| x < bound) =~= smaller);
        }
    }
}

/// Whether `sol` is a feasible route of `pb`.
pub fn is_feasible(problem: &Problem, sol: &Solution) -> (r: bool)
    requires
        problem.wf(),
    ensures
        r == feasible(problem, sol),
{
    let nodes = &sol.tour_nodes;
    let cl = &sol.tour_clusters;
    if nodes.len() < 2 || cl.len() < 2 {
        return false;
    }
    if nodes[0] != 0 || nodes[nodes.len() - 1] != 0 {
        return false;
    }
    if cl[0] != 0 || cl[cl.len() - 1] != 0 {
        return false;
    }
    if nodes.len() != cl.len() {
        return false;
    }
    let len = nodes.len();
    let mut i: usize = 0;
    while i < len
        invariant
            problem.wf(),
            nodes@ == sol.tour_nodes@,
            cl@ == sol.tour_clusters@,
            len == nodes@.len(),
            len == cl@.len(),
            i <= len,
            forall|k: int|
                0 <= k < i ==> #[trigger] nodes@[k] < problem.num_nodes && cl@[k]
                    < problem.num_clusters && problem.cluster_of_node@[nodes@[k] as int]
                    == cl@[k],
        decreases len - i,
    {
        let node = nodes[i];
        let cluster = cl[i];
        assert(nodes@[i as int] == node && cl@[i as int] == cluster);
        if node >= problem.num_nodes || cluster >= problem.num_clusters {
            return false;
        }
        if problem.cluster_of_node[node] != cluster {
            return false;
        }
        i = i + 1;
    }
    assert forall|j: int| 0 <= j < len implies #[trigger] cl@[j] < problem.num_clusters by {
        assert(nodes@[j] < problem.num_nodes);
    }
    let mut seen: Vec<bool> = vec![false; problem.num_clusters];
    let mut k: usize = 1;
    while k < len - 1
        invariant
            problem.wf(),
            nodes@ == sol.tour_nodes@,
            cl@ == sol.tour_clusters@,
            len == nodes@.len(),
            len == cl@.len(),
            len >= 2,
            1 <= k <= len - 1,
            seen@.len() == problem.num_clusters,
            forall|j: int| 0 <= j < len ==> #[trigger] cl@[j] < problem.num_clusters,
            forall|j: int| 1 <= j < k ==> #[trigger] cl@[j] != 0,
            forall|j1: int, j2: int| 1 <= j1 < j2 < k ==> #[trigger] cl@[j1] != #[trigger] cl@[j2],
            forall|c: int|
                0 <= c < problem.num_clusters ==> (#[trigger] seen@[c] <==> exists|j: int|
                    1 <= j < k && cl@[j] == c),
        decreases len - 1 - k,
    {
        let c = cl[k];
        assert(cl@[k as int] == c);
        assert(c < problem.num_clusters);
        if c == 0 {
            return false;
        }
        if seen[c] {
            let ghost j = choose|j: int| 1 <= j < k && cl@[j] == c;
            assert(cl@[j] == cl@[k as int]);
            return false;
        }
        seen.set(c, true);
        k = k + 1;
    }
    proof {
        let inner = cl@.subrange(1, len - 1);
        assert forall|j: int| 0 <= j < inner.len() implies #[trigger] inner[j] < problem.num_clusters by {
            assert(inner[j] == cl@[j + 1]);
        }
        assert forall|j1: int, j2: int| 0 <= j1 < j2 < inner.len() implies #[trigger] inner[j1]
            != #[trigger] inner[j2] by {
            assert(inner[j1] == cl@[j1 + 1]);
            assert(inner[j2] == cl@[j2 + 1]);
        }
        lemma_distinct_bounded(inner, problem.num_clusters as nat);
        assert(nodes@.len() <= MAX_TOUR);
    }
    let mut cost: u64 = 0;
    let mut i: usize = 0;
    while i < len - 1
        invariant
            problem.wf(),
            nodes@ == sol.tour_nodes@,
            cl@ == sol.tour_clusters@,
            len == nodes@.len(),
            2 <= len <= MAX_TOUR,
            i <= len - 1,
            problem.nodes_in_range(nodes@),
            cost == problem.route_cost(nodes@.take(i as int + 1)),
        decreases len - 1 - i,
    {
        proof {
            let s = nodes@.take(i as int + 2);
            assert(s.drop_last() == nodes@.take(i as int + 1));
            crate::models::lemma_route_cost_bound(problem, nodes@.take(i as int + 1));
        }
        let d = problem.get_dist(nodes[i], nodes[i + 1]);
        cost = cost + d;
        i = i + 1;
    }
    assert(nodes@.take(len as int) == nodes@);
    cost <= problem.t_max
}

} // verus!
