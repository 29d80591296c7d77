//! The instance (`Problem`) and a route through it (`Solution`).
//!
//! Distances are the CEIL_2D rounded Euclidean distances of the instance files,
//! which are whole numbers; profits and the travel budget are held as whole
//! numbers too. A route visits node 0 (the depot, cluster 0) first and last.
use vstd::prelude::*;

verus! {

/// Largest distance between two nodes that an instance may hold.
pub const MAX_DIST: u64 = 0x100_0000;

/// Largest profit of a cluster that an instance may hold.
pub const MAX_PROFIT: u64 = 0x100_0000;

/// Largest number of stops of a route that the library handles.
pub const MAX_TOUR: usize = 0x1000_0000;

/// An instance: `num_nodes` nodes partitioned into `num_clusters` clusters, the
/// row-major distance matrix, the cluster of each node, the nodes of each
/// cluster, the profit of each cluster and the travel budget `t_max`.
pub struct Problem {
    pub num_nodes: usize,
    pub num_clusters: usize,
    pub t_max: u64,
    pub dist: Vec<u64>,
    pub cluster_of_node: Vec<usize>,
    pub nodes_of_cluster: Vec<Vec<usize>>,
    pub profits: Vec<u64>,
}

/// `i * n + j < n * n` for `i, j < n`.
pub proof fn lemma_index_bound(i: int, j: int, n: int)
    requires
        0 <= i < n,
        0 <= j < n,
    ensures
        0 <= i * n + j < n * n,
{
    assert(0 <= i * n + j < n * n) by (nonlinear_arith)
        requires
            0 <= i < n,
            0 <= j < n,
    ;
}

impl Problem {
    /// The shape every instance has: a depot node and a depot cluster, table
    /// sizes that agree, node ids in range, bounded symmetric distances that are
    /// zero from a node to itself, and bounded profits.
    pub open spec fn wf(&self) -> bool {
        &&& 0 < self.num_nodes
        &&& 0 < self.num_clusters
        &&& self.num_nodes < MAX_TOUR
        &&& self.num_clusters + 3 <= MAX_TOUR
        &&& self.dist@.len() == self.num_nodes * self.num_nodes
        &&& self.cluster_of_node@.len() == self.num_nodes
        &&& self.nodes_of_cluster@.len() == self.num_clusters
        &&& self.profits@.len() == self.num_clusters
        &&& forall|k: int| 0 <= k < self.dist@.len() ==> #[trigger] self.dist@[k] <= MAX_DIST
        &&& forall|c: int| 0 <= c < self.num_clusters ==> #[trigger] self.profits@[c] <= MAX_PROFIT
        &&& forall|c: int, k: int|
            0 <= c < self.num_clusters && 0 <= k < self.nodes_of_cluster@[c]@.len()
                ==> #[trigger] self.nodes_of_cluster@[c]@[k] < self.num_nodes
        &&& forall|c: int| 0 <= c < self.num_clusters
            ==> #[trigger] self.nodes_of_cluster@[c]@.len() <= self.num_nodes
        &&& forall|i: int, j: int|
            0 <= i < self.num_nodes && 0 <= j < self.num_nodes ==> #[trigger] self.arc(i, j)
                == self.arc(j, i)
        &&& forall|i: int| 0 <= i < self.num_nodes ==> #[trigger] self.arc(i, i) == 0
    }

    /// The clusters partition the nodes as the node-to-cluster table says, and
    /// the depot node is in the depot cluster.
    pub open spec fn partitioned(&self) -> bool {
        &&& self.members(0).contains(0usize)
        &&& forall|c: int, k: int|
            0 <= c < self.num_clusters && 0 <= k < self.members(c).len()
                ==> self.cluster_of_node@[#[trigger] self.members(c)[k] as int] == c
    }

    /// The distance from node `i` to node `j`.
    pub open spec fn arc(&self, i: int, j: int) -> int {
        self.dist@[i * self.num_nodes + j] as int
    }

    /// The nodes of cluster `c`.
    pub open spec fn members(&self, c: int) -> Seq<usize> {
        self.nodes_of_cluster@[c]@
    }

    /// The profit of cluster `c`.
    pub open spec fn profit(&self, c: int) -> int {
        self.profits@[c] as int
    }

    /// Every entry of `s` is a node id.
    pub open spec fn nodes_in_range(&self, s: Seq<usize>) -> bool {
        forall|k: int| 0 <= k < s.len() ==> #[trigger] s[k] < self.num_nodes
    }

    /// Every entry of `s` is a cluster id.
    pub open spec fn clusters_in_range(&self, s: Seq<usize>) -> bool {
        forall|k: int| 0 <= k < s.len() ==> #[trigger] s[k] < self.num_clusters
    }

    /// Length of the route that visits the nodes of `s` in order.
    pub open spec fn route_cost(&self, s: Seq<usize>) -> int
        decreases s.len(),
    {
        if s.len() < 2 {
            0
        } else {
            self.route_cost(s.drop_last()) + self.arc(s[s.len() - 2] as int, s.last() as int)
        }
    }

    /// Sum of the profits of the non-depot entries of `s` (each occurrence counts).
    pub open spec fn clusters_profit(&self, s: Seq<usize>) -> int
        decreases s.len(),
    {
        if s.len() == 0 {
            0
        } else {
            self.clusters_profit(s.drop_last()) + if s.last() != 0 {
                self.profit(s.last() as int)
            } else {
                0
            }
        }
    }

    /// The first of `ns[0..k]` nearest to node `u`, with its distance; (0, u64::MAX)
    /// when `k` is 0.
    pub open spec fn nearest(&self, u: int, ns: Seq<usize>, k: int) -> (usize, int)
        decreases k,
    {
        if k <= 0 {
            (0usize, u64::MAX as int)
        } else {
            let prev = self.nearest(u, ns, k - 1);
            let dd = self.arc(u, ns[k - 1] as int);
            if dd < prev.1 {
                (ns[k - 1], dd)
            } else {
                prev
            }
        }
    }

    /// The node of cluster `c` nearest to node `u` (the first such), or 0 when
    /// the cluster is empty.
    pub open spec fn nearest_member(&self, u: int, c: int) -> usize {
        self.nearest(u, self.members(c), self.members(c).len() as int).0
    }

    /// Nodes chosen greedily for the stops `0..=i` of a route through the clusters
    /// `cl`: the depot, then at each stop the member of its cluster nearest to
    /// the node chosen before.
    pub open spec fn greedy_prefix(&self, cl: Seq<usize>, i: int) -> Seq<usize>
        decreases i,
    {
        if i <= 0 {
            seq![0usize]
        } else {
            let p = self.greedy_prefix(cl, i - 1);
            p.push(self.nearest_member(p.last() as int, cl[i] as int))
        }
    }

    /// The greedy nodes for the clusters `cl`, closed by a return to the depot.
    pub open spec fn greedy_tour(&self, cl: Seq<usize>) -> Seq<usize> {
        self.greedy_prefix(cl, if cl.len() >= 2 { cl.len() - 2 } else { 0 }).push(0usize)
    }

    /// Entry `i * num_nodes + j` of the row-major distance table: for nodes `i`
    /// and `j`, the distance from `i` to `j`.
    pub fn get_dist(&self, i: usize, j: usize) -> (r: u64)
        requires
            self.wf(),
            (i < self.num_nodes && j < self.num_nodes) || i * self.num_nodes + j < self.dist@.len(),
        ensures
            r == self.dist@[i * self.num_nodes + j],
            r == self.arc(i as int, j as int),
            r <= MAX_DIST,
    {
        if i < self.num_nodes && j < self.num_nodes {
            proof {
                lemma_index_bound(i as int, j as int, self.num_nodes as int);
            }
        }
        let len = self.dist.len();
        assert(i * self.num_nodes + j < len);
        assert(i * self.num_nodes <= i * self.num_nodes + j);
        self.dist[i * self.num_nodes + j]
    }

    /// The instance with these tables, when they have the shape `wf` asks for;
    /// `None` otherwise.
    pub fn from_tables(
        num_nodes: usize,
        num_clusters: usize,
        t_max: u64,
        dist: Vec<u64>,
        cluster_of_node: Vec<usize>,
        nodes_of_cluster: Vec<Vec<usize>>,
        profits: Vec<u64>,
    ) -> (r: Option<Problem>)
        ensures
            ({
                let p = Problem {
                    num_nodes,
                    num_clusters,
                    t_max,
                    dist,
                    cluster_of_node,
                    nodes_of_cluster,
                    profits,
                };
                &&& r is Some <==> p.wf()
                &&& r matches Some(q) ==> q == p
            }),
    {
        let p = Problem {
            num_nodes,
            num_clusters,
            t_max,
            dist,
            cluster_of_node,
            nodes_of_cluster,
            profits,
        };
        if p.tables_fit() {
            Some(p)
        } else {
            None
        }
    }

    /// Whether the tables have the shape `wf` asks for.
    fn tables_fit(&self) -> (r: bool)
        ensures
            r == self.wf(),
    {
        let n = self.num_nodes;
        let c = self.num_clusters;
        if n == 0 || c == 0 || n >= MAX_TOUR || c > MAX_TOUR - 3 {
            return false;
        }
        let dl = self.dist.len();
        match n.checked_mul(n) {
            None => {
                assert(dl != n * n);
                return false;
            },
            Some(nn) => {
                if self.dist.len() != nn || self.cluster_of_node.len() != n
                    || self.nodes_of_cluster.len() != c || self.profits.len() != c {
                    return false;
                }
            },
        }
        let mut k: usize = 0;
        while k < self.dist.len()
            invariant
                k <= self.dist@.len(),
                forall|x: int| 0 <= x < k ==> #[trigger] self.dist@[x] <= MAX_DIST,
            decreases self.dist@.len() - k,
        {
            if self.dist[k] > MAX_DIST {
                return false;
            }
            k = k + 1;
        }
        let mut q: usize = 0;
        while q < c
            invariant
                c == self.num_clusters,
                c == self.profits@.len(),
                c == self.nodes_of_cluster@.len(),
                n == self.num_nodes,
                q <= c,
                forall|x: int| 0 <= x < q ==> #[trigger] self.profits@[x] <= MAX_PROFIT,
                forall|x: int| 0 <= x < q ==> #[trigger] self.nodes_of_cluster@[x]@.len() <= n,
                forall|x: int, y: int|
                    0 <= x < q && 0 <= y < self.nodes_of_cluster@[x]@.len()
                        ==> #[trigger] self.nodes_of_cluster@[x]@[y] < n,
            decreases c - q,
        {
            if self.profits[q] > MAX_PROFIT {
                return false;
            }
            let members = &self.nodes_of_cluster[q];
            if members.len() > n {
                return false;
            }
            let mut y: usize = 0;
            while y < members.len()
                invariant
                    q < c,
                    n == self.num_nodes,
                    c == self.num_clusters,
                    c == self.nodes_of_cluster@.len(),
                    members@ == self.nodes_of_cluster@[q as int]@,
                    y <= members@.len(),
                    forall|z: int| 0 <= z < y ==> #[trigger] members@[z] < n,
                decreases members@.len() - y,
            {
                if members[y] >= n {
                    assert(self.nodes_of_cluster@[q as int]@[y as int] >= n);
                    return false;
                }
                y = y + 1;
            }
            q = q + 1;
        }
        assert(n * n <= usize::MAX) by {
            assert(dl == n * n);
        }
        let mut i: usize = 0;
        while i < n
            invariant
                n == self.num_nodes,
                0 < n,
                self.dist@.len() == n * n,
                n * n <= usize::MAX,
                i <= n,
                forall|a: int, b: int|
                    0 <= a < i && 0 <= b < n ==> #[trigger] self.arc(a, b) == self.arc(b, a),
                forall|a: int| 0 <= a < i ==> #[trigger] self.arc(a, a) == 0,
            decreases n - i,
        {
            let mut j: usize = 0;
            while j < n
                invariant
                    n == self.num_nodes,
                    0 < n,
                    self.dist@.len() == n * n,
                    n * n <= usize::MAX,
                    i < n,
                    j <= n,
                    forall|b: int| 0 <= b < j ==> #[trigger] self.arc(i as int, b) == self.arc(
                        b,
                        i as int,
                    ),
                decreases n - j,
            {
                proof {
                    lemma_index_bound(i as int, j as int, n as int);
                    lemma_index_bound(j as int, i as int, n as int);
                }
                if self.dist[i * n + j] != self.dist[j * n + i] {
                    assert(self.arc(i as int, j as int) != self.arc(j as int, i as int));
                    return false;
                }
                j = j + 1;
            }
            proof {
                lemma_index_bound(i as int, i as int, n as int);
            }
            if self.dist[i * n + i] != 0 {
                assert(self.arc(i as int, i as int) != 0);
                return false;
            }
            i = i + 1;
        }
        true
    }
}

/// The nearest candidate is one of the candidates (or 0 when there are none),
/// and no candidate is nearer.
pub proof fn lemma_nearest(pb: &Problem, u: int, ns: Seq<usize>, k: int)
    requires
        pb.wf(),
        0 <= u < pb.num_nodes,
        0 <= k <= ns.len(),
        pb.nodes_in_range(ns),
    ensures
        k == 0 ==> pb.nearest(u, ns, k) == (0usize, u64::MAX as int),
        k > 0 ==> exists|t: int| 0 <= t < k && ns[t] == pb.nearest(u, ns, k).0,
        k > 0 ==> pb.nearest(u, ns, k).1 == pb.arc(u, pb.nearest(u, ns, k).0 as int),
        forall|t: int| 0 <= t < k ==> pb.nearest(u, ns, k).1 <= pb.arc(u, #[trigger] ns[t] as int),
        pb.nearest(u, ns, k).0 < pb.num_nodes,
    decreases k,
{
    if k > 0 {
        lemma_nearest(pb, u, ns, k - 1);
        lemma_index_bound(u, ns[k - 1] as int, pb.num_nodes as int);
        let prev = pb.nearest(u, ns, k - 1);
        if k - 1 > 0 {
            let t0 = choose|t: int| 0 <= t < k - 1 && ns[t] == prev.0;
            assert(0 <= t0 < k);
        }
    }
}

/// Route lengths are sums of bounded distances.
pub proof fn lemma_route_cost_bound(pb: &Problem, s: Seq<usize>)
    requires
        pb.wf(),
        pb.nodes_in_range(s),
    ensures
        0 <= pb.route_cost(s),
        s.len() >= 1 ==> pb.route_cost(s) <= (s.len() - 1) * MAX_DIST,
    decreases s.len(),
{
    if s.len() >= 2 {
        lemma_route_cost_bound(pb, s.drop_last());
        lemma_index_bound(s[s.len() - 2] as int, s.last() as int, pb.num_nodes as int);
    }
}

/// Profit sums are sums of bounded profits.
pub proof fn lemma_clusters_profit_bound(pb: &Problem, s: Seq<usize>)
    requires
        pb.wf(),
        pb.clusters_in_range(s),
    ensures
        0 <= pb.clusters_profit(s) <= s.len() * MAX_PROFIT,
    decreases s.len(),
{
    if s.len() >= 1 {
        lemma_clusters_profit_bound(pb, s.drop_last());
    }
}

/// A route: the node visited at each stop, the cluster it stands for, and the
/// bookkept profit and travel time.
pub struct Solution {
    pub tour_nodes: Vec<usize>,
    pub tour_clusters: Vec<usize>,
    pub total_profit: u64,
    pub total_cost: u64,
}

impl Clone for Solution {
    fn clone(&self) -> (r: Self)
        ensures
            r.same(self),
    {
        let tour_nodes = self.tour_nodes.clone();
        let tour_clusters = self.tour_clusters.clone();
        assert(tour_nodes@ =~= self.tour_nodes@);
        assert(tour_clusters@ =~= self.tour_clusters@);
        Solution {
            tour_nodes,
            tour_clusters,
            total_profit: self.total_profit,
            total_cost: self.total_cost,
        }
    }
}

impl Solution {
    /// Same route and same bookkept totals.
    pub open spec fn same(&self, other: &Solution) -> bool {
        &&& self.tour_nodes@ == other.tour_nodes@
        &&& self.tour_clusters@ == other.tour_clusters@
        &&& self.total_profit == other.total_profit
        &&& self.total_cost == other.total_cost
    }

    /// The empty route: depot to depot, no profit, no travel.
    pub fn new() -> (r: Self)
        ensures
            r.tour_nodes@ == seq![0usize, 0usize],
            r.tour_clusters@ == seq![0usize, 0usize],
            r.total_profit == 0,
            r.total_cost == 0,
    {
        Self {
            tour_nodes: vec![0, 0],
            tour_clusters: vec![0, 0],
            total_profit: 0,
            total_cost: 0,
        }
    }

    /// Recomputes `total_cost` as the length of the route through `tour_nodes`
    /// and `total_profit` as the profit of every entry of `tour_clusters` but the
    /// last; the route itself is left as it is.
    pub fn recompute(&mut self, pb: &Problem)
        requires
            pb.wf(),
            1 <= old(self).tour_nodes@.len() <= MAX_TOUR,
            1 <= old(self).tour_clusters@.len() <= MAX_TOUR,
            pb.nodes_in_range(old(self).tour_nodes@),
            pb.clusters_in_range(old(self).tour_clusters@.drop_last()),
        ensures
            final(self).tour_nodes == old(self).tour_nodes,
            final(self).tour_clusters == old(self).tour_clusters,
            final(self).total_cost == pb.route_cost(old(self).tour_nodes@),
            final(self).total_profit == pb.clusters_profit(old(self).tour_clusters@.drop_last()),
    {
        let mut cost: u64 = 0;
        let n = self.tour_nodes.len();
        let mut i: usize = 0;
        while i < n - 1
            invariant
                pb.wf(),
                n == self.tour_nodes@.len(),
                1 <= n <= MAX_TOUR,
                i <= n - 1,
                pb.nodes_in_range(self.tour_nodes@),
                cost == pb.route_cost(self.tour_nodes@.take(i as int + 1)),
            decreases n - 1 - i,
        {
            proof {
                let s = self.tour_nodes@.take(i as int + 2);
                assert(s.drop_last() == self.tour_nodes@.take(i as int + 1));
                lemma_route_cost_bound(pb, self.tour_nodes@.take(i as int + 1));
            }
            let d = pb.get_dist(self.tour_nodes[i], self.tour_nodes[i + 1]);
            cost = cost + d;
            i = i + 1;
        }
        assert(self.tour_nodes@.take(n as int) == self.tour_nodes@);
        let mut profit: u64 = 0;
        let m = self.tour_clusters.len();
        let ghost cl = self.tour_clusters@.drop_last();
        let mut k: usize = 0;
        while k < m - 1
            invariant
                pb.wf(),
                m == self.tour_clusters@.len(),
                1 <= m <= MAX_TOUR,
                k <= m - 1,
                cl == self.tour_clusters@.drop_last(),
                pb.clusters_in_range(cl),
                profit == pb.clusters_profit(cl.take(k as int)),
            decreases m - 1 - k,
        {
            proof {
                assert(cl.take(k as int + 1).drop_last() == cl.take(k as int));
                lemma_clusters_profit_bound(pb, cl.take(k as int));
            }
            let c = self.tour_clusters[k];
            assert(cl[k as int] == c);
            if c != 0 {
                profit = profit + pb.profits[c];
            }
            k = k + 1;
        }
        assert(cl.take(m - 1) == cl);
        self.total_cost = cost;
        self.total_profit = profit;
    }

    /// Reassigns the nodes of the route: the depot first and last, and at each
    /// inner stop the member of its cluster nearest to the node chosen for the
    /// stop before (0 for an empty cluster). Totals are not touched.
    pub fn update_nodes_greedy(&mut self, pb: &Problem)
        requires
            pb.wf(),
            1 <= old(self).tour_clusters@.len() <= MAX_TOUR,
            forall|k: int|
                1 <= k < old(self).tour_clusters@.len() - 1
                    ==> #[trigger] old(self).tour_clusters@[k] < pb.num_clusters,
        ensures
            final(self).tour_nodes@ == pb.greedy_tour(old(self).tour_clusters@),
            final(self).tour_clusters == old(self).tour_clusters,
            final(self).total_profit == old(self).total_profit,
            final(self).total_cost == old(self).total_cost,
    {
        let len = self.tour_clusters.len();
        let mut new_nodes: Vec<usize> = Vec::with_capacity(len);
        new_nodes.push(0);
        let ghost cl = self.tour_clusters@;
        let mut i: usize = 1;
        while i < len - 1
            invariant
                pb.wf(),
                cl == self.tour_clusters@,
                len == cl.len(),
                1 <= len <= MAX_TOUR,
                1 <= i,
                i <= len - 1 || i == 1,
                forall|k: int| 1 <= k < len - 1 ==> #[trigger] cl[k] < pb.num_clusters,
                new_nodes@ == pb.greedy_prefix(cl, i - 1),
                pb.nodes_in_range(new_nodes@),
            decreases len - i,
        {
            let ghost p = pb.greedy_prefix(cl, i - 1);
            assert(p.len() == i) by {
                lemma_greedy_prefix_len(pb, cl, i - 1);
            }
            let prev_node = new_nodes[i - 1];
            let current_cluster = self.tour_clusters[i];
            assert(prev_node == p.last());
            let members = &pb.nodes_of_cluster[current_cluster];
            let mut best_node: usize = 0;
            let mut min_dist: u64 = u64::MAX;
            let mut t: usize = 0;
            while t < members.len()
                invariant
                    pb.wf(),
                    current_cluster < pb.num_clusters,
                    members@ == pb.members(current_cluster as int),
                    prev_node < pb.num_nodes,
                    t <= members@.len(),
                    (best_node, min_dist as int) == pb.nearest(prev_node as int, members@, t as int),
                decreases members@.len() - t,
            {
                let node = members[t];
                assert(node == pb.members(current_cluster as int)[t as int]);
                let d = pb.get_dist(prev_node, node);
                if d < min_dist {
                    min_dist = d;
                    best_node = node;
                }
                t = t + 1;
            }
            proof {
                lemma_nearest(pb, prev_node as int, members@, members@.len() as int);
            }
            new_nodes.push(best_node);
            i = i + 1;
        }
        proof {
            lemma_greedy_prefix_len(pb, cl, i - 1);
        }
        new_nodes.push(0);
        self.tour_nodes = new_nodes;
    }
}

/// The greedy nodes are nodes of the instance.
pub proof fn lemma_greedy_in_range(pb: &Problem, cl: Seq<usize>, i: int)
    requires
        pb.wf(),
        forall|k: int| 1 <= k <= i ==> #[trigger] cl[k] < pb.num_clusters,
    ensures
        pb.nodes_in_range(pb.greedy_prefix(cl, i)),
    decreases i,
{
    if i > 0 {
        lemma_greedy_in_range(pb, cl, i - 1);
        let p = pb.greedy_prefix(cl, i - 1);
        lemma_greedy_prefix_len(pb, cl, i - 1);
        let c = cl[i] as int;
        assert(p.last() < pb.num_nodes);
        assert(pb.nodes_in_range(pb.members(c))) by {
            assert forall|k: int| 0 <= k < pb.members(c).len() implies #[trigger] pb.members(c)[k]
                < pb.num_nodes by {
                assert(pb.nodes_of_cluster@[c]@[k] < pb.num_nodes);
            }
        }
        lemma_nearest(pb, p.last() as int, pb.members(c), pb.members(c).len() as int);
        let q = pb.greedy_prefix(cl, i);
        assert forall|k: int| 0 <= k < q.len() implies #[trigger] q[k] < pb.num_nodes by {
            if k < p.len() {
                assert(q[k] == p[k]);
            }
        }
    }
}

/// The greedy prefix for stops `0..=i` has `i + 1` entries.
pub proof fn lemma_greedy_prefix_len(pb: &Problem, cl: Seq<usize>, i: int)
    requires
        i >= 0,
    ensures
        pb.greedy_prefix(cl, i).len() == i + 1,
    decreases i,
{
    if i > 0 {
        lemma_greedy_prefix_len(pb, cl, i - 1);
    }
}

} // verus!
