//! Greedy construction of a first route and its local improvement: the best
//! choice of node in each visited cluster (a shortest path through the layers of
//! clusters) and 2-opt segment reversals.
use crate::feasibility::feasible;
use crate::models::{
    lemma_clusters_profit_bound, lemma_index_bound, lemma_route_cost_bound, Problem, Solution,
    MAX_DIST, MAX_PROFIT, MAX_TOUR,
};
use vstd::prelude::*;

verus! {

/// `p` is a way to go from the depot through the clusters `cl[0..=i]`: it starts at
/// node 0 and its `k`-th entry is a member of cluster `cl[k]` for `1 <= k <= i`;
/// when it leaves the first stop, node 0 is a member of `cl[0]` too.
pub open spec fn layered_path(pb: &Problem, cl: Seq<usize>, p: Seq<usize>, i: int) -> bool {
    &&& p.len() == i + 1
    &&& p[0] == 0
    &&& forall|k: int| 1 <= k <= i ==> pb.members(cl[k] as int).contains(#[trigger] p[k])
    &&& i >= 1 ==> pb.members(cl[0] as int).contains(0usize)
}

/// `s` assigns to each stop of the cluster sequence `cl` a member of that stop's
/// cluster, with the depot node at both ends.
pub open spec fn node_assignment(pb: &Problem, cl: Seq<usize>, s: Seq<usize>) -> bool {
    &&& cl.len() >= 1
    &&& layered_path(pb, cl, s, cl.len() - 1)
    &&& s.last() == 0
}

/// The path read back from a table of predecessors: `[0]` at layer 0, and at layer
/// `j` the path to the predecessor `par[j][v]` followed by `v`.
pub open spec fn trace(par: Seq<Seq<usize>>, j: int, v: usize) -> Seq<usize>
    decreases j,
{
    if j <= 0 {
        seq![0usize]
    } else {
        trace(par, j - 1, par[j][v as int]).push(v)
    }
}

proof fn lemma_trace(par: Seq<Seq<usize>>, j: int, v: usize)
    requires
        j >= 0,
    ensures
        trace(par, j, v).len() == j + 1,
        trace(par, j, v)[0] == 0,
        j >= 1 ==> trace(par, j, v)[j] == v,
        forall|k: int|
            2 <= k <= j ==> trace(par, j, v)[k - 1] == par[k][#[trigger] trace(par, j, v)[k] as int],
    decreases j,
{
    if j >= 1 {
        let w = par[j][v as int];
        lemma_trace(par, j - 1, w);
        let t = trace(par, j - 1, w);
        assert(trace(par, j, v) == t.push(v));
        assert forall|k: int|
            2 <= k <= j implies trace(par, j, v)[k - 1] == par[k][#[trigger] trace(
                par,
                j,
                v,
            )[k] as int] by {
            if k < j {
                assert(trace(par, j, v)[k] == t[k]);
                assert(trace(par, j, v)[k - 1] == t[k - 1]);
            }
        }
    }
}

/// A trace only reads the rows it passes through.
proof fn lemma_trace_prefix(par: Seq<Seq<usize>>, row: Seq<usize>, j: int, v: usize)
    requires
        0 <= j < par.len(),
    ensures
        trace(par.push(row), j, v) == trace(par, j, v),
    decreases j,
{
    if j > 0 {
        assert(par.push(row)[j] == par[j]);
        lemma_trace_prefix(par, row, j - 1, par[j][v as int]);
    }
}

/// A layered path cut before its last stop is a layered path one layer shorter.
proof fn lemma_layered_prefix(pb: &Problem, cl: Seq<usize>, p: Seq<usize>, i: int)
    requires
        i >= 1,
        layered_path(pb, cl, p, i),
    ensures
        layered_path(pb, cl, p.drop_last(), i - 1),
        p.drop_last() == p.take(i),
{
    let q = p.drop_last();
    assert forall|k: int| 1 <= k <= i - 1 implies pb.members(cl[k] as int).contains(#[trigger] q[k]) by {
        assert(q[k] == p[k]);
    }
    assert(p.drop_last() =~= p.take(i));
}

/// The nodes of a layered path are nodes of the instance.
proof fn lemma_layered_in_range(pb: &Problem, cl: Seq<usize>, p: Seq<usize>, i: int)
    requires
        pb.wf(),
        i >= 0,
        layered_path(pb, cl, p, i),
        forall|k: int| 0 <= k < cl.len() ==> #[trigger] cl[k] < pb.num_clusters,
        i < cl.len(),
    ensures
        pb.nodes_in_range(p),
{
    assert forall|k: int| 0 <= k < p.len() implies #[trigger] p[k] < pb.num_nodes by {
        if k >= 1 {
            let c = cl[k] as int;
            assert(pb.members(c).contains(p[k]));
            let t = choose|t: int| 0 <= t < pb.members(c).len() && pb.members(c)[t] == p[k];
            assert(pb.nodes_of_cluster@[c]@[t] < pb.num_nodes);
        }
    }
}


/// Every finite entry of row `j` of the table is the length of the layered path
/// traced back from it, and is at most `j` times the largest distance.
pub open spec fn row_sound(
    pb: &Problem,
    cl: Seq<usize>,
    d: Seq<Seq<u64>>,
    par: Seq<Seq<usize>>,
    j: int,
) -> bool {
    forall|v: int|
        0 <= v < pb.num_nodes && #[trigger] d[j][v] != u64::MAX ==> {
            &&& layered_path(pb, cl, trace(par, j, v as usize), j)
            &&& trace(par, j, v as usize).last() == v
            &&& pb.route_cost(trace(par, j, v as usize)) == d[j][v]
            &&& d[j][v] <= j * MAX_DIST
        }
}

/// No layered path to layer `j` is shorter than row `j` of the table says.
pub open spec fn row_complete(pb: &Problem, cl: Seq<usize>, d: Seq<Seq<u64>>, j: int) -> bool {
    forall|p: Seq<usize>| #[trigger]
        layered_path(pb, cl, p, j) ==> d[j][p.last() as int] <= pb.route_cost(p)
}

/// The best way into node `v` from the members `pm[0..a]` with a finite entry in
/// the row `lr`: the least `lr[u] + arc(u, v)` with the first `u` giving it;
/// `(u64::MAX, 0)` when there is none.
pub open spec fn best_pred(pb: &Problem, lr: Seq<u64>, pm: Seq<usize>, v: int, a: int) -> (u64, usize)
    decreases a,
{
    if a <= 0 {
        (u64::MAX, 0usize)
    } else {
        let p = best_pred(pb, lr, pm, v, a - 1);
        let u = pm[a - 1];
        if lr[u as int] != u64::MAX && lr[u as int] + pb.arc(u as int, v) < p.0 {
            ((lr[u as int] + pb.arc(u as int, v)) as u64, u)
        } else {
            p
        }
    }
}

/// Entry `v` of the next row of the tables from the row `lr`: for a member of
/// cluster `cc`, its best way in from the members of cluster `pc`; for any
/// other node, `(u64::MAX, 0)`.
pub open spec fn layer_entry(pb: &Problem, lr: Seq<u64>, pc: int, cc: int, v: int) -> (u64, usize) {
    if pb.members(cc).contains(v as usize) {
        best_pred(pb, lr, pb.members(pc), v, pb.members(pc).len() as int)
    } else {
        (u64::MAX, 0usize)
    }
}

/// The tables of shortest layered paths for the layers `cl[0..=i]`: the rows of
/// lengths and the rows of predecessors. Row 0 has length 0 at node 0 only.
pub open spec fn dp_spec(pb: &Problem, cl: Seq<usize>, i: int) -> (Seq<Seq<u64>>, Seq<Seq<usize>>)
    decreases i,
{
    let n = pb.num_nodes as nat;
    if i <= 0 {
        (
            seq![Seq::new(n, |v: int| if v == 0 { 0u64 } else { u64::MAX })],
            seq![Seq::new(n, |v: int| 0usize)],
        )
    } else {
        let t = dp_spec(pb, cl, i - 1);
        let lr = t.0[i - 1];
        (
            t.0.push(Seq::new(n, |v: int| layer_entry(pb, lr, cl[i - 1] as int, cl[i] as int, v).0)),
            t.1.push(Seq::new(n, |v: int| layer_entry(pb, lr, cl[i - 1] as int, cl[i] as int, v).1)),
        )
    }
}

/// One layer of the shortest-path table: from the finite entries of `last_row`
/// over the members of cluster `prev_c`, the best way into each member of
/// cluster `curr_c`, with the predecessor that achieves it (the first such in
/// member order).
fn dp_layer(pb: &Problem, last_row: &Vec<u64>, prev_c: usize, curr_c: usize, i: usize) -> (res: (
    Vec<u64>,
    Vec<usize>,
))
    requires
        pb.wf(),
        prev_c < pb.num_clusters,
        curr_c < pb.num_clusters,
        1 <= i < MAX_TOUR,
        last_row@.len() == pb.num_nodes,
        forall|v: int|
            0 <= v < pb.num_nodes && #[trigger] last_row@[v] != u64::MAX ==> last_row@[v] <= (i - 1)
                * MAX_DIST,
    ensures
        res.0@.len() == pb.num_nodes,
        res.1@.len() == pb.num_nodes,
        forall|v: int| 0 <= v < pb.num_nodes ==> #[trigger] res.1@[v] < pb.num_nodes,
        forall|v: int|
            0 <= v < pb.num_nodes && #[trigger] res.0@[v] != u64::MAX ==> {
                &&& pb.members(prev_c as int).contains(res.1@[v])
                &&& pb.members(curr_c as int).contains(v as usize)
                &&& last_row@[res.1@[v] as int] != u64::MAX
                &&& res.0@[v] == last_row@[res.1@[v] as int] + pb.arc(res.1@[v] as int, v)
            },
        forall|u: usize, v: usize|
            pb.members(prev_c as int).contains(u) && pb.members(curr_c as int).contains(v)
                && last_row@[u as int] != u64::MAX ==> #[trigger] res.0@[v as int]
                <= last_row@[u as int] + #[trigger] pb.arc(u as int, v as int),
        forall|v: int|
            #![trigger res.0@[v]]
            #![trigger res.1@[v]]
            0 <= v < pb.num_nodes ==> (res.0@[v], res.1@[v]) == layer_entry(
                pb,
                last_row@,
                prev_c as int,
                curr_c as int,
                v,
            ),
{
    let n = pb.num_nodes;
    let pm = &pb.nodes_of_cluster[prev_c];
    let cm = &pb.nodes_of_cluster[curr_c];
    let mut row: Vec<u64> = vec![u64::MAX; n];
    let mut prow: Vec<usize> = vec![0usize; n];
    let mut a: usize = 0;
    while a < pm.len()
        invariant
            pb.wf(),
            n == pb.num_nodes,
            1 <= i < MAX_TOUR,
            pm@ == pb.members(prev_c as int),
            cm@ == pb.members(curr_c as int),
            prev_c < pb.num_clusters,
            curr_c < pb.num_clusters,
            last_row@.len() == n,
            forall|v: int|
                0 <= v < n && #[trigger] last_row@[v] != u64::MAX ==> last_row@[v] <= (i - 1)
                    * MAX_DIST,
            row@.len() == n,
            prow@.len() == n,
            a <= pm@.len(),
            forall|v: int| 0 <= v < n ==> #[trigger] prow@[v] < n,
            forall|v: int|
                0 <= v < n && #[trigger] row@[v] != u64::MAX ==> {
                    &&& pm@.contains(prow@[v])
                    &&& cm@.contains(v as usize)
                    &&& last_row@[prow@[v] as int] != u64::MAX
                    &&& row@[v] == last_row@[prow@[v] as int] + pb.arc(prow@[v] as int, v)
                },
            forall|a2: int, b2: int|
                0 <= a2 < a && 0 <= b2 < cm@.len() && last_row@[#[trigger] pm@[a2] as int]
                    != u64::MAX ==> row@[#[trigger] cm@[b2] as int] <= last_row@[pm@[a2] as int]
                    + pb.arc(pm@[a2] as int, cm@[b2] as int),
            forall|v: int|
                0 <= v < n ==> (#[trigger] row@[v], prow@[v]) == (if cm@.contains(v as usize) {
                    best_pred(pb, last_row@, pm@, v, a as int)
                } else {
                    (u64::MAX, 0usize)
                }),
        decreases pm@.len() - a,
    {
        let u = pm[a];
        assert(pb.nodes_of_cluster@[prev_c as int]@[a as int] == u);
        let du = last_row[u];
        if du != u64::MAX {
            let mut b: usize = 0;
            while b < cm.len()
                invariant
                    pb.wf(),
                    n == pb.num_nodes,
                    1 <= i < MAX_TOUR,
                    pm@ == pb.members(prev_c as int),
                    cm@ == pb.members(curr_c as int),
                    prev_c < pb.num_clusters,
                    curr_c < pb.num_clusters,
                    last_row@.len() == n,
                    a < pm@.len(),
                    u == pm@[a as int],
                    u < n,
                    du == last_row@[u as int],
                    du != u64::MAX,
                    du <= (i - 1) * MAX_DIST,
                    row@.len() == n,
                    prow@.len() == n,
                    b <= cm@.len(),
                    forall|v: int| 0 <= v < n ==> #[trigger] prow@[v] < n,
                    forall|v: int|
                        0 <= v < n && #[trigger] row@[v] != u64::MAX ==> {
                            &&& pm@.contains(prow@[v])
                            &&& cm@.contains(v as usize)
                            &&& last_row@[prow@[v] as int] != u64::MAX
                            &&& row@[v] == last_row@[prow@[v] as int] + pb.arc(prow@[v] as int, v)
                        },
                    forall|a2: int, b2: int|
                        0 <= a2 < a && 0 <= b2 < cm@.len() && last_row@[#[trigger] pm@[a2] as int]
                            != u64::MAX ==> row@[#[trigger] cm@[b2] as int] <= last_row@[pm@[a2] as int]
                            + pb.arc(pm@[a2] as int, cm@[b2] as int),
                    forall|b2: int|
                        0 <= b2 < b ==> row@[#[trigger] cm@[b2] as int] <= du + pb.arc(
                            u as int,
                            cm@[b2] as int,
                        ),
                    forall|v: int|
                        0 <= v < n ==> (#[trigger] row@[v], prow@[v]) == (if cm@.take(b as int).contains(
                            v as usize,
                        ) {
                            best_pred(pb, last_row@, pm@, v, a + 1)
                        } else if cm@.contains(v as usize) {
                            best_pred(pb, last_row@, pm@, v, a as int)
                        } else {
                            (u64::MAX, 0usize)
                        }),
                decreases cm@.len() - b,
            {
                let v = cm[b];
                assert(pb.nodes_of_cluster@[curr_c as int]@[b as int] == v);
                let dv = pb.get_dist(u, v);
                let cost = du + dv;
                let ghost r0 = row@;
                let ghost p0 = prow@;
                if cost < row[v] {
                    row.set(v, cost);
                    prow.set(v, u);
                    assert(pm@[a as int] == u);
                    assert(cm@[b as int] == v);
                }
                proof {
                    let bp = best_pred(pb, last_row@, pm@, v as int, a as int);
                    let bq = best_pred(pb, last_row@, pm@, v as int, a + 1);
                    assert(pm@[a as int] == u);
                    assert(bq == if cost < bp.0 {
                        (cost, u)
                    } else {
                        bp
                    });
                    assert(cm@.take(b + 1) =~= cm@.take(b as int).push(v));
                    assert(cm@.contains(v)) by {
                        assert(cm@[b as int] == v);
                    }
                    assert forall|w: int| 0 <= w < n implies (#[trigger] row@[w], prow@[w]) == (
                    if cm@.take(b + 1).contains(w as usize) {
                        best_pred(pb, last_row@, pm@, w, a + 1)
                    } else if cm@.contains(w as usize) {
                        best_pred(pb, last_row@, pm@, w, a as int)
                    } else {
                        (u64::MAX, 0usize)
                    }) by {
                        if w != v as int {
                            assert(row@[w] == r0[w] && prow@[w] == p0[w]);
                            assert(cm@.take(b + 1).contains(w as usize) == cm@.take(
                                b as int,
                            ).contains(w as usize));
                        } else {
                            assert(cm@.take(b + 1)[b as int] == v);
                            assert(cm@.take(b + 1).contains(w as usize));
                        }
                    }
                }
                b = b + 1;
            }
            proof {
                assert(cm@.take(cm@.len() as int) =~= cm@);
            }
        } else {
            proof {
                assert(pm@[a as int] == u);
                assert forall|w: int| 0 <= w < n implies best_pred(pb, last_row@, pm@, w, a + 1)
                    == best_pred(pb, last_row@, pm@, w, a as int) by {}
            }
        }
        a = a + 1;
    }
    assert forall|u: usize, v: usize|
        pb.members(prev_c as int).contains(u) && pb.members(curr_c as int).contains(v)
            && last_row@[u as int] != u64::MAX implies #[trigger] row@[v as int] <= last_row@[u as int]
            + #[trigger] pb.arc(u as int, v as int) by {
        let a2 = choose|a2: int| 0 <= a2 < pm@.len() && pm@[a2] == u;
        let b2 = choose|b2: int| 0 <= b2 < cm@.len() && cm@[b2] == v;
        assert(last_row@[pm@[a2] as int] != u64::MAX);
    }
    (row, prow)
}

/// A new row computed from row `i - 1` by `dp_layer` is sound and complete.
proof fn lemma_layer(
    pb: &Problem,
    cl: Seq<usize>,
    d: Seq<Seq<u64>>,
    par: Seq<Seq<usize>>,
    row: Seq<u64>,
    prow: Seq<usize>,
    i: int,
)
    requires
        pb.wf(),
        1 <= i < cl.len(),
        pb.clusters_in_range(cl),
        d.len() == i,
        par.len() == i,
        row.len() == pb.num_nodes,
        forall|v: int| 0 <= v < pb.num_nodes ==> #[trigger] d[0][v] == if v == 0 { 0 } else { u64::MAX },
        row_sound(pb, cl, d, par, i - 1),
        row_complete(pb, cl, d, i - 1),
        forall|v: int|
            0 <= v < pb.num_nodes && #[trigger] row[v] != u64::MAX ==> {
                &&& pb.members(cl[i - 1] as int).contains(prow[v])
                &&& pb.members(cl[i] as int).contains(v as usize)
                &&& d[i - 1][prow[v] as int] != u64::MAX
                &&& row[v] == d[i - 1][prow[v] as int] + pb.arc(prow[v] as int, v)
            },
        forall|u: usize, v: usize|
            pb.members(cl[i - 1] as int).contains(u) && pb.members(cl[i] as int).contains(v)
                && d[i - 1][u as int] != u64::MAX ==> #[trigger] row[v as int] <= d[i - 1][u as int]
                + #[trigger] pb.arc(u as int, v as int),
    ensures
        row_sound(pb, cl, d.push(row), par.push(prow), i),
        row_complete(pb, cl, d.push(row), i),
{
    let nd = d.push(row);
    let np = par.push(prow);
    assert(nd[i] == row);
    assert(nd[i - 1] == d[i - 1]);
    assert forall|v: int|
        0 <= v < pb.num_nodes && #[trigger] nd[i][v] != u64::MAX implies {
        &&& layered_path(pb, cl, trace(np, i, v as usize), i)
        &&& trace(np, i, v as usize).last() == v
        &&& pb.route_cost(trace(np, i, v as usize)) == nd[i][v]
        &&& nd[i][v] <= i * MAX_DIST
    } by {
        let u = prow[v];
        assert(np[i] == prow);
        let t = trace(np, i - 1, u);
        lemma_trace_prefix(par, prow, i - 1, u);
        assert(t == trace(par, i - 1, u));
        assert(trace(np, i, v as usize) == t.push(v as usize));
        if i == 1 {
            assert(u == 0) by {
                if u != 0 {
                    assert(d[0][u as int] == u64::MAX);
                }
            }
        }
        assert(u < pb.num_nodes) by {
            let c = cl[i - 1] as int;
            let t0 = choose|t0: int| 0 <= t0 < pb.members(c).len() && pb.members(c)[t0] == u;
            assert(pb.nodes_of_cluster@[c]@[t0] < pb.num_nodes);
        }
        assert(d[i - 1][u as int] != u64::MAX);
        assert(layered_path(pb, cl, t, i - 1));
        let tt = t.push(v as usize);
        assert(tt.drop_last() == t);
        assert forall|k: int| 1 <= k <= i implies pb.members(cl[k] as int).contains(
            #[trigger] tt[k],
        ) by {
            if k < i {
                assert(tt[k] == t[k]);
            }
        }
        lemma_index_bound(u as int, v, pb.num_nodes as int);
        assert(t.last() == u);
    }
    assert forall|p: Seq<usize>| #[trigger] layered_path(pb, cl, p, i) implies nd[i][p.last() as int]
        <= pb.route_cost(p) by {
        lemma_layered_prefix(pb, cl, p, i);
        let q = p.drop_last();
        let u = p[i - 1];
        let v = p[i];
        assert(q.last() == u);
        assert(d[i - 1][u as int] <= pb.route_cost(q));
        lemma_layered_in_range(pb, cl, q, i - 1);
        lemma_route_cost_bound(pb, q);
        assert(pb.members(cl[i - 1] as int).contains(u)) by {
            if i - 1 >= 1 {
                assert(pb.members(cl[i - 1] as int).contains(q[i - 1]));
            }
        }
        assert(pb.members(cl[i] as int).contains(p[i]));
        assert(row[v as int] <= d[i - 1][u as int] + pb.arc(u as int, v as int));
        assert(p.last() == v);
    }
}

/// Rows already built stay sound when a row is added to the tables.
proof fn lemma_row_sound_push(
    pb: &Problem,
    cl: Seq<usize>,
    d: Seq<Seq<u64>>,
    par: Seq<Seq<usize>>,
    row: Seq<u64>,
    prow: Seq<usize>,
    j: int,
)
    requires
        0 <= j < d.len(),
        j < par.len(),
        row_sound(pb, cl, d, par, j),
        row_complete(pb, cl, d, j),
    ensures
        row_sound(pb, cl, d.push(row), par.push(prow), j),
        row_complete(pb, cl, d.push(row), j),
{
    assert(d.push(row)[j] == d[j]);
    assert forall|v: int|
        0 <= v < pb.num_nodes && #[trigger] d.push(row)[j][v] != u64::MAX implies trace(
        par.push(prow),
        j,
        v as usize,
    ) == trace(par, j, v as usize) by {
        lemma_trace_prefix(par, prow, j, v as usize);
    }
}

/// The shortest-path tables over the layers of clusters `cl`: row `j` holds, for
/// each node, the length of the shortest layered path to it at layer `j` (or
/// `u64::MAX`), and the predecessor table to trace it back.
fn dp_tables(pb: &Problem, cl_vec: &Vec<usize>) -> (res: (Vec<Vec<u64>>, Vec<Vec<usize>>))
    requires
        pb.wf(),
        3 <= cl_vec@.len() <= MAX_TOUR,
        pb.clusters_in_range(cl_vec@),
    ensures
        ({
            let l = cl_vec@.len() as int;
            let d = res.0@.map_values(|r: Vec<u64>| r@);
            let par = res.1@.map_values(|r: Vec<usize>| r@);
            &&& d.len() == l
            &&& par.len() == l
            &&& forall|j: int| 0 <= j < l ==> (#[trigger] par[j]).len() == pb.num_nodes
            &&& forall|j: int, v: int|
                0 <= j < l && 0 <= v < pb.num_nodes ==> #[trigger] par[j][v] < pb.num_nodes
            &&& d[l - 1].len() == pb.num_nodes
            &&& row_sound(pb, cl_vec@, d, par, l - 1)
            &&& row_complete(pb, cl_vec@, d, l - 1)
            &&& d == dp_spec(pb, cl_vec@, l - 1).0
            &&& par == dp_spec(pb, cl_vec@, l - 1).1
        }),
{
    let l = cl_vec.len();
    let n = pb.num_nodes;
    let ghost cl = cl_vec@;
    let mut dp: Vec<Vec<u64>> = Vec::new();
    let mut parent: Vec<Vec<usize>> = Vec::new();
    let mut row0: Vec<u64> = vec![u64::MAX; n];
    row0.set(0, 0);
    dp.push(row0);
    parent.push(vec![0usize; n]);
    let ghost mut d: Seq<Seq<u64>> = dp@.map_values(|r: Vec<u64>| r@);
    let ghost mut par: Seq<Seq<usize>> = parent@.map_values(|r: Vec<usize>| r@);
    proof {
        let t0 = dp_spec(pb, cl, 0);
        assert(d[0] =~= t0.0[0]);
        assert(par[0] =~= t0.1[0]);
        assert(d =~= t0.0);
        assert(par =~= t0.1);
        assert forall|p: Seq<usize>| #[trigger] layered_path(pb, cl, p, 0) implies d[0][p.last() as int]
            <= pb.route_cost(p) by {
            assert(p.last() == p[0]);
        }
        assert(row_sound(pb, cl, d, par, 0)) by {
            assert forall|v: int| 0 <= v < n && #[trigger] d[0][v] != u64::MAX implies {
                &&& layered_path(pb, cl, trace(par, 0, v as usize), 0)
                &&& trace(par, 0, v as usize).last() == v
            } by {
                assert(v == 0);
            }
        }
    }
    let mut i: usize = 1;
    while i < l
        invariant
            pb.wf(),
            n == pb.num_nodes,
            cl == cl_vec@,
            l == cl.len(),
            3 <= l <= MAX_TOUR,
            1 <= i <= l,
            pb.clusters_in_range(cl),
            dp@.len() == i,
            parent@.len() == i,
            d == dp@.map_values(|r: Vec<u64>| r@),
            par == parent@.map_values(|r: Vec<usize>| r@),
            forall|j: int| 0 <= j < i ==> (#[trigger] d[j]).len() == n,
            forall|j: int| 0 <= j < i ==> (#[trigger] par[j]).len() == n,
            forall|j: int, v: int| 0 <= j < i && 0 <= v < n ==> #[trigger] par[j][v] < n,
            forall|v: int| 0 <= v < n ==> #[trigger] d[0][v] == if v == 0 { 0 } else { u64::MAX },
            forall|j: int| 0 <= j < i ==> #[trigger] row_sound(pb, cl, d, par, j),
            forall|j: int| 0 <= j < i ==> #[trigger] row_complete(pb, cl, d, j),
            d == dp_spec(pb, cl, i - 1).0,
            par == dp_spec(pb, cl, i - 1).1,
        decreases l - i,
    {
        let prev_c = cl_vec[i - 1];
        let curr_c = cl_vec[i];
        proof {
            assert(d[i - 1] == dp@[i - 1]@);
            assert(row_sound(pb, cl, d, par, i - 1));
            assert forall|v: int|
                0 <= v < n && #[trigger] dp@[i - 1]@[v] != u64::MAX implies dp@[i - 1]@[v] <= (i - 1)
                * MAX_DIST by {
                assert(d[i - 1][v] == dp@[i - 1]@[v]);
            }
        }
        let (row, prow) = dp_layer(pb, &dp[i - 1], prev_c, curr_c, i);
        let ghost nd = d.push(row@);
        let ghost np = par.push(prow@);
        proof {
            assert(row_complete(pb, cl, d, i - 1));
            lemma_layer(pb, cl, d, par, row@, prow@, i as int);
            assert forall|j: int| 0 <= j < i implies #[trigger] row_sound(pb, cl, nd, np, j) by {
                assert(row_sound(pb, cl, d, par, j));
                assert(row_complete(pb, cl, d, j));
                lemma_row_sound_push(pb, cl, d, par, row@, prow@, j);
            }
            assert forall|j: int| 0 <= j < i implies #[trigger] row_complete(pb, cl, nd, j) by {
                assert(row_sound(pb, cl, d, par, j));
                assert(row_complete(pb, cl, d, j));
                lemma_row_sound_push(pb, cl, d, par, row@, prow@, j);
            }
        }
        dp.push(row);
        parent.push(prow);
        proof {
            assert(dp@.map_values(|r: Vec<u64>| r@) =~= nd);
            assert(parent@.map_values(|r: Vec<usize>| r@) =~= np);
            let t = dp_spec(pb, cl, i - 1);
            assert(row@ =~= Seq::new(
                n as nat,
                |v: int| layer_entry(pb, t.0[i - 1], cl[i - 1] as int, cl[i as int] as int, v).0,
            ));
            assert(prow@ =~= Seq::new(
                n as nat,
                |v: int| layer_entry(pb, t.0[i - 1], cl[i - 1] as int, cl[i as int] as int, v).1,
            ));
            d = nd;
            par = np;
        }
        i = i + 1;
    }
    (dp, parent)
}

/// Writes the path traced back from node 0 at the last layer into the first
/// `l` stops of `nodes`.
fn trace_back(parent: &Vec<Vec<usize>>, nodes: &mut Vec<usize>, n: usize, l: usize)
    requires
        3 <= l <= old(nodes)@.len(),
        parent@.len() == l,
        0 < n,
        forall|j: int| 0 <= j < l ==> (#[trigger] parent@[j])@.len() == n,
        forall|j: int, v: int| 0 <= j < l && 0 <= v < n ==> #[trigger] parent@[j]@[v] < n,
    ensures
        final(nodes)@.len() == old(nodes)@.len(),
        forall|j: int| 0 <= j < l ==> #[trigger] final(nodes)@[j] < n,
        final(nodes)@.take(l as int) == trace(parent@.map_values(|r: Vec<usize>| r@), l - 1, 0usize),
        final(nodes)@.subrange(l as int, old(nodes)@.len() as int) == old(nodes)@.subrange(
            l as int,
            old(nodes)@.len() as int,
        ),
{
    let ghost par = parent@.map_values(|r: Vec<usize>| r@);
    let ghost t = trace(par, l - 1, 0usize);
    proof {
        lemma_trace(par, l - 1, 0usize);
    }
    let mut curr_node: usize = 0;
    let mut k: usize = l - 1;
    while k >= 1
        invariant
            3 <= l <= nodes@.len(),
            nodes@.len() == old(nodes)@.len(),
            k < l,
            0 < n,
            parent@.len() == l,
            par == parent@.map_values(|r: Vec<usize>| r@),
            forall|j: int| 0 <= j < l ==> (#[trigger] parent@[j])@.len() == n,
            forall|j: int, v: int| 0 <= j < l && 0 <= v < n ==> #[trigger] parent@[j]@[v] < n,
            t == trace(par, l - 1, 0usize),
            t.len() == l,
            forall|j: int| 2 <= j <= l - 1 ==> t[j - 1] == par[j][#[trigger] t[j] as int],
            t[l - 1] == 0,
            k >= 1 ==> curr_node == t[k as int],
            curr_node < n,
            forall|j: int| k < j < l ==> #[trigger] nodes@[j] == t[j],
            forall|j: int| k < j < l ==> #[trigger] nodes@[j] < n,
            forall|j: int| l <= j < nodes@.len() ==> #[trigger] nodes@[j] == old(nodes)@[j],
        decreases k,
    {
        nodes.set(k, curr_node);
        proof {
            assert(par[k as int] == parent@[k as int]@);
        }
        curr_node = parent[k][curr_node];
        k = k - 1;
    }
    nodes.set(0, 0);
    assert(nodes@.take(l as int) =~= t);
    assert(nodes@.subrange(l as int, old(nodes)@.len() as int) =~= old(nodes)@.subrange(
        l as int,
        old(nodes)@.len() as int,
    ));
}

/// Chooses, for the clusters of the route in their order, the member nodes that
/// make the route through them shortest, by dynamic programming over the layers
/// of clusters (with the depot node at both ends; on ties the first predecessor
/// in member order is kept), then recomputes the totals. Routes of at most two
/// stops are left as they are.
pub fn optimize_vertices_dp(pb: &Problem, sol: &mut Solution)
    requires
        pb.wf(),
        old(sol).tour_clusters@.len() <= old(sol).tour_nodes@.len() <= MAX_TOUR,
        pb.clusters_in_range(old(sol).tour_clusters@),
        pb.nodes_in_range(
            old(sol).tour_nodes@.subrange(
                old(sol).tour_clusters@.len() as int,
                old(sol).tour_nodes@.len() as int,
            ),
        ),
    ensures
        old(sol).tour_clusters@.len() <= 2 ==> *final(sol) == *old(sol),
        old(sol).tour_clusters@.len() > 2 ==> {
            let l = old(sol).tour_clusters@.len() as int;
            let cl = old(sol).tour_clusters@;
            let nodes = final(sol).tour_nodes@;
            &&& final(sol).tour_clusters == old(sol).tour_clusters
            &&& nodes.len() == old(sol).tour_nodes@.len()
            &&& nodes.subrange(l, nodes.len() as int) == old(sol).tour_nodes@.subrange(
                l,
                nodes.len() as int,
            )
            &&& nodes.take(l) == trace(dp_spec(pb, cl, l - 1).1, l - 1, 0usize)
            &&& nodes[0] == 0
            &&& nodes[l - 1] == 0
            &&& pb.nodes_in_range(nodes)
            &&& (exists|s: Seq<usize>| node_assignment(pb, cl, s)) ==> {
                &&& node_assignment(pb, cl, nodes.take(l))
                &&& forall|s: Seq<usize>|
                    node_assignment(pb, cl, s) ==> pb.route_cost(nodes.take(l)) <= pb.route_cost(
                        s,
                    )
            }
            &&& final(sol).total_cost == pb.route_cost(nodes)
            &&& final(sol).total_profit == pb.clusters_profit(cl.drop_last())
        },
{
    let l = sol.tour_clusters.len();
    if l <= 2 {
        return;
    }
    let ghost cl = sol.tour_clusters@;
    let ghost old_nodes = sol.tour_nodes@;
    let (dp, parent) = dp_tables(pb, &sol.tour_clusters);
    proof {
        let par = parent@.map_values(|r: Vec<usize>| r@);
        assert forall|j: int| 0 <= j < l implies (#[trigger] parent@[j])@.len() == pb.num_nodes by {
            assert(par[j] == parent@[j]@);
        }
        assert forall|j: int, v: int| 0 <= j < l && 0 <= v < pb.num_nodes implies #[trigger] parent@[
            j
        ]@[v] < pb.num_nodes by {
            assert(par[j] == parent@[j]@);
        }
    }
    trace_back(&parent, &mut sol.tour_nodes, pb.num_nodes, l);
    proof {
        let d = dp@.map_values(|r: Vec<u64>| r@);
        let par = parent@.map_values(|r: Vec<usize>| r@);
        let t = trace(par, l - 1, 0usize);
        lemma_trace(par, l - 1, 0usize);
        let nodes = sol.tour_nodes@;
        assert(nodes.take(l as int) == t);
        if exists|s: Seq<usize>| node_assignment(pb, cl, s) {
            let s = choose|s: Seq<usize>| node_assignment(pb, cl, s);
            assert(d[l - 1][s.last() as int] <= pb.route_cost(s));
            lemma_layered_in_range(pb, cl, s, l - 1);
            lemma_route_cost_bound(pb, s);
            assert(d[l - 1][0] != u64::MAX);
            assert forall|s2: Seq<usize>| node_assignment(pb, cl, s2) implies pb.route_cost(
                nodes.take(l as int),
            ) <= pb.route_cost(s2) by {
                assert(d[l - 1][s2.last() as int] <= pb.route_cost(s2));
            }
        }
        assert forall|j: int| 0 <= j < nodes.len() implies #[trigger] nodes[j] < pb.num_nodes by {
            if j >= l {
                assert(nodes.subrange(l as int, nodes.len() as int)[j - l] == nodes[j]);
                assert(old_nodes.subrange(l as int, old_nodes.len() as int)[j - l] == old_nodes[j]);
            }
        }
        assert(nodes[0] == t[0]);
        assert(nodes[l - 1] == t[l - 1]);
    }
    sol.recompute(pb);
}

/// `s` with its entries `i..=j` in reverse order.
pub open spec fn reversed_segment<A>(s: Seq<A>, i: int, j: int) -> Seq<A> {
    s.take(i) + s.subrange(i, j + 1).reverse() + s.skip(j + 1)
}

/// The stops of a route: each visited node paired with the cluster it stands for.
pub open spec fn stops(sol: &Solution) -> Seq<(usize, usize)> {
    Seq::new(sol.tour_nodes@.len(), |k: int| (sol.tour_nodes@[k], sol.tour_clusters@[k]))
}

/// Reversing the inner segment `i..=j` of the route `s` gains nothing: the two
/// arcs it would remove are no longer than the two it would add.
pub open spec fn no_gain_reversal(pb: &Problem, s: Seq<usize>, i: int, j: int) -> bool {
    pb.arc(s[i - 1] as int, s[i] as int) + pb.arc(s[j] as int, s[j + 1] as int) <= pb.arc(
        s[i - 1] as int,
        s[j] as int,
    ) + pb.arc(s[i] as int, s[j + 1] as int)
}

/// No segment reversal between the first and the last stop shortens the route.
pub open spec fn two_opt_optimal(pb: &Problem, s: Seq<usize>) -> bool {
    forall|i: int, j: int| 1 <= i < j < s.len() - 1 ==> #[trigger] no_gain_reversal(pb, s, i, j)
}

/// The inner stops of the cluster sequence `cl` are not the depot cluster and no
/// cluster is visited twice.
pub open spec fn inner_distinct(cl: Seq<usize>) -> bool {
    &&& forall|k: int| 1 <= k < cl.len() - 1 ==> #[trigger] cl[k] != 0
    &&& forall|k1: int, k2: int|
        1 <= k1 < k2 < cl.len() - 1 ==> #[trigger] cl[k1] != #[trigger] cl[k2]
}

/// Every stop's node is a member of the stop's cluster.
pub open spec fn stops_in_clusters(pb: &Problem, nodes: Seq<usize>, cl: Seq<usize>) -> bool {
    forall|k: int| 0 <= k < nodes.len() ==> pb.members(cl[k] as int).contains(#[trigger] nodes[k])
}

/// Reverses the entries `i..=j` of `v` in place.
pub(crate) fn reverse_segment(v: &mut Vec<usize>, i: usize, j: usize)
    requires
        i <= j < old(v)@.len(),
    ensures
        final(v)@ == reversed_segment(old(v)@, i as int, j as int),
        final(v)@.len() == old(v)@.len(),
        forall|k: int|
            0 <= k < old(v)@.len() ==> #[trigger] final(v)@[k] == old(v)@[if i <= k <= j {
                i + j - k
            } else {
                k
            }],
{
    let ghost s = v@;
    let mut lo = i;
    let mut hi = j;
    while lo < hi
        invariant
            i <= lo,
            hi <= j,
            j < s.len(),
            lo + hi == i + j,
            lo <= hi + 1,
            v@.len() == s.len(),
            forall|k: int|
                0 <= k < s.len() ==> #[trigger] v@[k] == s[if (i <= k < lo || hi < k <= j) {
                    i + j - k
                } else {
                    k
                }],
        decreases hi + 1 - lo,
    {
        let a = v[lo];
        let b = v[hi];
        v.set(lo, b);
        v.set(hi, a);
        lo = lo + 1;
        hi = hi - 1;
    }
    let ghost r = reversed_segment(s, i as int, j as int);
    assert forall|k: int| 0 <= k < s.len() implies #[trigger] r[k] == v@[k] by {
        if k < i {
        } else if k <= j {
            assert(r[k] == s.subrange(i as int, j + 1).reverse()[k - i]);
        } else {
            assert(r[k] == s.skip(j + 1)[k - j - 1]);
        }
    }
    assert(v@ =~= r);
}

/// The length of two routes glued together is the sum of their lengths and of
/// the arc joining them.
pub proof fn lemma_cost_concat(pb: &Problem, a: Seq<usize>, b: Seq<usize>)
    requires
        a.len() >= 1,
        b.len() >= 1,
    ensures
        pb.route_cost(a + b) == pb.route_cost(a) + pb.arc(a.last() as int, b[0] as int)
            + pb.route_cost(b),
    decreases b.len(),
{
    if b.len() == 1 {
        assert((a + b).drop_last() =~= a);
    } else {
        lemma_cost_concat(pb, a, b.drop_last());
        assert((a + b).drop_last() =~= a + b.drop_last());
    }
}

/// With symmetric distances a route is as long backwards as forwards.
pub proof fn lemma_cost_reverse(pb: &Problem, s: Seq<usize>)
    requires
        pb.wf(),
        pb.nodes_in_range(s),
    ensures
        pb.route_cost(s.reverse()) == pb.route_cost(s),
    decreases s.len(),
{
    if s.len() <= 1 {
        assert(s.reverse() =~= s);
    } else {
        let t = s.drop_last();
        let x = s.last();
        lemma_cost_reverse(pb, t);
        assert(s.reverse() =~= seq![x] + t.reverse());
        lemma_cost_concat(pb, seq![x], t.reverse());
        assert(t.reverse()[0] == t.last());
        assert(pb.arc(x as int, t.last() as int) == pb.arc(t.last() as int, x as int));
    }
}

/// Reversing the segment `i..=j` changes the length of the route by the two arcs
/// it adds minus the two it removes.
pub proof fn lemma_reversal_cost(pb: &Problem, s: Seq<usize>, i: int, j: int)
    requires
        pb.wf(),
        pb.nodes_in_range(s),
        1 <= i <= j < s.len() - 1,
    ensures
        pb.route_cost(reversed_segment(s, i, j)) + pb.arc(s[i - 1] as int, s[i] as int) + pb.arc(
            s[j] as int,
            s[j + 1] as int,
        ) == pb.route_cost(s) + pb.arc(s[i - 1] as int, s[j] as int) + pb.arc(
            s[i] as int,
            s[j + 1] as int,
        ),
{
    let a = s.take(i);
    let b = s.subrange(i, j + 1);
    let c = s.skip(j + 1);
    assert(s =~= a + b + c);
    assert(pb.nodes_in_range(b));
    lemma_cost_reverse(pb, b);
    lemma_cost_concat(pb, a, b);
    lemma_cost_concat(pb, a + b, c);
    lemma_cost_concat(pb, a, b.reverse());
    lemma_cost_concat(pb, a + b.reverse(), c);
    assert((a + b).last() == s[j]);
    assert((a + b.reverse()).last() == s[i]);
    assert(b.reverse()[0] == s[j]);
    assert(b.reverse().last() == s[i]);
    assert(a.last() == s[i - 1]);
    assert(c[0] == s[j + 1]);
}

/// Reversing a segment keeps the multiset of entries.
pub proof fn lemma_reversal_multiset<A>(s: Seq<A>, i: int, j: int)
    requires
        0 <= i <= j < s.len(),
    ensures
        reversed_segment(s, i, j).to_multiset() == s.to_multiset(),
{
    let a = s.take(i);
    let b = s.subrange(i, j + 1);
    let c = s.skip(j + 1);
    assert(s =~= a + b + c);
    vstd::seq_lib::lemma_multiset_commutative(a + b, c);
    vstd::seq_lib::lemma_multiset_commutative(a, b);
    vstd::seq_lib::lemma_multiset_commutative(a + b.reverse(), c);
    vstd::seq_lib::lemma_multiset_commutative(a, b.reverse());
    b.lemma_reverse_to_multiset();
}

/// A 2-opt sweep over a route of `n` stops from segment `i..=j` on: the
/// segments are tried by increasing `i`, then increasing `j` (with
/// `1 <= i < j < n - 1`), and each one whose reversal shortens the route is
/// reversed in the nodes `s` and in the clusters `c` before the next is tried.
/// Returns the nodes, the clusters and whether any segment was reversed.
pub open spec fn two_opt_sweep(pb: &Problem, s: Seq<usize>, c: Seq<usize>, i: int, j: int, n: int) -> (
    Seq<usize>,
    Seq<usize>,
    bool,
)
    decreases n - i, n - j,
{
    if i >= n - 2 || i < 1 {
        (s, c, false)
    } else if j >= n - 1 {
        two_opt_sweep(pb, s, c, i + 1, i + 2, n)
    } else if j <= i {
        (s, c, false)
    } else if !no_gain_reversal(pb, s, i, j) {
        let r = two_opt_sweep(pb, reversed_segment(s, i, j), reversed_segment(c, i, j), i, j + 1, n);
        (r.0, r.1, true)
    } else {
        two_opt_sweep(pb, s, c, i, j + 1, n)
    }
}

/// The entries of a segment reversal.
pub proof fn lemma_reversed_segment_index(s: Seq<usize>, i: int, j: int)
    requires
        0 <= i <= j < s.len(),
    ensures
        reversed_segment(s, i, j).len() == s.len(),
        forall|k: int|
            0 <= k < s.len() ==> #[trigger] reversed_segment(s, i, j)[k] == s[if i <= k <= j {
                i + j - k
            } else {
                k
            }],
{
    let r = reversed_segment(s, i, j);
    assert forall|k: int| 0 <= k < s.len() implies #[trigger] r[k] == s[if i <= k <= j {
        i + j - k
    } else {
        k
    }] by {
        if k < i {
        } else if k <= j {
            assert(r[k] == s.subrange(i, j + 1).reverse()[k - i]);
        } else {
            assert(r[k] == s.skip(j + 1)[k - j - 1]);
        }
    }
}

/// A sweep keeps the length and the node ids of the route, and shortens the
/// route when it reverses a segment; when it reverses none it changes nothing.
pub proof fn lemma_two_opt_sweep(pb: &Problem, s: Seq<usize>, c: Seq<usize>, i: int, j: int, n: int)
    requires
        pb.wf(),
        s.len() == n,
        c.len() == n,
        pb.nodes_in_range(s),
    ensures
        ({
            let r = two_opt_sweep(pb, s, c, i, j, n);
            &&& r.0.len() == n
            &&& r.1.len() == n
            &&& pb.nodes_in_range(r.0)
            &&& r.2 ==> pb.route_cost(r.0) < pb.route_cost(s)
            &&& !r.2 ==> r.0 == s && r.1 == c
        }),
    decreases n - i, n - j,
{
    if i >= n - 2 || i < 1 {
    } else if j >= n - 1 {
        lemma_two_opt_sweep(pb, s, c, i + 1, i + 2, n);
    } else if j <= i {
    } else if !no_gain_reversal(pb, s, i, j) {
        let s2 = reversed_segment(s, i, j);
        let c2 = reversed_segment(c, i, j);
        lemma_reversed_segment_index(s, i, j);
        lemma_reversed_segment_index(c, i, j);
        lemma_reversal_cost(pb, s, i, j);
        assert(pb.nodes_in_range(s2)) by {
            assert forall|k: int| 0 <= k < s2.len() implies #[trigger] s2[k] < pb.num_nodes by {
                assert(s2[k] == s[if i <= k <= j { i + j - k } else { k }]);
            }
        }
        lemma_two_opt_sweep(pb, s2, c2, i, j + 1, n);
    } else {
        lemma_two_opt_sweep(pb, s, c, i, j + 1, n);
    }
}

/// 2-opt to a fixed point: sweeps from the first segment are repeated while a
/// sweep reverses a segment.
pub open spec fn two_opt_fix(pb: &Problem, s: Seq<usize>, c: Seq<usize>) -> (Seq<usize>, Seq<usize>)
    decreases pb.route_cost(s),
    when pb.wf() && pb.nodes_in_range(s) && s.len() == c.len() && s.len() >= 1
{
    let r = two_opt_sweep(pb, s, c, 1, 2, s.len() as int);
    proof {
        lemma_two_opt_sweep(pb, s, c, 1, 2, s.len() as int);
        crate::models::lemma_route_cost_bound(pb, r.0);
    }
    if r.2 {
        two_opt_fix(pb, r.0, r.1)
    } else {
        (r.0, r.1)
    }
}

/// Applies first-improvement 2-opt: scanning the pairs of inner stops `i < j`,
/// reverses the segment `i..=j` (nodes and clusters together, then recomputes the
/// totals) whenever that shortens the route, and rescans until a full scan
/// changes nothing.
pub fn optimize_routing_2opt(pb: &Problem, sol: &mut Solution)
    requires
        pb.wf(),
        2 <= old(sol).tour_nodes@.len() <= MAX_TOUR,
        old(sol).tour_clusters@.len() == old(sol).tour_nodes@.len(),
        pb.nodes_in_range(old(sol).tour_nodes@),
        pb.clusters_in_range(old(sol).tour_clusters@),
    ensures
        final(sol).tour_nodes@.len() == old(sol).tour_nodes@.len(),
        final(sol).tour_clusters@.len() == old(sol).tour_clusters@.len(),
        final(sol).tour_nodes@[0] == old(sol).tour_nodes@[0],
        final(sol).tour_nodes@.last() == old(sol).tour_nodes@.last(),
        final(sol).tour_clusters@[0] == old(sol).tour_clusters@[0],
        final(sol).tour_clusters@.last() == old(sol).tour_clusters@.last(),
        stops(final(sol)).to_multiset() == stops(old(sol)).to_multiset(),
        final(sol).tour_clusters@.to_multiset() == old(sol).tour_clusters@.to_multiset(),
        pb.clusters_profit(final(sol).tour_clusters@.drop_last()) == pb.clusters_profit(
            old(sol).tour_clusters@.drop_last(),
        ),
        (final(sol).tour_nodes@, final(sol).tour_clusters@) == two_opt_fix(
            pb,
            old(sol).tour_nodes@,
            old(sol).tour_clusters@,
        ),
        inner_distinct(old(sol).tour_clusters@) ==> inner_distinct(final(sol).tour_clusters@),
        stops_in_clusters(pb, old(sol).tour_nodes@, old(sol).tour_clusters@) ==> stops_in_clusters(
            pb,
            final(sol).tour_nodes@,
            final(sol).tour_clusters@,
        ),
        pb.nodes_in_range(final(sol).tour_nodes@),
        pb.clusters_in_range(final(sol).tour_clusters@),
        two_opt_optimal(pb, final(sol).tour_nodes@),
        old(sol).tour_nodes@.len() <= 3 ==> final(sol).same(old(sol)),
        final(sol).same(old(sol)) || {
            &&& pb.route_cost(final(sol).tour_nodes@) < pb.route_cost(old(sol).tour_nodes@)
            &&& final(sol).total_cost == pb.route_cost(final(sol).tour_nodes@)
            &&& final(sol).total_profit == pb.clusters_profit(final(sol).tour_clusters@.drop_last())
        },
{
    let n = sol.tour_nodes.len();
    let ghost orig = *sol;
    let mut improved = true;
    let mut changed = false;
    proof {
        crate::models::lemma_route_cost_bound(pb, sol.tour_nodes@);
    }
    while improved
        invariant
            pb.wf(),
            n == sol.tour_nodes@.len(),
            n == sol.tour_clusters@.len(),
            2 <= n <= MAX_TOUR,
            pb.nodes_in_range(sol.tour_nodes@),
            pb.clusters_in_range(sol.tour_clusters@),
            sol.tour_nodes@[0] == orig.tour_nodes@[0],
            sol.tour_nodes@[n - 1] == orig.tour_nodes@[n - 1],
            sol.tour_clusters@[0] == orig.tour_clusters@[0],
            sol.tour_clusters@[n - 1] == orig.tour_clusters@[n - 1],
            stops(sol).to_multiset() == stops(&orig).to_multiset(),
            sol.tour_clusters@.to_multiset() == orig.tour_clusters@.to_multiset(),
            pb.clusters_profit(sol.tour_clusters@.drop_last()) == pb.clusters_profit(orig.tour_clusters@.drop_last()),
            improved ==> two_opt_fix(pb, sol.tour_nodes@, sol.tour_clusters@) == two_opt_fix(pb, orig.tour_nodes@, orig.tour_clusters@),
            !improved ==> (sol.tour_nodes@, sol.tour_clusters@) == two_opt_fix(pb, orig.tour_nodes@, orig.tour_clusters@),
            inner_distinct(orig.tour_clusters@) ==> inner_distinct(sol.tour_clusters@),
            stops_in_clusters(pb, orig.tour_nodes@, orig.tour_clusters@) ==> stops_in_clusters(
                pb,
                sol.tour_nodes@,
                sol.tour_clusters@,
            ),
            pb.route_cost(sol.tour_nodes@) >= 0,
            !improved ==> two_opt_optimal(pb, sol.tour_nodes@),
            !changed ==> sol.same(&orig),
            n <= 3 ==> !changed,
            changed ==> {
                &&& pb.route_cost(sol.tour_nodes@) < pb.route_cost(orig.tour_nodes@)
                &&& sol.total_cost == pb.route_cost(sol.tour_nodes@)
                &&& sol.total_profit == pb.clusters_profit(sol.tour_clusters@.drop_last())
            },
        decreases
            if improved {
                pb.route_cost(sol.tour_nodes@) + 1
            } else {
                0
            },
    {
        let ghost start_cost = pb.route_cost(sol.tour_nodes@);
        let ghost s0 = sol.tour_nodes@;
        let ghost c0 = sol.tour_clusters@;
        improved = false;
        let mut i: usize = 1;
        while i < n - 2
            invariant
                pb.wf(),
                n == sol.tour_nodes@.len(),
                n == sol.tour_clusters@.len(),
                2 <= n <= MAX_TOUR,
                1 <= i,
                i <= n - 2 || i == 1,
                pb.nodes_in_range(sol.tour_nodes@),
                pb.clusters_in_range(sol.tour_clusters@),
                sol.tour_nodes@[0] == orig.tour_nodes@[0],
                sol.tour_nodes@[n - 1] == orig.tour_nodes@[n - 1],
                sol.tour_clusters@[0] == orig.tour_clusters@[0],
                sol.tour_clusters@[n - 1] == orig.tour_clusters@[n - 1],
                stops(sol).to_multiset() == stops(&orig).to_multiset(),
                sol.tour_clusters@.to_multiset() == orig.tour_clusters@.to_multiset(),
                pb.clusters_profit(sol.tour_clusters@.drop_last()) == pb.clusters_profit(orig.tour_clusters@.drop_last()),
                two_opt_fix(pb, s0, c0) == two_opt_fix(pb, orig.tour_nodes@, orig.tour_clusters@),
                s0.len() == n && c0.len() == n && pb.nodes_in_range(s0),
                two_opt_sweep(pb, s0, c0, 1, 2, n as int) == (two_opt_sweep(pb, sol.tour_nodes@, sol.tour_clusters@, i as int, i + 1, n as int).0, two_opt_sweep(pb, sol.tour_nodes@, sol.tour_clusters@, i as int, i + 1, n as int).1, improved || two_opt_sweep(pb, sol.tour_nodes@, sol.tour_clusters@, i as int, i + 1, n as int).2),
                inner_distinct(orig.tour_clusters@) ==> inner_distinct(sol.tour_clusters@),
                stops_in_clusters(pb, orig.tour_nodes@, orig.tour_clusters@) ==> stops_in_clusters(
                    pb,
                    sol.tour_nodes@,
                    sol.tour_clusters@,
                ),
                pb.route_cost(sol.tour_nodes@) >= 0,
                !improved ==> pb.route_cost(sol.tour_nodes@) == start_cost,
                improved ==> pb.route_cost(sol.tour_nodes@) < start_cost,
                !improved ==> forall|i2: int, j2: int|
                    1 <= i2 < i && i2 < j2 < n - 1 ==> #[trigger] no_gain_reversal(
                        pb,
                        sol.tour_nodes@,
                        i2,
                        j2,
                    ),
                !changed ==> sol.same(&orig),
                n <= 3 ==> !changed,
                changed ==> {
                    &&& pb.route_cost(sol.tour_nodes@) < pb.route_cost(orig.tour_nodes@)
                    &&& sol.total_cost == pb.route_cost(sol.tour_nodes@)
                    &&& sol.total_profit == pb.clusters_profit(sol.tour_clusters@.drop_last())
                },
                changed || improved ==> start_cost <= pb.route_cost(orig.tour_nodes@),
                !changed ==> start_cost == pb.route_cost(orig.tour_nodes@),
                changed ==> start_cost < pb.route_cost(orig.tour_nodes@) || improved,
            decreases n - i,
        {
            let mut j: usize = i + 1;
            while j < n - 1
                invariant
                    pb.wf(),
                    n == sol.tour_nodes@.len(),
                    n == sol.tour_clusters@.len(),
                    2 <= n <= MAX_TOUR,
                    1 <= i < j,
                    i < n - 2,
                    j <= n - 1,
                    pb.nodes_in_range(sol.tour_nodes@),
                    pb.clusters_in_range(sol.tour_clusters@),
                    sol.tour_nodes@[0] == orig.tour_nodes@[0],
                    sol.tour_nodes@[n - 1] == orig.tour_nodes@[n - 1],
                    sol.tour_clusters@[0] == orig.tour_clusters@[0],
                    sol.tour_clusters@[n - 1] == orig.tour_clusters@[n - 1],
                    stops(sol).to_multiset() == stops(&orig).to_multiset(),
                    sol.tour_clusters@.to_multiset() == orig.tour_clusters@.to_multiset(),
                    pb.clusters_profit(sol.tour_clusters@.drop_last()) == pb.clusters_profit(orig.tour_clusters@.drop_last()),
                    two_opt_fix(pb, s0, c0) == two_opt_fix(pb, orig.tour_nodes@, orig.tour_clusters@),
                    s0.len() == n && c0.len() == n && pb.nodes_in_range(s0),
                    two_opt_sweep(pb, s0, c0, 1, 2, n as int) == (two_opt_sweep(pb, sol.tour_nodes@, sol.tour_clusters@, i as int, j as int, n as int).0, two_opt_sweep(pb, sol.tour_nodes@, sol.tour_clusters@, i as int, j as int, n as int).1, improved || two_opt_sweep(pb, sol.tour_nodes@, sol.tour_clusters@, i as int, j as int, n as int).2),
                    inner_distinct(orig.tour_clusters@) ==> inner_distinct(sol.tour_clusters@),
                    stops_in_clusters(pb, orig.tour_nodes@, orig.tour_clusters@)
                        ==> stops_in_clusters(pb, sol.tour_nodes@, sol.tour_clusters@),
                    pb.route_cost(sol.tour_nodes@) >= 0,
                    !improved ==> pb.route_cost(sol.tour_nodes@) == start_cost,
                    improved ==> pb.route_cost(sol.tour_nodes@) < start_cost,
                    !improved ==> forall|i2: int, j2: int|
                        (1 <= i2 < i && i2 < j2 < n - 1) || (i2 == i && i2 < j2 < j)
                            ==> #[trigger] no_gain_reversal(pb, sol.tour_nodes@, i2, j2),
                    !changed ==> sol.same(&orig),
                    n <= 3 ==> !changed,
                    changed ==> {
                        &&& pb.route_cost(sol.tour_nodes@) < pb.route_cost(orig.tour_nodes@)
                        &&& sol.total_cost == pb.route_cost(sol.tour_nodes@)
                        &&& sol.total_profit == pb.clusters_profit(
                            sol.tour_clusters@.drop_last(),
                        )
                    },
                    changed || improved ==> start_cost <= pb.route_cost(orig.tour_nodes@),
                    !changed ==> start_cost == pb.route_cost(orig.tour_nodes@),
                    changed ==> start_cost < pb.route_cost(orig.tour_nodes@) || improved,
                decreases n - j,
            {
                let n1 = sol.tour_nodes[i - 1];
                let n2 = sol.tour_nodes[i];
                let n3 = sol.tour_nodes[j];
                let n4 = sol.tour_nodes[j + 1];
                let current_dist = pb.get_dist(n1, n2) + pb.get_dist(n3, n4);
                let new_dist = pb.get_dist(n1, n3) + pb.get_dist(n2, n4);
                if new_dist < current_dist {
                    let ghost before = *sol;
                    proof {
                        lemma_reversal_cost(pb, sol.tour_nodes@, i as int, j as int);
                    }
                    reverse_segment(&mut sol.tour_nodes, i, j);
                    reverse_segment(&mut sol.tour_clusters, i, j);
                    proof {
                        assert(stops(sol) =~= reversed_segment(stops(&before), i as int, j as int));
                        lemma_reversal_multiset(stops(&before), i as int, j as int);
                        lemma_reversal_multiset(before.tour_clusters@, i as int, j as int);
                        if inner_distinct(before.tour_clusters@) {
                            assert forall|k: int| 1 <= k < n - 1 implies #[trigger]
                                sol.tour_clusters@[k] != 0 by {
                                assert(sol.tour_clusters@[k] == before.tour_clusters@[if i <= k <= j {
                                    i + j - k
                                } else {
                                    k
                                }]);
                            }
                            assert forall|k1: int, k2: int| 1 <= k1 < k2 < n - 1 implies
                                #[trigger] sol.tour_clusters@[k1] != #[trigger] sol.tour_clusters@[k2] by {
                                let f1 = if i <= k1 <= j { i + j - k1 } else { k1 };
                                let f2 = if i <= k2 <= j { i + j - k2 } else { k2 };
                                assert(sol.tour_clusters@[k1] == before.tour_clusters@[f1]);
                                assert(sol.tour_clusters@[k2] == before.tour_clusters@[f2]);
                                if f1 < f2 {
                                    assert(before.tour_clusters@[f1] != before.tour_clusters@[f2]);
                                } else {
                                    assert(before.tour_clusters@[f2] != before.tour_clusters@[f1]);
                                }
                            }
                        }
                        if stops_in_clusters(pb, before.tour_nodes@, before.tour_clusters@) {
                            assert forall|k: int| 0 <= k < n implies pb.members(
                                sol.tour_clusters@[k] as int,
                            ).contains(#[trigger] sol.tour_nodes@[k]) by {
                                let f = if i <= k <= j { i + j - k } else { k };
                                assert(sol.tour_nodes@[k] == before.tour_nodes@[f]);
                                assert(sol.tour_clusters@[k] == before.tour_clusters@[f]);
                                assert(pb.members(before.tour_clusters@[f] as int).contains(
                                    before.tour_nodes@[f],
                                ));
                            }
                        }
                        assert forall|k: int| 0 <= k < n implies #[trigger] sol.tour_nodes@[k]
                            < pb.num_nodes by {
                            assert(sol.tour_nodes@[k] == before.tour_nodes@[if i <= k <= j {
                                i + j - k
                            } else {
                                k
                            }]);
                        }
                        assert forall|k: int| 0 <= k < n implies #[trigger] sol.tour_clusters@[k]
                            < pb.num_clusters by {
                            assert(sol.tour_clusters@[k] == before.tour_clusters@[if i <= k <= j {
                                i + j - k
                            } else {
                                k
                            }]);
                        }
                        assert(sol.tour_nodes@[0] == before.tour_nodes@[0]);
                        assert(sol.tour_nodes@[n - 1] == before.tour_nodes@[n - 1]);
                        assert(sol.tour_clusters@[0] == before.tour_clusters@[0]);
                        assert(sol.tour_clusters@[n - 1] == before.tour_clusters@[n - 1]);
                        crate::models::lemma_route_cost_bound(pb, sol.tour_nodes@);
                        assert(sol.tour_clusters@.drop_last().len() == n - 1);
                        assert(sol.tour_clusters@.drop_last() =~= reversed_segment(
                            before.tour_clusters@.drop_last(),
                            i as int,
                            j as int,
                        ));
                        crate::route_lemmas::lemma_reversal_profit(
                            pb,
                            before.tour_clusters@.drop_last(),
                            i as int,
                            j as int,
                        );
                        assert(pb.clusters_in_range(sol.tour_clusters@.drop_last()));
                    }
                    sol.recompute(pb);
                    improved = true;
                    changed = true;
                }
                j = j + 1;
            }
            i = i + 1;
        }
    }
}

/// A node assignment is a sequence of stops, each in its cluster, with the depot
/// node at both ends.
pub proof fn lemma_assignment_stops(pb: &Problem, cl: Seq<usize>, s: Seq<usize>)
    requires
        cl.len() >= 2,
    ensures
        node_assignment(pb, cl, s) <==> (s.len() == cl.len() && s[0] == 0 && s.last() == 0
            && stops_in_clusters(pb, s, cl)),
{
    if node_assignment(pb, cl, s) {
        assert forall|k: int| 0 <= k < s.len() implies pb.members(cl[k] as int).contains(
            #[trigger] s[k],
        ) by {
            if k == 0 {
                assert(pb.members(cl[0] as int).contains(0usize));
            }
        }
    }
    if s.len() == cl.len() && s[0] == 0 && s.last() == 0 && stops_in_clusters(pb, s, cl) {
        assert(pb.members(cl[0] as int).contains(s[0]));
        assert forall|k: int| 1 <= k <= cl.len() - 1 implies pb.members(cl[k] as int).contains(
            #[trigger] s[k],
        ) by {}
    }
}

/// The predecessor found by `best_pred` is 0 or one of the candidates.
proof fn lemma_best_pred_from(pb: &Problem, lr: Seq<u64>, pm: Seq<usize>, v: int, a: int)
    requires
        0 <= a <= pm.len(),
    ensures
        best_pred(pb, lr, pm, v, a).1 == 0 || pm.contains(best_pred(pb, lr, pm, v, a).1),
    decreases a,
{
    if a > 0 {
        lemma_best_pred_from(pb, lr, pm, v, a - 1);
        assert(pm[a - 1] == pm[a - 1]);
        if pm.contains(best_pred(pb, lr, pm, v, a - 1).1) {
        }
        assert(pm.contains(pm[a - 1]));
    }
}

/// The tables have one row per layer, of one entry per node, and every
/// predecessor is a node.
pub proof fn lemma_dp_spec_rows(pb: &Problem, cl: Seq<usize>, i: int)
    requires
        pb.wf(),
        0 <= i < cl.len(),
        pb.clusters_in_range(cl),
    ensures
        dp_spec(pb, cl, i).0.len() == i + 1,
        dp_spec(pb, cl, i).1.len() == i + 1,
        forall|j: int| 0 <= j <= i ==> (#[trigger] dp_spec(pb, cl, i).1[j]).len() == pb.num_nodes,
        forall|j: int, v: int|
            0 <= j <= i && 0 <= v < pb.num_nodes ==> #[trigger] dp_spec(pb, cl, i).1[j][v]
                < pb.num_nodes,
    decreases i,
{
    if i > 0 {
        lemma_dp_spec_rows(pb, cl, i - 1);
        let t = dp_spec(pb, cl, i - 1);
        let pc = cl[i - 1] as int;
        let cc = cl[i] as int;
        let pm = pb.members(pc);
        assert forall|v: int| 0 <= v < pb.num_nodes implies #[trigger] layer_entry(
            pb,
            t.0[i - 1],
            pc,
            cc,
            v,
        ).1 < pb.num_nodes by {
            lemma_best_pred_from(pb, t.0[i - 1], pm, v, pm.len() as int);
            let u = best_pred(pb, t.0[i - 1], pm, v, pm.len() as int).1;
            if pm.contains(u) {
                let k = choose|k: int| 0 <= k < pm.len() && pm[k] == u;
                assert(pb.nodes_of_cluster@[pc]@[k] < pb.num_nodes);
            }
        }
        let r = dp_spec(pb, cl, i).1;
        assert forall|j: int, v: int| 0 <= j <= i && 0 <= v < pb.num_nodes implies #[trigger] r[j][v]
            < pb.num_nodes by {
            if j < i {
                assert(r[j] == t.1[j]);
            } else {
                assert(r[j][v] == layer_entry(pb, t.0[i - 1], pc, cc, v).1);
            }
        }
        assert forall|j: int| 0 <= j <= i implies (#[trigger] r[j]).len() == pb.num_nodes by {
            if j < i {
                assert(r[j] == t.1[j]);
            }
        }
    }
}

/// A path traced back through tables of nodes is made of nodes.
proof fn lemma_trace_nodes(par: Seq<Seq<usize>>, j: int, v: usize, n: int)
    requires
        0 <= j < par.len(),
        v < n,
        forall|k: int, w: int| 0 <= k <= j && 0 <= w < n ==> #[trigger] par[k][w] < n,
        0 < n,
    ensures
        trace(par, j, v).len() == j + 1,
        forall|k: int| 0 <= k < trace(par, j, v).len() ==> #[trigger] trace(par, j, v)[k] < n,
    decreases j,
{
    if j > 0 {
        let w = par[j][v as int];
        lemma_trace_nodes(par, j - 1, w, n);
        let t = trace(par, j - 1, w);
        assert forall|k: int| 0 <= k < trace(par, j, v).len() implies #[trigger] trace(par, j, v)[k]
            < n by {
            if k < t.len() {
                assert(trace(par, j, v)[k] == t[k]);
            }
        }
    }
}

/// 2-opt to a fixed point keeps the length of the route, its node ids and its
/// cluster ids.
pub proof fn lemma_two_opt_fix(pb: &Problem, s: Seq<usize>, c: Seq<usize>)
    requires
        pb.wf(),
        pb.nodes_in_range(s),
        pb.clusters_in_range(c),
        s.len() == c.len(),
        s.len() >= 1,
    ensures
        two_opt_fix(pb, s, c).0.len() == s.len(),
        two_opt_fix(pb, s, c).1.len() == s.len(),
        pb.nodes_in_range(two_opt_fix(pb, s, c).0),
        pb.clusters_in_range(two_opt_fix(pb, s, c).1),
    decreases pb.route_cost(s),
{
    let r = two_opt_sweep(pb, s, c, 1, 2, s.len() as int);
    lemma_two_opt_sweep(pb, s, c, 1, 2, s.len() as int);
    lemma_sweep_clusters(pb, s, c, 1, 2, s.len() as int);
    crate::models::lemma_route_cost_bound(pb, r.0);
    crate::models::lemma_route_cost_bound(pb, s);
    if r.2 {
        lemma_two_opt_fix(pb, r.0, r.1);
    }
}

/// A sweep keeps cluster ids in range.
proof fn lemma_sweep_clusters(pb: &Problem, s: Seq<usize>, c: Seq<usize>, i: int, j: int, n: int)
    requires
        s.len() == n,
        c.len() == n,
        pb.clusters_in_range(c),
    ensures
        pb.clusters_in_range(two_opt_sweep(pb, s, c, i, j, n).1),
    decreases n - i, n - j,
{
    if i >= n - 2 || i < 1 {
    } else if j >= n - 1 {
        lemma_sweep_clusters(pb, s, c, i + 1, i + 2, n);
    } else if j <= i {
    } else if !no_gain_reversal(pb, s, i, j) {
        let s2 = reversed_segment(s, i, j);
        let c2 = reversed_segment(c, i, j);
        lemma_reversed_segment_index(s, i, j);
        lemma_reversed_segment_index(c, i, j);
        assert(pb.clusters_in_range(c2)) by {
            assert forall|k: int| 0 <= k < c2.len() implies #[trigger] c2[k] < pb.num_clusters by {
                assert(c2[k] == c[if i <= k <= j { i + j - k } else { k }]);
            }
        }
        lemma_sweep_clusters(pb, s2, c2, i, j + 1, n);
    } else {
        lemma_sweep_clusters(pb, s, c, i, j + 1, n);
    }
}

/// One round of improvement: the best choice of members (for routes of more
/// than two stops, see `dp_spec`), then 2-opt to a fixed point.
pub open spec fn improve_round(pb: &Problem, s: Seq<usize>, c: Seq<usize>) -> (Seq<usize>, Seq<usize>) {
    let l = c.len() as int;
    let s1 = if l > 2 {
        trace(dp_spec(pb, c, l - 1).1, l - 1, 0usize)
    } else {
        s
    };
    two_opt_fix(pb, s1, c)
}

/// The bookkept length after a round from a route whose bookkept length is
/// `t`: the length of the improved route, or `t` for routes of at most two
/// stops (which a round leaves as they are).
pub open spec fn round_total(pb: &Problem, s: Seq<usize>, c: Seq<usize>, t: int) -> int {
    if c.len() > 2 {
        pb.route_cost(improve_round(pb, s, c).0)
    } else {
        t
    }
}

/// A round keeps the shape of the route.
pub proof fn lemma_improve_round(pb: &Problem, s: Seq<usize>, c: Seq<usize>)
    requires
        pb.wf(),
        pb.nodes_in_range(s),
        pb.clusters_in_range(c),
        s.len() == c.len(),
        s.len() >= 2,
    ensures
        improve_round(pb, s, c).0.len() == s.len(),
        improve_round(pb, s, c).1.len() == s.len(),
        pb.nodes_in_range(improve_round(pb, s, c).0),
        pb.clusters_in_range(improve_round(pb, s, c).1),
        0 <= pb.route_cost(improve_round(pb, s, c).0),
{
    let l = c.len() as int;
    if l > 2 {
        lemma_dp_spec_rows(pb, c, l - 1);
        lemma_trace_nodes(dp_spec(pb, c, l - 1).1, l - 1, 0usize, pb.num_nodes as int);
        let s1 = trace(dp_spec(pb, c, l - 1).1, l - 1, 0usize);
        lemma_two_opt_fix(pb, s1, c);
    } else {
        lemma_two_opt_fix(pb, s, c);
    }
    crate::models::lemma_route_cost_bound(pb, improve_round(pb, s, c).0);
}

/// Rounds of improvement from a route of bookkept length `t`, repeated while a
/// round shortens the bookkept length.
pub open spec fn improve_fix(pb: &Problem, s: Seq<usize>, c: Seq<usize>, t: int) -> (
    Seq<usize>,
    Seq<usize>,
)
    decreases t,
    when pb.wf() && pb.nodes_in_range(s) && pb.clusters_in_range(c) && s.len() == c.len() && s.len()
        >= 2 && t >= 0
{
    let r = improve_round(pb, s, c);
    let t2 = round_total(pb, s, c, t);
    proof {
        lemma_improve_round(pb, s, c);
    }
    if t2 < t {
        improve_fix(pb, r.0, r.1, t2)
    } else {
        r
    }
}

/// Alternates the best choice of nodes for the clusters in their order and 2-opt
/// on the order, as long as a round shortens the bookkept length (see
/// `improve_fix`).
pub fn tour_improvement(pb: &Problem, sol: &mut Solution)
    requires
        pb.wf(),
        2 <= old(sol).tour_nodes@.len() <= MAX_TOUR,
        old(sol).tour_clusters@.len() == old(sol).tour_nodes@.len(),
        pb.nodes_in_range(old(sol).tour_nodes@),
        pb.clusters_in_range(old(sol).tour_clusters@),
    ensures
        final(sol).tour_nodes@.len() == old(sol).tour_nodes@.len(),
        final(sol).tour_clusters@.len() == old(sol).tour_clusters@.len(),
        final(sol).tour_clusters@[0] == old(sol).tour_clusters@[0],
        final(sol).tour_clusters@.last() == old(sol).tour_clusters@.last(),
        final(sol).tour_clusters@.to_multiset() == old(sol).tour_clusters@.to_multiset(),
        pb.clusters_profit(final(sol).tour_clusters@.drop_last()) == pb.clusters_profit(
            old(sol).tour_clusters@.drop_last(),
        ),
        (final(sol).tour_nodes@, final(sol).tour_clusters@) == improve_fix(
            pb,
            old(sol).tour_nodes@,
            old(sol).tour_clusters@,
            old(sol).total_cost as int,
        ),
        pb.nodes_in_range(final(sol).tour_nodes@),
        pb.clusters_in_range(final(sol).tour_clusters@),
        two_opt_optimal(pb, final(sol).tour_nodes@),
        inner_distinct(old(sol).tour_clusters@) ==> inner_distinct(final(sol).tour_clusters@),
        old(sol).tour_nodes@.len() <= 2 ==> final(sol).same(old(sol)),
        old(sol).tour_nodes@.len() > 2 ==> {
            &&& final(sol).total_cost == pb.route_cost(final(sol).tour_nodes@)
            &&& final(sol).total_profit == pb.clusters_profit(final(sol).tour_clusters@.drop_last())
            &&& (exists|s: Seq<usize>| node_assignment(pb, old(sol).tour_clusters@, s))
                ==> node_assignment(pb, final(sol).tour_clusters@, final(sol).tour_nodes@)
        },
        node_assignment(pb, old(sol).tour_clusters@, old(sol).tour_nodes@) ==> {
            &&& node_assignment(pb, final(sol).tour_clusters@, final(sol).tour_nodes@)
            &&& pb.route_cost(final(sol).tour_nodes@) <= pb.route_cost(old(sol).tour_nodes@)
        },
{
    let ghost orig = *sol;
    let ghost l = sol.tour_nodes@.len();
    let ghost mut ran = false;
    let mut improved = true;
    while improved
        invariant
            pb.wf(),
            l == orig.tour_nodes@.len(),
            2 <= l <= MAX_TOUR,
            sol.tour_nodes@.len() == l,
            sol.tour_clusters@.len() == l,
            pb.nodes_in_range(sol.tour_nodes@),
            pb.clusters_in_range(sol.tour_clusters@),
            sol.tour_clusters@[0] == orig.tour_clusters@[0],
            sol.tour_clusters@.last() == orig.tour_clusters@.last(),
            sol.tour_clusters@.to_multiset() == orig.tour_clusters@.to_multiset(),
            pb.clusters_profit(sol.tour_clusters@.drop_last()) == pb.clusters_profit(
                orig.tour_clusters@.drop_last(),
            ),
            improved ==> improve_fix(pb, sol.tour_nodes@, sol.tour_clusters@, sol.total_cost as int)
                == improve_fix(pb, orig.tour_nodes@, orig.tour_clusters@, orig.total_cost as int),
            !improved ==> (sol.tour_nodes@, sol.tour_clusters@) == improve_fix(
                pb,
                orig.tour_nodes@,
                orig.tour_clusters@,
                orig.total_cost as int,
            ),
            inner_distinct(orig.tour_clusters@) ==> inner_distinct(sol.tour_clusters@),
            !improved ==> two_opt_optimal(pb, sol.tour_nodes@),
            !ran ==> sol.same(&orig),
            !ran ==> improved,
            l <= 2 ==> sol.same(&orig),
            l > 2 && ran ==> {
                &&& sol.total_cost == pb.route_cost(sol.tour_nodes@)
                &&& sol.total_profit == pb.clusters_profit(sol.tour_clusters@.drop_last())
                &&& (exists|s: Seq<usize>| node_assignment(pb, orig.tour_clusters@, s))
                    ==> node_assignment(pb, sol.tour_clusters@, sol.tour_nodes@)
            },
            node_assignment(pb, orig.tour_clusters@, orig.tour_nodes@) ==> {
                &&& node_assignment(pb, sol.tour_clusters@, sol.tour_nodes@)
                &&& pb.route_cost(sol.tour_nodes@) <= pb.route_cost(orig.tour_nodes@)
            },
        decreases
            if improved {
                sol.total_cost + 1
            } else {
                0
            },
    {
        improved = false;
        let cost_before = sol.total_cost;
        let ghost before = *sol;
        proof {
            assert(sol.tour_nodes@.subrange(l as int, l as int) =~= Seq::<usize>::empty());
            if l > 2 && (exists|s: Seq<usize>| node_assignment(pb, orig.tour_clusters@, s)) && !ran {
                let s = choose|s: Seq<usize>| node_assignment(pb, orig.tour_clusters@, s);
                assert(node_assignment(pb, sol.tour_clusters@, s));
            }
            if l > 2 && (exists|s: Seq<usize>| node_assignment(pb, orig.tour_clusters@, s)) && ran {
                assert(node_assignment(pb, sol.tour_clusters@, sol.tour_nodes@));
            }
            if node_assignment(pb, orig.tour_clusters@, orig.tour_nodes@) {
                assert(node_assignment(pb, sol.tour_clusters@, sol.tour_nodes@));
            }
        }
        optimize_vertices_dp(pb, sol);
        let ghost mid = *sol;
        proof {
            if l > 2 {
                assert(sol.tour_nodes@.take(l as int) =~= sol.tour_nodes@);
                if exists|s: Seq<usize>| node_assignment(pb, before.tour_clusters@, s) {
                    lemma_assignment_stops(pb, sol.tour_clusters@, sol.tour_nodes@);
                }
                if node_assignment(pb, before.tour_clusters@, before.tour_nodes@) {
                    assert(pb.route_cost(sol.tour_nodes@) <= pb.route_cost(before.tour_nodes@));
                }
            } else {
                assert(sol.tour_nodes@ == before.tour_nodes@);
                if node_assignment(pb, before.tour_clusters@, before.tour_nodes@) {
                    lemma_assignment_stops(pb, sol.tour_clusters@, sol.tour_nodes@);
                }
            }
        }
        optimize_routing_2opt(pb, sol);
        proof {
            lemma_assignment_stops(pb, mid.tour_clusters@, mid.tour_nodes@);
            lemma_assignment_stops(pb, sol.tour_clusters@, sol.tour_nodes@);
            if !sol.same(&mid) {
                crate::models::lemma_route_cost_bound(pb, sol.tour_nodes@);
            }
            ran = true;
            let r = improve_round(pb, before.tour_nodes@, before.tour_clusters@);
            if l > 2 {
                assert(mid.tour_nodes@ == trace(
                    dp_spec(pb, before.tour_clusters@, l - 1).1,
                    l - 1,
                    0usize,
                ));
            } else {
                assert(mid == before);
            }
            assert((sol.tour_nodes@, sol.tour_clusters@) == r);
            assert(sol.total_cost == round_total(
                pb,
                before.tour_nodes@,
                before.tour_clusters@,
                before.total_cost as int,
            ));
        }
        if sol.total_cost < cost_before {
            improved = true;
        }
    }
}

/// `order` lists the clusters `1..num_clusters` once each, by non-increasing
/// profit, clusters of equal profit by increasing id.
pub open spec fn profit_sorted(pb: &Problem, order: Seq<usize>) -> bool {
    &&& order.len() + 1 == pb.num_clusters
    &&& forall|k: int| 0 <= k < order.len() ==> 1 <= #[trigger] order[k] < pb.num_clusters
    &&& forall|x: usize| 1 <= x < pb.num_clusters ==> order.contains(x)
    &&& forall|a: int, b: int|
        0 <= a < b < order.len() ==> pb.profit(#[trigger] order[a] as int) > pb.profit(
            #[trigger] order[b] as int,
        ) || (pb.profit(order[a] as int) == pb.profit(order[b] as int) && order[a] < order[b])
}

/// The non-depot clusters by non-increasing profit (ties by increasing id).
pub fn clusters_by_profit(pb: &Problem) -> (order: Vec<usize>)
    requires
        pb.wf(),
    ensures
        profit_sorted(pb, order@),
{
    let nc = pb.num_clusters;
    let mut v: Vec<usize> = Vec::new();
    let mut c: usize = 1;
    while c < nc
        invariant
            pb.wf(),
            nc == pb.num_clusters,
            1 <= c <= nc,
            v@.len() + 1 == c,
            forall|k: int| 0 <= k < v@.len() ==> 1 <= #[trigger] v@[k] < c,
            forall|x: usize| 1 <= x < c ==> v@.contains(x),
            forall|a: int, b: int|
                0 <= a < b < v@.len() ==> pb.profit(#[trigger] v@[a] as int) > pb.profit(
                    #[trigger] v@[b] as int,
                ) || (pb.profit(v@[a] as int) == pb.profit(v@[b] as int) && v@[a] < v@[b]),
        decreases nc - c,
    {
        let pc = pb.profits[c];
        let mut pos: usize = 0;
        while pos < v.len() && pb.profits[v[pos]] >= pc
            invariant
                pb.wf(),
                c < pb.num_clusters,
                pc == pb.profit(c as int),
                pos <= v@.len(),
                forall|k: int| 0 <= k < v@.len() ==> 1 <= #[trigger] v@[k] < c,
                forall|k: int| 0 <= k < pos ==> pb.profit(#[trigger] v@[k] as int) >= pc,
            decreases v@.len() - pos,
        {
            pos = pos + 1;
        }
        let ghost old_v = v@;
        v.insert(pos, c);
        proof {
            assert forall|k: int| 0 <= k < v@.len() implies 1 <= #[trigger] v@[k] < c + 1 by {
                if k < pos {
                    assert(v@[k] == old_v[k]);
                } else if k > pos {
                    assert(v@[k] == old_v[k - 1]);
                }
            }
            assert forall|x: usize| 1 <= x < c + 1 implies v@.contains(x) by {
                if x == c {
                    assert(v@[pos as int] == c);
                } else {
                    assert(old_v.contains(x));
                    let k = choose|k: int| 0 <= k < old_v.len() && old_v[k] == x;
                    if k < pos {
                        assert(v@[k] == x);
                    } else {
                        assert(v@[k + 1] == x);
                    }
                }
            }
            assert forall|a: int, b: int| 0 <= a < b < v@.len() implies pb.profit(
                #[trigger] v@[a] as int,
            ) > pb.profit(#[trigger] v@[b] as int) || (pb.profit(v@[a] as int) == pb.profit(
                v@[b] as int,
            ) && v@[a] < v@[b]) by {
                let oa = if a < pos { a } else { a - 1 };
                let ob = if b < pos { b } else { b - 1 };
                if a == pos {
                    assert(v@[b] == old_v[ob]);
                    if pos < old_v.len() {
                        assert(pb.profit(old_v[pos as int] as int) < pc);
                        if ob > pos {
                            assert(pb.profit(old_v[pos as int] as int) >= pb.profit(
                                old_v[ob] as int,
                            ));
                        }
                    }
                } else if b == pos {
                    assert(v@[a] == old_v[oa]);
                    assert(pb.profit(old_v[oa] as int) >= pc);
                } else {
                    assert(v@[a] == old_v[oa]);
                    assert(v@[b] == old_v[ob]);
                }
            }
        }
        c = c + 1;
    }
    v
}

/// The extra travel of visiting `v` between `u` and the final return to the depot.
pub open spec fn insertion_delta(pb: &Problem, u: int, v: int) -> int {
    pb.arc(u, v) + pb.arc(v, 0) - pb.arc(u, 0)
}

/// Among `ns[0..k]`, the first node of least extra travel whose insertion before
/// the return to the depot keeps a route of length `cost` within the budget,
/// with that extra travel; `(None, i64::MAX)` when none fits.
pub open spec fn best_append(pb: &Problem, cost: int, u: int, ns: Seq<usize>, k: int) -> (
    Option<usize>,
    int,
)
    decreases k,
{
    if k <= 0 {
        (None, i64::MAX as int)
    } else {
        let prev = best_append(pb, cost, u, ns, k - 1);
        let add = insertion_delta(pb, u, ns[k - 1] as int);
        if cost + add <= pb.t_max && add < prev.1 {
            (Some(ns[k - 1]), add)
        } else {
            prev
        }
    }
}

/// The greedy route after considering the clusters `order[0..k]` in turn: each is
/// inserted just before the return to the depot, at its best fitting member, when
/// one fits. Gives (nodes, clusters, profit, cost).
pub open spec fn greedy_route(pb: &Problem, order: Seq<usize>, k: int) -> (
    Seq<usize>,
    Seq<usize>,
    int,
    int,
)
    decreases k,
{
    if k <= 0 {
        (seq![0usize, 0usize], seq![0usize, 0usize], 0, 0)
    } else {
        let st = greedy_route(pb, order, k - 1);
        let u = st.0[st.0.len() - 2];
        let cg = order[k - 1];
        let b = best_append(pb, st.3, u as int, pb.members(cg as int), pb.members(cg as int).len() as int);
        match b.0 {
            Some(v) => (
                st.0.insert(st.0.len() - 1, v),
                st.1.insert(st.1.len() - 1, cg),
                st.2 + pb.profit(cg as int),
                st.3 + b.1,
            ),
            None => st,
        }
    }
}

proof fn lemma_best_append(pb: &Problem, cost: int, u: int, ns: Seq<usize>, k: int)
    requires
        0 <= k <= ns.len(),
    ensures
        best_append(pb, cost, u, ns, k).0 is None ==> best_append(pb, cost, u, ns, k).1 == i64::MAX,
        best_append(pb, cost, u, ns, k).0 matches Some(v) ==> {
            &&& ns.contains(v)
            &&& best_append(pb, cost, u, ns, k).1 == insertion_delta(pb, u, v as int)
            &&& cost + best_append(pb, cost, u, ns, k).1 <= pb.t_max
        },
    decreases k,
{
    if k > 0 {
        lemma_best_append(pb, cost, u, ns, k - 1);
        let prev = best_append(pb, cost, u, ns, k - 1);
        if let Some(v) = prev.0 {
            let t = choose|t: int| 0 <= t < ns.len() && ns[t] == v;
            assert(ns[t] == v);
        }
        assert(ns[k - 1] == ns[k - 1]);
    }
}

/// Inserting `v` before the final return to the depot adds its insertion delta
/// to the length of the route.
pub proof fn lemma_append_cost(pb: &Problem, nodes: Seq<usize>, v: usize)
    requires
        nodes.len() >= 2,
        nodes.last() == 0,
    ensures
        pb.route_cost(nodes.insert(nodes.len() - 1, v)) == pb.route_cost(nodes) + insertion_delta(
            pb,
            nodes[nodes.len() - 2] as int,
            v as int,
        ),
{
    let m = nodes.insert(nodes.len() - 1, v);
    let p = nodes.drop_last();
    assert(m.drop_last() =~= p.push(v));
    assert(p.push(v).drop_last() =~= p);
    assert(m.last() == 0);
    assert(m[m.len() - 2] == v);
    assert(p.last() == nodes[nodes.len() - 2]);
    assert(pb.route_cost(m) == pb.route_cost(p.push(v)) + pb.arc(v as int, 0));
    assert(pb.route_cost(p.push(v)) == pb.route_cost(p) + pb.arc(p.last() as int, v as int));
    assert(pb.route_cost(nodes) == pb.route_cost(p) + pb.arc(p.last() as int, 0));
}

/// The greedy route of the clusters `order` (each considered once, in order).
fn greedy_fill(pb: &Problem, order: &Vec<usize>) -> (sol: Solution)
    requires
        pb.wf(),
        order@.len() + 1 <= pb.num_clusters,
        forall|k: int| 0 <= k < order@.len() ==> 1 <= #[trigger] order@[k] < pb.num_clusters,
        forall|a: int, b: int| 0 <= a < b < order@.len() ==> #[trigger] order@[a] != #[trigger] order@[b],
    ensures
        sol.tour_nodes@ == greedy_route(pb, order@, order@.len() as int).0,
        sol.tour_clusters@ == greedy_route(pb, order@, order@.len() as int).1,
        sol.total_profit == greedy_route(pb, order@, order@.len() as int).2,
        sol.total_cost == greedy_route(pb, order@, order@.len() as int).3,
        sol.total_cost == pb.route_cost(sol.tour_nodes@),
        sol.total_cost <= pb.t_max,
        2 <= sol.tour_nodes@.len() <= order@.len() + 2,
        sol.tour_clusters@.len() == sol.tour_nodes@.len(),
        sol.tour_nodes@[0] == 0 && sol.tour_nodes@.last() == 0,
        sol.tour_clusters@[0] == 0 && sol.tour_clusters@.last() == 0,
        pb.nodes_in_range(sol.tour_nodes@),
        pb.clusters_in_range(sol.tour_clusters@),
        inner_distinct(sol.tour_clusters@),
        forall|k: int|
            1 <= k < sol.tour_nodes@.len() - 1 ==> pb.members(sol.tour_clusters@[k] as int).contains(
                #[trigger] sol.tour_nodes@[k],
            ),
        forall|k: int| 1 <= k < sol.tour_clusters@.len() - 1 ==> order@.contains(#[trigger] sol.tour_clusters@[k]),
{
    let mut sol = Solution::new();
    proof {
        let z = seq![0usize, 0usize];
        assert(z.drop_last() =~= seq![0usize]);
        assert(pb.arc(0, 0) == 0);
        assert(pb.route_cost(seq![0usize]) == 0);
        assert(z[z.len() - 2] == 0 && z.last() == 0);
        assert(pb.route_cost(z) == pb.route_cost(z.drop_last()) + pb.arc(0, 0));
    }
    let mut k: usize = 0;
    while k < order.len()
        invariant
            pb.wf(),
            order@.len() + 1 <= pb.num_clusters,
            forall|j: int| 0 <= j < order@.len() ==> 1 <= #[trigger] order@[j] < pb.num_clusters,
            forall|a: int, b: int|
                0 <= a < b < order@.len() ==> #[trigger] order@[a] != #[trigger] order@[b],
            k <= order@.len(),
            sol.tour_nodes@ == greedy_route(pb, order@, k as int).0,
            sol.tour_clusters@ == greedy_route(pb, order@, k as int).1,
            sol.total_profit == greedy_route(pb, order@, k as int).2,
            sol.total_cost == greedy_route(pb, order@, k as int).3,
            sol.total_cost == pb.route_cost(sol.tour_nodes@),
            sol.total_cost <= pb.t_max,
            2 <= sol.tour_nodes@.len() <= k + 2,
            sol.tour_clusters@.len() == sol.tour_nodes@.len(),
            sol.total_profit <= (sol.tour_nodes@.len() - 2) * MAX_PROFIT,
            sol.tour_nodes@[0] == 0 && sol.tour_nodes@.last() == 0,
            sol.tour_clusters@[0] == 0 && sol.tour_clusters@.last() == 0,
            pb.nodes_in_range(sol.tour_nodes@),
            pb.clusters_in_range(sol.tour_clusters@),
            inner_distinct(sol.tour_clusters@),
            forall|j: int|
                1 <= j < sol.tour_nodes@.len() - 1 ==> pb.members(sol.tour_clusters@[j] as int).contains(
                    #[trigger] sol.tour_nodes@[j],
                ),
            forall|j: int|
                1 <= j < sol.tour_clusters@.len() - 1 ==> exists|t: int|
                    0 <= t < k && order@[t] == #[trigger] sol.tour_clusters@[j],
        decreases order@.len() - k,
    {
        let cg = order[k];
        let len = sol.tour_nodes.len();
        let u = sol.tour_nodes[len - 2];
        let members = &pb.nodes_of_cluster[cg];
        let mut best_v: Option<usize> = None;
        let mut min_cost_add: i64 = i64::MAX;
        let mut t: usize = 0;
        proof {
            lemma_route_cost_bound(pb, sol.tour_nodes@);
        }
        while t < members.len()
            invariant
                pb.wf(),
                cg < pb.num_clusters,
                members@ == pb.members(cg as int),
                u < pb.num_nodes,
                t <= members@.len(),
                sol.total_cost <= pb.t_max,
                (best_v, min_cost_add as int) == best_append(
                    pb,
                    sol.total_cost as int,
                    u as int,
                    members@,
                    t as int,
                ),
            decreases members@.len() - t,
        {
            let v = members[t];
            assert(v == pb.members(cg as int)[t as int]);
            let duv = pb.get_dist(u, v);
            let dv0 = pb.get_dist(v, 0);
            let du0 = pb.get_dist(u, 0);
            let cost_add: i64 = duv as i64 + dv0 as i64 - du0 as i64;
            if (sol.total_cost as i128) + (cost_add as i128) <= (pb.t_max as i128) {
                if cost_add < min_cost_add {
                    min_cost_add = cost_add;
                    best_v = Some(v);
                }
            }
            t = t + 1;
        }
        proof {
            lemma_best_append(pb, sol.total_cost as int, u as int, members@, members@.len() as int);
        }
        if let Some(v) = best_v {
            let ghost old_sol = sol;
            proof {
                let c = cg as int;
                let t0 = choose|t0: int| 0 <= t0 < pb.members(c).len() && pb.members(c)[t0] == v;
                assert(pb.nodes_of_cluster@[c]@[t0] < pb.num_nodes);
                lemma_append_cost(pb, sol.tour_nodes@, v);
                crate::models::lemma_route_cost_bound(pb, sol.tour_nodes@.insert(len - 1, v));
                assert(pb.nodes_in_range(sol.tour_nodes@.insert(len - 1, v))) by {
                    assert forall|j: int| 0 <= j < len + 1 implies #[trigger] sol.tour_nodes@.insert(
                        len - 1,
                        v,
                    )[j] < pb.num_nodes by {
                        if j < len - 1 {
                            assert(sol.tour_nodes@.insert(len - 1, v)[j] == sol.tour_nodes@[j]);
                        } else if j > len - 1 {
                            assert(sol.tour_nodes@.insert(len - 1, v)[j] == sol.tour_nodes@[j - 1]);
                        }
                    }
                }
            }
            sol.tour_nodes.insert(len - 1, v);
            sol.tour_clusters.insert(len - 1, cg);
            sol.total_cost = (sol.total_cost as i64 + min_cost_add) as u64;
            sol.total_profit = sol.total_profit + pb.profits[cg];
            proof {
                let nn = sol.tour_nodes@;
                let nc = sol.tour_clusters@;
                assert forall|j: int| 0 <= j < nc.len() implies #[trigger] nc[j] < pb.num_clusters by {
                    if j < len - 1 {
                        assert(nc[j] == old_sol.tour_clusters@[j]);
                    } else if j > len - 1 {
                        assert(nc[j] == old_sol.tour_clusters@[j - 1]);
                    }
                }
                assert forall|j: int|
                    1 <= j < nn.len() - 1 implies pb.members(nc[j] as int).contains(#[trigger] nn[j]) by {
                    if j < len - 1 {
                        assert(nc[j] == old_sol.tour_clusters@[j]);
                        assert(nn[j] == old_sol.tour_nodes@[j]);
                    }
                }
                assert forall|j: int|
                    1 <= j < nc.len() - 1 implies exists|t: int|
                        0 <= t < k + 1 && order@[t] == #[trigger] nc[j] by {
                    if j < len - 1 {
                        assert(nc[j] == old_sol.tour_clusters@[j]);
                        let t = choose|t: int| 0 <= t < k && order@[t] == old_sol.tour_clusters@[j];
                        assert(order@[t] == nc[j]);
                    } else {
                        assert(order@[k as int] == nc[j]);
                    }
                }
                assert forall|j: int| 1 <= j < nc.len() - 1 implies #[trigger] nc[j] != 0 by {
                    if j < len - 1 {
                        assert(nc[j] == old_sol.tour_clusters@[j]);
                    }
                }
                assert forall|j1: int, j2: int|
                    1 <= j1 < j2 < nc.len() - 1 implies #[trigger] nc[j1] != #[trigger] nc[j2] by {
                    if j2 < len - 1 {
                        assert(nc[j1] == old_sol.tour_clusters@[j1]);
                        assert(nc[j2] == old_sol.tour_clusters@[j2]);
                    } else {
                        assert(nc[j1] == old_sol.tour_clusters@[j1]);
                        let t = choose|t: int| 0 <= t < k && order@[t] == old_sol.tour_clusters@[j1];
                        assert(order@[t] != order@[k as int]);
                    }
                }
                assert(nc.last() == 0);
                assert(nn.last() == 0);
                assert(nn[0] == 0);
                assert(nc[0] == 0);
            }
        }
        k = k + 1;
    }
    sol
}

/// Builds a first route: the clusters by non-increasing profit are appended one
/// by one before the return to the depot at their cheapest member that keeps the
/// route within the budget (skipped when none does), then the route is improved
/// by `tour_improvement`.
pub fn phase1_construction(pb: &Problem) -> (sol: Solution)
    requires
        pb.wf(),
    ensures
        exists|order: Seq<usize>|
            #![trigger profit_sorted(pb, order)]
            profit_sorted(pb, order) && (sol.tour_nodes@, sol.tour_clusters@) == improve_fix(
                pb,
                greedy_route(pb, order, order.len() as int).0,
                greedy_route(pb, order, order.len() as int).1,
                greedy_route(pb, order, order.len() as int).3,
            ) && sol.tour_clusters@.to_multiset() == greedy_route(
                pb,
                order,
                order.len() as int,
            ).1.to_multiset() && (pb.members(0).contains(0usize) ==> pb.route_cost(sol.tour_nodes@)
                <= greedy_route(pb, order, order.len() as int).3),
        sol.total_cost == pb.route_cost(sol.tour_nodes@),
        sol.total_profit == pb.clusters_profit(sol.tour_clusters@.drop_last()),
        two_opt_optimal(pb, sol.tour_nodes@),
        pb.partitioned() ==> feasible(pb, &sol),
{
    let order = clusters_by_profit(pb);
    proof {
        assert forall|a: int, b: int| 0 <= a < b < order@.len() implies #[trigger] order@[a]
            != #[trigger] order@[b] by {
            assert(pb.profit(order@[a] as int) > pb.profit(order@[b] as int) || order@[a] < order@[b]);
        }
    }
    let mut sol = greedy_fill(pb, &order);
    let ghost g = sol;
    proof {
        assert(sol.tour_nodes@.len() <= MAX_TOUR);
        if pb.members(0).contains(0usize) {
            lemma_assignment_stops(pb, sol.tour_clusters@, sol.tour_nodes@);
            assert forall|k: int| 0 <= k < sol.tour_nodes@.len() implies pb.members(
                sol.tour_clusters@[k] as int,
            ).contains(#[trigger] sol.tour_nodes@[k]) by {
                if k == 0 || k == sol.tour_nodes@.len() - 1 {
                    assert(sol.tour_nodes@[k] == 0);
                    assert(sol.tour_clusters@[k] == 0);
                }
            }
        }
        if pb.partitioned() {
            lemma_assignment_stops(pb, sol.tour_clusters@, sol.tour_nodes@);
            assert forall|k: int| 0 <= k < sol.tour_nodes@.len() implies pb.members(
                sol.tour_clusters@[k] as int,
            ).contains(#[trigger] sol.tour_nodes@[k]) by {
                if k == 0 || k == sol.tour_nodes@.len() - 1 {
                    assert(sol.tour_nodes@[k] == 0);
                    assert(sol.tour_clusters@[k] == 0);
                }
            }
        }
    }
    let ghost before_len = sol.tour_nodes@.len();
    tour_improvement(pb, &mut sol);
    proof {
        assert(profit_sorted(pb, order@));
        assert forall|j: int| 0 <= j < order@.len() implies #[trigger] order@[j] != 0 by {}
        lemma_greedy_profit(pb, order@, order@.len() as int);
        if before_len <= 2 {
            assert(g.tour_clusters@.drop_last() =~= seq![0usize]);
            assert(pb.clusters_profit(seq![0usize].drop_last()) == 0);
            assert(seq![0usize].drop_last() =~= Seq::<usize>::empty());
            assert(g.total_profit == greedy_route(pb, order@, order@.len() as int).2);
            lemma_greedy_profit(pb, order@, order@.len() as int);
            assert(pb.clusters_profit(seq![0usize]) == 0) by {
                assert(seq![0usize].drop_last() =~= Seq::<usize>::empty());
            }
        }
        if pb.partitioned() {
            lemma_assignment_stops(pb, sol.tour_clusters@, sol.tour_nodes@);
            assert forall|k: int| 0 <= k < sol.tour_nodes@.len() implies #[trigger] sol.tour_nodes@[k]
                < pb.num_nodes && sol.tour_clusters@[k] < pb.num_clusters
                && pb.cluster_of_node@[sol.tour_nodes@[k] as int] == sol.tour_clusters@[k] by {
                let c = sol.tour_clusters@[k] as int;
                assert(pb.members(c).contains(sol.tour_nodes@[k]));
                let t = choose|t: int| 0 <= t < pb.members(c).len() && pb.members(c)[t] == sol.tour_nodes@[k];
                assert(pb.cluster_of_node@[pb.members(c)[t] as int] == c);
            }
        }
    }
    sol
}

/// A member of least extra travel among those of `ns[0..k]` that keep a route
/// of length `cost` within the budget: `best_append` finds one exactly when
/// one fits, and none that fits has less extra travel.
proof fn lemma_best_append_least(pb: &Problem, cost: int, u: int, ns: Seq<usize>, k: int)
    requires
        pb.wf(),
        0 <= u < pb.num_nodes,
        pb.nodes_in_range(ns),
        0 <= k <= ns.len(),
    ensures
        best_append(pb, cost, u, ns, k).0 is Some <==> exists|q: int|
            0 <= q < k && cost + insertion_delta(pb, u, #[trigger] ns[q] as int) <= pb.t_max,
        forall|q: int|
            0 <= q < k && cost + insertion_delta(pb, u, #[trigger] ns[q] as int) <= pb.t_max
                ==> best_append(pb, cost, u, ns, k).1 <= insertion_delta(pb, u, ns[q] as int),
    decreases k,
{
    if k > 0 {
        lemma_best_append_least(pb, cost, u, ns, k - 1);
        lemma_best_append(pb, cost, u, ns, k - 1);
        let v = ns[k - 1] as int;
        crate::models::lemma_index_bound(u, v, pb.num_nodes as int);
        crate::models::lemma_index_bound(v, 0, pb.num_nodes as int);
        assert(insertion_delta(pb, u, v) < i64::MAX);
        let prev = best_append(pb, cost, u, ns, k - 1);
        if cost + insertion_delta(pb, u, v) <= pb.t_max {
            assert(best_append(pb, cost, u, ns, k).0 is Some);
        }
    }
}

/// The greedy route after `order[0..k]` runs from the depot back to the depot
/// through nodes of the instance, one cluster per node.
proof fn lemma_greedy_shape(pb: &Problem, order: Seq<usize>, k: int)
    requires
        pb.wf(),
        0 <= k <= order.len(),
        forall|j: int| 0 <= j < order.len() ==> 1 <= #[trigger] order[j] < pb.num_clusters,
    ensures
        greedy_route(pb, order, k).0.len() >= 2,
        greedy_route(pb, order, k).0.len() == greedy_route(pb, order, k).1.len(),
        greedy_route(pb, order, k).0.last() == 0,
        greedy_route(pb, order, k).1.last() == 0,
        greedy_route(pb, order, k).1[0] == 0,
        pb.nodes_in_range(greedy_route(pb, order, k).0),
        forall|i: int|
            1 <= i < greedy_route(pb, order, k).1.len() - 1 ==> exists|j: int|
                0 <= j < k && order[j] == #[trigger] greedy_route(pb, order, k).1[i],
    decreases k,
{
    if k > 0 {
        lemma_greedy_shape(pb, order, k - 1);
        let st = greedy_route(pb, order, k - 1);
        let u = st.0[st.0.len() - 2];
        let cg = order[k - 1];
        let ns = pb.members(cg as int);
        assert(pb.nodes_in_range(ns)) by {
            assert forall|q: int| 0 <= q < ns.len() implies #[trigger] ns[q] < pb.num_nodes by {
                assert(pb.nodes_of_cluster@[cg as int]@[q] < pb.num_nodes);
            }
        }
        lemma_best_append(pb, st.3, u as int, ns, ns.len() as int);
        let b = best_append(pb, st.3, u as int, ns, ns.len() as int);
        if let Some(v) = b.0 {
            let nn = st.0.insert(st.0.len() - 1, v);
            let nc = st.1.insert(st.1.len() - 1, cg);
            let l = st.0.len();
            assert forall|i: int| 0 <= i < nn.len() implies #[trigger] nn[i] < pb.num_nodes by {
                if i < l - 1 {
                    assert(nn[i] == st.0[i]);
                } else if i > l - 1 {
                    assert(nn[i] == st.0[i - 1]);
                }
            }
            assert forall|i: int| 1 <= i < nc.len() - 1 implies exists|j: int|
                0 <= j < k && order[j] == #[trigger] nc[i] by {
                if i < l - 1 {
                    assert(nc[i] == st.1[i]);
                    let j0 = choose|j: int| 0 <= j < k - 1 && order[j] == st.1[i];
                    assert(order[j0] == nc[i]);
                } else {
                    assert(nc[i] == cg);
                    assert(order[k - 1] == nc[i]);
                }
            }
            assert(nc[0] == st.1[0]);
        } else {
            assert forall|i: int| 1 <= i < st.1.len() - 1 implies exists|j: int|
                0 <= j < k && order[j] == #[trigger] st.1[i] by {
                let j0 = choose|j: int| 0 <= j < k - 1 && order[j] == st.1[i];
                assert(order[j0] == st.1[i]);
            }
        }
    }
}

/// The turn of cluster `order[k]` in the greedy route: with the route built
/// from `order[0..k]` (last node before the depot `u`, length `cost`), the
/// cluster is appended before the return to the depot exactly when one of its
/// members fits within the budget, and then at a fitting member of least extra
/// travel, the length growing by that extra travel; otherwise the route stays
/// as it is.
pub proof fn lemma_greedy_turn(pb: &Problem, order: Seq<usize>, k: int)
    requires
        pb.wf(),
        0 <= k < order.len(),
        forall|j: int| 0 <= j < order.len() ==> 1 <= #[trigger] order[j] < pb.num_clusters,
    ensures
        ({
            let st = greedy_route(pb, order, k);
            let nx = greedy_route(pb, order, k + 1);
            let u = st.0[st.0.len() - 2] as int;
            let ns = pb.members(order[k] as int);
            let fits = exists|q: int|
                0 <= q < ns.len() && st.3 + insertion_delta(pb, u, #[trigger] ns[q] as int) <= pb.t_max;
            &&& fits ==> exists|v: usize| {
                &&& ns.contains(v)
                &&& nx.0 == st.0.insert(st.0.len() - 1, v)
                &&& nx.1 == st.1.insert(st.1.len() - 1, order[k])
                &&& nx.3 == st.3 + insertion_delta(pb, u, v as int)
                &&& nx.3 <= pb.t_max
                &&& forall|q: int|
                    0 <= q < ns.len() && st.3 + insertion_delta(pb, u, #[trigger] ns[q] as int)
                        <= pb.t_max ==> insertion_delta(pb, u, v as int) <= insertion_delta(
                        pb,
                        u,
                        ns[q] as int,
                    )
            }
            &&& !fits ==> nx == st
        }),
{
    lemma_greedy_shape(pb, order, k);
    let st = greedy_route(pb, order, k);
    let u = st.0[st.0.len() - 2];
    let cg = order[k];
    let ns = pb.members(cg as int);
    assert(pb.nodes_in_range(ns)) by {
        assert forall|q: int| 0 <= q < ns.len() implies #[trigger] ns[q] < pb.num_nodes by {
            assert(pb.nodes_of_cluster@[cg as int]@[q] < pb.num_nodes);
        }
    }
    lemma_best_append(pb, st.3, u as int, ns, ns.len() as int);
    lemma_best_append_least(pb, st.3, u as int, ns, ns.len() as int);
    let b = best_append(pb, st.3, u as int, ns, ns.len() as int);
    assert(greedy_route(pb, order, k + 1) == match b.0 {
        Some(v) => (
            st.0.insert(st.0.len() - 1, v),
            st.1.insert(st.1.len() - 1, cg),
            st.2 + pb.profit(cg as int),
            st.3 + b.1,
        ),
        None => st,
    });
}

/// The greedy route is maximal: a cluster of `order` is on the finished route
/// exactly when one of its members fits within the budget at its turn (on the
/// route built from the clusters before it); every cluster is tried, not only
/// those before the first that does not fit.
pub proof fn lemma_greedy_maximal(pb: &Problem, order: Seq<usize>, j: int)
    requires
        pb.wf(),
        0 <= j < order.len(),
        forall|i: int| 0 <= i < order.len() ==> 1 <= #[trigger] order[i] < pb.num_clusters,
        forall|a: int, b: int| 0 <= a < b < order.len() ==> #[trigger] order[a] != #[trigger] order[b],
    ensures
        ({
            let st = greedy_route(pb, order, j);
            let u = st.0[st.0.len() - 2] as int;
            let ns = pb.members(order[j] as int);
            greedy_route(pb, order, order.len() as int).1.contains(order[j]) <==> exists|q: int|
                0 <= q < ns.len() && st.3 + insertion_delta(pb, u, #[trigger] ns[q] as int) <= pb.t_max
        }),
{
    lemma_greedy_stays(pb, order, j, order.len() as int);
}

/// Whether `order[j]` is on the greedy route is settled at its turn: on the
/// route after `order[0..m]`, for `j < m`, it is there exactly when one of its
/// members fitted at its turn.
proof fn lemma_greedy_stays(pb: &Problem, order: Seq<usize>, j: int, m: int)
    requires
        pb.wf(),
        0 <= j < m <= order.len(),
        forall|i: int| 0 <= i < order.len() ==> 1 <= #[trigger] order[i] < pb.num_clusters,
        forall|a: int, b: int| 0 <= a < b < order.len() ==> #[trigger] order[a] != #[trigger] order[b],
    ensures
        ({
            let st = greedy_route(pb, order, j);
            let u = st.0[st.0.len() - 2] as int;
            let ns = pb.members(order[j] as int);
            greedy_route(pb, order, m).1.contains(order[j]) <==> exists|q: int|
                0 <= q < ns.len() && st.3 + insertion_delta(pb, u, #[trigger] ns[q] as int) <= pb.t_max
        }),
    decreases m,
{
    let x = order[j];
    if m == j + 1 {
        lemma_greedy_turn(pb, order, j);
        lemma_greedy_shape(pb, order, j);
        let st = greedy_route(pb, order, j);
        let nx = greedy_route(pb, order, j + 1);
        assert(!st.1.contains(x)) by {
            if st.1.contains(x) {
                let i = choose|i: int| 0 <= i < st.1.len() && st.1[i] == x;
                if 1 <= i < st.1.len() - 1 {
                    let j0 = choose|j0: int| 0 <= j0 < j && order[j0] == #[trigger] st.1[i];
                    assert(order[j0] != order[j]);
                }
            }
        }
        let u = st.0[st.0.len() - 2] as int;
        let ns = pb.members(x as int);
        if exists|q: int|
            0 <= q < ns.len() && st.3 + insertion_delta(pb, u, #[trigger] ns[q] as int) <= pb.t_max {
            assert(nx.1[st.1.len() - 1] == x);
            assert(nx.1.contains(x));
        }
    } else {
        lemma_greedy_stays(pb, order, j, m - 1);
        lemma_greedy_turn(pb, order, m - 1);
        lemma_greedy_shape(pb, order, m - 1);
        let st = greedy_route(pb, order, m - 1);
        let nx = greedy_route(pb, order, m);
        let y = order[m - 1];
        assert(y != x);
        let l = st.1.len();
        if nx != st {
            assert(nx.1 == st.1.insert(l - 1, y));
            if st.1.contains(x) {
                let i = choose|i: int| 0 <= i < l && st.1[i] == x;
                if i < l - 1 {
                    assert(nx.1[i] == x);
                } else {
                    assert(nx.1[i + 1] == x);
                }
            }
            if nx.1.contains(x) {
                let i = choose|i: int| 0 <= i < nx.1.len() && nx.1[i] == x;
                if i < l - 1 {
                    assert(st.1[i] == x);
                } else if i > l - 1 {
                    assert(st.1[i - 1] == x);
                }
            }
        }
    }
}

/// The profit bookkept by the greedy route is that of its clusters.
proof fn lemma_greedy_profit(pb: &Problem, order: Seq<usize>, k: int)
    requires
        0 <= k <= order.len(),
        forall|j: int| 0 <= j < order.len() ==> #[trigger] order[j] != 0,
    ensures
        greedy_route(pb, order, k).2 == pb.clusters_profit(greedy_route(pb, order, k).1.drop_last()),
        greedy_route(pb, order, k).1.len() >= 2,
        greedy_route(pb, order, k).0.len() == greedy_route(pb, order, k).1.len(),
        greedy_route(pb, order, k).1.last() == 0,
    decreases k,
{
    if k <= 0 {
        let z = seq![0usize, 0usize];
        assert(z.drop_last() =~= seq![0usize]);
        let o = seq![0usize];
        assert(o.drop_last() =~= Seq::<usize>::empty());
        assert(o.last() == 0);
        assert(pb.clusters_profit(o) == pb.clusters_profit(o.drop_last()));
    } else {
        lemma_greedy_profit(pb, order, k - 1);
        let st = greedy_route(pb, order, k - 1);
        let u = st.0[st.0.len() - 2];
        let cg = order[k - 1];
        let b = best_append(pb, st.3, u as int, pb.members(cg as int), pb.members(cg as int).len() as int);
        if let Some(v) = b.0 {
            let cl = st.1;
            let ncl = cl.insert(cl.len() - 1, cg);
            assert(ncl.drop_last() =~= cl.drop_last().push(cg));
            assert(cl.drop_last().push(cg).drop_last() =~= cl.drop_last());
            assert(ncl.last() == 0);
            assert(order[k - 1] != 0);
            assert(pb.clusters_profit(cl.drop_last().push(cg)) == pb.clusters_profit(cl.drop_last())
                + pb.profit(cg as int));
        }
    }
}

} // verus!
