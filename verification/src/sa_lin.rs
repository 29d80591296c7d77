//! The six neighbourhood moves of the linear-cooling annealing (insert, replace,
//! drop, swap, inversion, node change), drawn at random with their exact effect
//! on the length and the profit of the route.
use crate::models::{lemma_index_bound, Problem, Solution, MAX_TOUR};
use crate::phase1::{lemma_reversal_cost, reverse_segment, reversed_segment};
use crate::rng::{epoch_step, EpochRng};
use crate::route_lemmas::{
    lemma_adjacent_swap_cost, lemma_insert_cost, lemma_insert_profit, lemma_remove_cost,
    lemma_remove_profit, lemma_reversal_profit, lemma_update_cost, lemma_update_profit,
};
use crate::annealing::{penalised, RunStats};
use crate::tabu::{accurate, route_of, Route};
use vstd::prelude::*;

verus! {

/// A change of a route.
pub enum LinMove {
    /// Visit `node` of `cluster` at stop `pos`.
    Insert { pos: usize, node: usize, cluster: usize },
    /// Visit `node` of `cluster` at stop `pos` in place of what was there.
    Replace { pos: usize, node: usize, cluster: usize },
    /// Leave out stop `pos`.
    Drop { pos: usize },
    /// Exchange stops `i` and `j`.
    Swap { i: usize, j: usize },
    /// Reverse the stops `i..=j`.
    Inversion { i: usize, j: usize },
    /// Visit `node` at stop `pos`, in the same cluster.
    NodeChange { pos: usize, node: usize },
}

/// The route after the move.
pub open spec fn applied(r: Route, mv: LinMove) -> Route {
    match mv {
        LinMove::Insert { pos, node, cluster } => (
            r.0.insert(pos as int, node),
            r.1.insert(pos as int, cluster),
        ),
        LinMove::Replace { pos, node, cluster } => (
            r.0.update(pos as int, node),
            r.1.update(pos as int, cluster),
        ),
        LinMove::Drop { pos } => (r.0.remove(pos as int), r.1.remove(pos as int)),
        LinMove::Swap { i, j } => (
            r.0.update(i as int, r.0[j as int]).update(j as int, r.0[i as int]),
            r.1.update(i as int, r.1[j as int]).update(j as int, r.1[i as int]),
        ),
        LinMove::Inversion { i, j } => (
            reversed_segment(r.0, i as int, j as int),
            reversed_segment(r.1, i as int, j as int),
        ),
        LinMove::NodeChange { pos, node } => (r.0.update(pos as int, node), r.1),
    }
}

/// A draw `s` reduced below `m`, as the code does it (`s as usize % m`).
pub open spec fn below(s: u64, m: int) -> int {
    ((s as usize) % (m as usize)) as int
}

/// The first position at or after `k` where `ns` holds `x`, or 0 when there is none.
pub open spec fn first_index_from(ns: Seq<usize>, x: usize, k: int) -> int
    decreases ns.len() - k,
{
    if k < 0 || k >= ns.len() {
        0
    } else if ns[k] == x {
        k
    } else {
        first_index_from(ns, x, k + 1)
    }
}

/// The move drawn for route `r` with the generator at `state`, and the state
/// after the draws. A first draw `mt` in `0..100` picks the kind: insert below 20
/// (when there is a non-depot cluster), else replace below 40 (when there is an
/// inner stop), else drop below 50, else swap below 65 (with two inner stops),
/// else inversion below 85 (with three), else node change (with an inner stop).
/// Inserted and replacing clusters must not be on the route and must have
/// members; a swap of a stop with itself and a node change in a cluster of a
/// single member make no move.
pub open spec fn lin_proposal(pb: &Problem, r: Route, state: u64) -> (Option<LinMove>, u64) {
    let n = r.0.len() as int;
    let nc = pb.num_clusters as int;
    let s1 = epoch_step(state);
    let mt = s1 % 100;
    if mt < 20 && nc > 1 {
        insert_draw(pb, r, s1)
    } else if mt < 40 && n > 2 && nc > 1 {
        replace_draw(pb, r, s1)
    } else if mt < 50 && n > 3 {
        drop_draw(r, s1)
    } else if mt < 65 && n > 3 {
        swap_draw(r, s1)
    } else if mt < 85 && n > 4 {
        inversion_draw(r, s1)
    } else if n > 2 {
        node_change_draw(pb, r, s1)
    } else {
        (None, s1)
    }
}

/// The insert draw: a cluster, then (when it is not on the route and has
/// members) a position and a member.
pub open spec fn insert_draw(pb: &Problem, r: Route, s1: u64) -> (Option<LinMove>, u64) {
    let n = r.0.len() as int;
    let nc = pb.num_clusters as int;
    let s2 = epoch_step(s1);
    let c = (below(s2, nc - 1) + 1) as usize;
    let ns = pb.members(c as int);
    if !r.1.contains(c) && ns.len() > 0 {
        let s3 = epoch_step(s2);
        let pos = below(s3, n - 1) + 1;
        let s4 = epoch_step(s3);
        let v = ns[below(s4, ns.len() as int)];
        (Some(LinMove::Insert { pos: pos as usize, node: v, cluster: c }), s4)
    } else {
        (None, s2)
    }
}

/// The replace draw: an inner position and a cluster, then (when the cluster is
/// not on the route and has members) a member.
pub open spec fn replace_draw(pb: &Problem, r: Route, s1: u64) -> (Option<LinMove>, u64) {
    let n = r.0.len() as int;
    let nc = pb.num_clusters as int;
    let s2 = epoch_step(s1);
    let pos = below(s2, n - 2) + 1;
    let s3 = epoch_step(s2);
    let c = (below(s3, nc - 1) + 1) as usize;
    let ns = pb.members(c as int);
    if !r.1.contains(c) && ns.len() > 0 {
        let s4 = epoch_step(s3);
        let v = ns[below(s4, ns.len() as int)];
        (Some(LinMove::Replace { pos: pos as usize, node: v, cluster: c }), s4)
    } else {
        (None, s3)
    }
}

/// The drop draw: an inner position.
pub open spec fn drop_draw(r: Route, s1: u64) -> (Option<LinMove>, u64) {
    let n = r.0.len() as int;
    let s2 = epoch_step(s1);
    let pos = below(s2, n - 2) + 1;
    (Some(LinMove::Drop { pos: pos as usize }), s2)
}

/// The swap draw: two inner positions, in increasing order when they differ.
pub open spec fn swap_draw(r: Route, s1: u64) -> (Option<LinMove>, u64) {
    let n = r.0.len() as int;
    let s2 = epoch_step(s1);
    let i0 = below(s2, n - 2) + 1;
    let s3 = epoch_step(s2);
    let j0 = below(s3, n - 2) + 1;
    if i0 != j0 {
        let i = if i0 < j0 { i0 } else { j0 };
        let j = if i0 < j0 { j0 } else { i0 };
        (Some(LinMove::Swap { i: i as usize, j: j as usize }), s3)
    } else {
        (None, s3)
    }
}

/// The inversion draw: a start `i` among the inner stops but the last two, then
/// an end after it among the inner stops.
pub open spec fn inversion_draw(r: Route, s1: u64) -> (Option<LinMove>, u64) {
    let n = r.0.len() as int;
    let s2 = epoch_step(s1);
    let i = below(s2, n - 3) + 1;
    let s3 = epoch_step(s2);
    let j = i + 1 + below(s3, n - 2 - i);
    (Some(LinMove::Inversion { i: i as usize, j: j as usize }), s3)
}

/// The node change draw: an inner position, then (when its cluster has several
/// members) a member; drawing the current node draws an offset in
/// `1..members` from its first position instead.
pub open spec fn node_change_draw(pb: &Problem, r: Route, s1: u64) -> (Option<LinMove>, u64) {
    let n = r.0.len() as int;
    let s2 = epoch_step(s1);
    let pos = below(s2, n - 2) + 1;
    let ns = pb.members(r.1[pos] as int);
    if ns.len() > 1 {
        let old_v = r.0[pos];
        let s3 = epoch_step(s2);
        let v0 = ns[below(s3, ns.len() as int)];
        if v0 == old_v {
            let s4 = epoch_step(s3);
            let k = below(s4, ns.len() - 1) + 1;
            let v = ns[(k + first_index_from(ns, old_v, 0)) % (ns.len() as int)];
            (Some(LinMove::NodeChange { pos: pos as usize, node: v }), s4)
        } else {
            (Some(LinMove::NodeChange { pos: pos as usize, node: v0 }), s3)
        }
    } else {
        (None, s2)
    }
}

/// A member of cluster `c` drawn with `gen_range_usize(0, len)`.
fn draw_member(pb: &Problem, c: usize, rng: &mut EpochRng) -> (v: usize)
    requires
        pb.wf(),
        c < pb.num_clusters,
        pb.members(c as int).len() > 0,
    ensures
        v == pb.members(c as int)[below(epoch_step(old(rng)@), pb.members(c as int).len() as int)],
        final(rng)@ == epoch_step(old(rng)@),
        v < pb.num_nodes,
{
    let ns = &pb.nodes_of_cluster[c];
    let idx = rng.gen_range_usize(0, ns.len());
    assert(pb.nodes_of_cluster@[c as int]@[idx as int] < pb.num_nodes);
    ns[idx]
}

/// The shape the routes of the annealing have: as many nodes as clusters, at
/// least two stops and room for one more, ids in range, no inner depot cluster.
pub open spec fn lin_shaped(pb: &Problem, sol: &Solution) -> bool {
    &&& sol.tour_nodes@.len() == sol.tour_clusters@.len()
    &&& 2 <= sol.tour_nodes@.len()
    &&& sol.tour_nodes@.len() + 1 <= MAX_TOUR
    &&& pb.nodes_in_range(sol.tour_nodes@)
    &&& pb.clusters_in_range(sol.tour_clusters@)
    &&& forall|k: int| 1 <= k < sol.tour_clusters@.len() - 1 ==> #[trigger] sol.tour_clusters@[k] != 0
}

/// The change of length and of profit that a move makes to a route.
pub open spec fn move_deltas(pb: &Problem, r: Route, mv: LinMove) -> (int, int) {
    let a = applied(r, mv);
    (
        pb.route_cost(a.0) - pb.route_cost(r.0),
        pb.clusters_profit(a.1.drop_last()) - pb.clusters_profit(r.1.drop_last()),
    )
}

/// Bookkeeping by deltas keeps the totals exact: a route whose totals are
/// exact, changed by a move and by that move's change of length and of profit,
/// has exact totals again.
pub proof fn lemma_move_keeps_totals(pb: &Problem, before: &Solution, after: &Solution, mv: LinMove)
    requires
        accurate(pb, before),
        route_of(after) == applied(route_of(before), mv),
        after.total_cost == before.total_cost + move_deltas(pb, route_of(before), mv).0,
        after.total_profit == before.total_profit + move_deltas(pb, route_of(before), mv).1,
    ensures
        accurate(pb, after),
{
}

/// The result a branch of the draw gives, with the exact changes of the move.
pub open spec fn draw_result(
    pb: &Problem,
    r: Route,
    p: (Option<LinMove>, u64),
    res: Option<(LinMove, i64, i64)>,
    final_state: u64,
) -> bool {
    &&& final_state == p.1
    &&& match p.0 {
        None => res is None,
        Some(mv) => res matches Some(x) && x.0 == mv && (x.1 as int, x.2 as int) == move_deltas(
            pb,
            r,
            mv,
        ),
    }
}

fn propose_insert(problem: &Problem, current: &Solution, rng: &mut EpochRng) -> (res: Option<
    (LinMove, i64, i64),
>)
    requires
        problem.wf(),
        lin_shaped(problem, current),
        problem.num_clusters > 1,
    ensures
        draw_result(
            problem,
            route_of(current),
            insert_draw(problem, route_of(current), old(rng)@),
            res,
            final(rng)@,
        ),
{
    let ghost r = route_of(current);
    let nodes = &current.tour_nodes;
    let cl = &current.tour_clusters;
    let n = nodes.len();
    let nc = problem.num_clusters;
    let c = (rng.next_u64() as usize % (nc - 1)) + 1;
    if !crate::annealing::contains_value(cl, c) && problem.nodes_of_cluster[c].len() > 0 {
        let pos = (rng.next_u64() as usize % (n - 1)) + 1;
        let v = draw_member(problem, c, rng);
        let prev = nodes[pos - 1];
        let next = nodes[pos];
        let dc: i64 = problem.get_dist(prev, v) as i64 + problem.get_dist(v, next) as i64
            - problem.get_dist(prev, next) as i64;
        let dp: i64 = problem.profits[c] as i64;
        proof {
            lemma_insert_cost(problem, r.0, pos as int, v);
            lemma_insert_profit(problem, r.1.drop_last(), pos as int, c);
            assert(r.1.insert(pos as int, c).drop_last() =~= r.1.drop_last().insert(pos as int, c));
        }
        return Some((LinMove::Insert { pos, node: v, cluster: c }, dc, dp));
    }
    None
}

fn propose_replace(problem: &Problem, current: &Solution, rng: &mut EpochRng) -> (res: Option<
    (LinMove, i64, i64),
>)
    requires
        problem.wf(),
        lin_shaped(problem, current),
        problem.num_clusters > 1,
        current.tour_nodes@.len() > 2,
    ensures
        draw_result(
            problem,
            route_of(current),
            replace_draw(problem, route_of(current), old(rng)@),
            res,
            final(rng)@,
        ),
{
    let ghost r = route_of(current);
    let nodes = &current.tour_nodes;
    let cl = &current.tour_clusters;
    let n = nodes.len();
    let nc = problem.num_clusters;
    let pos = (rng.next_u64() as usize % (n - 2)) + 1;
    let c = (rng.next_u64() as usize % (nc - 1)) + 1;
    if !crate::annealing::contains_value(cl, c) && problem.nodes_of_cluster[c].len() > 0 {
        let v = draw_member(problem, c, rng);
        let old_c = cl[pos];
        let old_v = nodes[pos];
        let prev = nodes[pos - 1];
        let next = nodes[pos + 1];
        let dc: i64 = (problem.get_dist(prev, v) as i64 + problem.get_dist(v, next) as i64) - (
        problem.get_dist(prev, old_v) as i64 + problem.get_dist(old_v, next) as i64);
        let dp: i64 = problem.profits[c] as i64 - problem.profits[old_c] as i64;
        proof {
            lemma_update_cost(problem, r.0, pos as int, v);
            lemma_update_profit(problem, r.1.drop_last(), pos as int, c);
            assert(r.1.update(pos as int, c).drop_last() =~= r.1.drop_last().update(pos as int, c));
            assert(r.1.drop_last()[pos as int] == old_c);
        }
        return Some((LinMove::Replace { pos, node: v, cluster: c }, dc, dp));
    }
    None
}

fn propose_drop(problem: &Problem, current: &Solution, rng: &mut EpochRng) -> (res: Option<
    (LinMove, i64, i64),
>)
    requires
        problem.wf(),
        lin_shaped(problem, current),
        current.tour_nodes@.len() > 3,
    ensures
        draw_result(problem, route_of(current), drop_draw(route_of(current), old(rng)@), res, final(rng)@),
{
    let ghost r = route_of(current);
    let nodes = &current.tour_nodes;
    let cl = &current.tour_clusters;
    let n = nodes.len();
    let pos = (rng.next_u64() as usize % (n - 2)) + 1;
    let old_c = cl[pos];
    let old_v = nodes[pos];
    let prev = nodes[pos - 1];
    let next = nodes[pos + 1];
    let dc: i64 = problem.get_dist(prev, next) as i64 - (problem.get_dist(prev, old_v) as i64
        + problem.get_dist(old_v, next) as i64);
    let dp: i64 = -(problem.profits[old_c] as i64);
    proof {
        lemma_remove_cost(problem, r.0, pos as int);
        lemma_remove_profit(problem, r.1.drop_last(), pos as int);
        assert(r.1.remove(pos as int).drop_last() =~= r.1.drop_last().remove(pos as int));
        assert(r.1.drop_last()[pos as int] == old_c);
    }
    Some((LinMove::Drop { pos }, dc, dp))
}

/// The exact changes of exchanging the inner stops `i < j`.
proof fn lemma_swap_deltas(pb: &Problem, r: Route, iu: usize, ju: usize)
    requires
        1 <= iu < ju < r.0.len() - 1,
        r.0.len() == r.1.len(),
    ensures
        move_deltas(pb, r, LinMove::Swap { i: iu, j: ju }).1 == 0,
        (ju as int) == (iu as int) + 1 ==> move_deltas(pb, r, LinMove::Swap { i: iu, j: ju }).0 == pb.arc(
            r.0[(iu as int) - 1] as int,
            r.0[(ju as int)] as int,
        ) + pb.arc(r.0[(ju as int)] as int, r.0[(iu as int)] as int) + pb.arc(r.0[(iu as int)] as int, r.0[(ju as int) + 1] as int) - (
        pb.arc(r.0[(iu as int) - 1] as int, r.0[(iu as int)] as int) + pb.arc(r.0[(iu as int)] as int, r.0[(ju as int)] as int) + pb.arc(
            r.0[(ju as int)] as int,
            r.0[(ju as int) + 1] as int,
        )),
        (ju as int) != (iu as int) + 1 ==> move_deltas(pb, r, LinMove::Swap { i: iu, j: ju }).0 == pb.arc(
            r.0[(iu as int) - 1] as int,
            r.0[(ju as int)] as int,
        ) + pb.arc(r.0[(ju as int)] as int, r.0[(iu as int) + 1] as int) + pb.arc(r.0[(ju as int) - 1] as int, r.0[(iu as int)] as int)
            + pb.arc(r.0[(iu as int)] as int, r.0[(ju as int) + 1] as int) - (pb.arc(r.0[(iu as int) - 1] as int, r.0[(iu as int)] as int)
            + pb.arc(r.0[(iu as int)] as int, r.0[(iu as int) + 1] as int) + pb.arc(r.0[(ju as int) - 1] as int, r.0[(ju as int)] as int)
            + pb.arc(r.0[(ju as int)] as int, r.0[(ju as int) + 1] as int)),
{
    let i = iu as int;
    let j = ju as int;
    let a = r.0.update(i, r.0[j]);
    if j == i + 1 {
        lemma_adjacent_swap_cost(pb, r.0, i);
    } else {
        lemma_update_cost(pb, r.0, i, r.0[j]);
        lemma_update_cost(pb, a, j, r.0[i]);
        assert(a[j - 1] == r.0[j - 1]);
        assert(a[j] == r.0[j]);
        assert(a[j + 1] == r.0[j + 1]);
    }
    let d = r.1.drop_last();
    lemma_update_profit(pb, d, i, r.1[j]);
    lemma_update_profit(pb, d.update(i, r.1[j]), j, r.1[i]);
    assert(r.1.update(i, r.1[j]).update(j, r.1[i]).drop_last() =~= d.update(i, r.1[j]).update(
        j,
        r.1[i],
    ));
}

/// The change of length of exchanging the inner stops `i < j` of `nodes`, by
/// the arcs that change.
fn swap_delta(problem: &Problem, nodes: &Vec<usize>, i: usize, j: usize) -> (dc: i64)
    requires
        problem.wf(),
        problem.nodes_in_range(nodes@),
        1 <= i < j < nodes@.len() - 1,
    ensures
        ({
            let s = nodes@;
            &&& j == i + 1 ==> dc == problem.arc(s[i - 1] as int, s[j as int] as int) + problem.arc(
                s[j as int] as int,
                s[i as int] as int,
            ) + problem.arc(s[i as int] as int, s[j + 1] as int) - (problem.arc(
                s[i - 1] as int,
                s[i as int] as int,
            ) + problem.arc(s[i as int] as int, s[j as int] as int) + problem.arc(
                s[j as int] as int,
                s[j + 1] as int,
            ))
            &&& j != i + 1 ==> dc == problem.arc(s[i - 1] as int, s[j as int] as int) + problem.arc(
                s[j as int] as int,
                s[i + 1] as int,
            ) + problem.arc(s[j - 1] as int, s[i as int] as int) + problem.arc(
                s[i as int] as int,
                s[j + 1] as int,
            ) - (problem.arc(s[i - 1] as int, s[i as int] as int) + problem.arc(
                s[i as int] as int,
                s[i + 1] as int,
            ) + problem.arc(s[j - 1] as int, s[j as int] as int) + problem.arc(
                s[j as int] as int,
                s[j + 1] as int,
            ))
        }),
{
    let _len = nodes.len();
    let prev_i = nodes[i - 1];
    let n_i = nodes[i];
    let next_i = nodes[i + 1];
    let prev_j = nodes[j - 1];
    let n_j = nodes[j];
    let next_j = nodes[j + 1];
    if j == i + 1 {
        let add: i64 = problem.get_dist(prev_i, n_j) as i64 + problem.get_dist(n_j, n_i) as i64
            + problem.get_dist(n_i, next_j) as i64;
        let sub: i64 = problem.get_dist(prev_i, n_i) as i64 + problem.get_dist(n_i, n_j) as i64
            + problem.get_dist(n_j, next_j) as i64;
        add - sub
    } else {
        let add: i64 = problem.get_dist(prev_i, n_j) as i64 + problem.get_dist(n_j, next_i) as i64
            + problem.get_dist(prev_j, n_i) as i64 + problem.get_dist(n_i, next_j) as i64;
        let sub: i64 = problem.get_dist(prev_i, n_i) as i64 + problem.get_dist(n_i, next_i) as i64
            + problem.get_dist(prev_j, n_j) as i64 + problem.get_dist(n_j, next_j) as i64;
        add - sub
    }
}

fn propose_swap(problem: &Problem, current: &Solution, rng: &mut EpochRng) -> (res: Option<
    (LinMove, i64, i64),
>)
    requires
        problem.wf(),
        lin_shaped(problem, current),
        current.tour_nodes@.len() > 3,
    ensures
        draw_result(problem, route_of(current), swap_draw(route_of(current), old(rng)@), res, final(rng)@),
{
    let ghost r = route_of(current);
    let nodes = &current.tour_nodes;
    let n = nodes.len();
    let mut i = (rng.next_u64() as usize % (n - 2)) + 1;
    let mut j = (rng.next_u64() as usize % (n - 2)) + 1;
    if i == j {
        return None;
    }
    if i > j {
        let t = i;
        i = j;
        j = t;
    }
    let dc = swap_delta(problem, nodes, i, j);
    proof {
        lemma_swap_deltas(problem, r, i, j);
    }
    Some((LinMove::Swap { i, j }, dc, 0))
}

fn propose_inversion(problem: &Problem, current: &Solution, rng: &mut EpochRng) -> (res: Option<
    (LinMove, i64, i64),
>)
    requires
        problem.wf(),
        lin_shaped(problem, current),
        current.tour_nodes@.len() > 4,
    ensures
        draw_result(
            problem,
            route_of(current),
            inversion_draw(route_of(current), old(rng)@),
            res,
            final(rng)@,
        ),
{
    let ghost r = route_of(current);
    let nodes = &current.tour_nodes;
    let n = nodes.len();
    let i = (rng.next_u64() as usize % (n - 3)) + 1;
    let j_range = n - 2 - i;
    let j = i + 1 + if j_range > 0 {
        rng.next_u64() as usize % j_range
    } else {
        0
    };
    let prev_i = nodes[i - 1];
    let n_i = nodes[i];
    let n_j = nodes[j];
    let next_j = nodes[j + 1];
    let dc: i64 = problem.get_dist(prev_i, n_j) as i64 + problem.get_dist(n_i, next_j) as i64 - (
    problem.get_dist(prev_i, n_i) as i64 + problem.get_dist(n_j, next_j) as i64);
    proof {
        lemma_reversal_cost(problem, r.0, i as int, j as int);
        lemma_reversal_profit(problem, r.1.drop_last(), i as int, j as int);
        assert(reversed_segment(r.1, i as int, j as int).drop_last() =~= reversed_segment(
            r.1.drop_last(),
            i as int,
            j as int,
        ));
    }
    Some((LinMove::Inversion { i, j }, dc, 0))
}

fn propose_node_change(problem: &Problem, current: &Solution, rng: &mut EpochRng) -> (res: Option<
    (LinMove, i64, i64),
>)
    requires
        problem.wf(),
        lin_shaped(problem, current),
        current.tour_nodes@.len() > 2,
    ensures
        draw_result(
            problem,
            route_of(current),
            node_change_draw(problem, route_of(current), old(rng)@),
            res,
            final(rng)@,
        ),
{
    let ghost r = route_of(current);
    let nodes = &current.tour_nodes;
    let cl = &current.tour_clusters;
    let n = nodes.len();
    let pos = (rng.next_u64() as usize % (n - 2)) + 1;
    let c = cl[pos];
    let ns = &problem.nodes_of_cluster[c];
    if ns.len() <= 1 {
        return None;
    }
    let old_v = nodes[pos];
    let mut new_v = draw_member(problem, c, rng);
    if new_v == old_v {
        let mut at: usize = 0;
        let mut found = false;
        let mut t: usize = 0;
        while t < ns.len()
            invariant
                t <= ns@.len(),
                !found ==> forall|q: int| 0 <= q < t ==> ns@[q] != old_v,
                !found ==> first_index_from(ns@, old_v, 0) == first_index_from(ns@, old_v, t as int),
                found ==> at == first_index_from(ns@, old_v, 0),
                found ==> at < ns@.len(),
            decreases ns@.len() - t,
        {
            if !found && ns[t] == old_v {
                at = t;
                found = true;
            }
            t = t + 1;
        }
        let k = rng.gen_range_usize(1, ns.len());
        let idx = (k + at) % ns.len();
        proof {
            assert(problem.nodes_of_cluster@[c as int]@[idx as int] < problem.num_nodes);
        }
        new_v = ns[idx];
    }
    let prev = nodes[pos - 1];
    let next = nodes[pos + 1];
    let dc: i64 = problem.get_dist(prev, new_v) as i64 + problem.get_dist(new_v, next) as i64 - (
    problem.get_dist(prev, old_v) as i64 + problem.get_dist(old_v, next) as i64);
    proof {
        lemma_update_cost(problem, r.0, pos as int, new_v);
    }
    Some((LinMove::NodeChange { pos, node: new_v }, dc, 0))
}

/// Draws a move for `current` (see `lin_proposal`) with its change of length and
/// of profit; `None` when the draw makes no move.
pub fn propose_lin_move(problem: &Problem, current: &Solution, rng: &mut EpochRng) -> (res: Option<
    (LinMove, i64, i64),
>)
    requires
        problem.wf(),
        lin_shaped(problem, current),
    ensures
        draw_result(
            problem,
            route_of(current),
            lin_proposal(problem, route_of(current), old(rng)@),
            res,
            final(rng)@,
        ),
{
    let n = current.tour_nodes.len();
    let nc = problem.num_clusters;
    let move_type = rng.next_u64() % 100;
    if move_type < 20 && nc > 1 {
        propose_insert(problem, current, rng)
    } else if move_type < 40 && n > 2 && nc > 1 {
        propose_replace(problem, current, rng)
    } else if move_type < 50 && n > 3 {
        propose_drop(problem, current, rng)
    } else if move_type < 65 && n > 3 {
        propose_swap(problem, current, rng)
    } else if move_type < 85 && n > 4 {
        propose_inversion(problem, current, rng)
    } else if n > 2 {
        propose_node_change(problem, current, rng)
    } else {
        None
    }
}

/// Makes the move on `sol` and sets its totals to the old ones plus the given
/// changes.
pub fn apply_lin_move(sol: &mut Solution, mv: &LinMove, delta_cost: i64, delta_profit: i64)
    requires
        move_fits(&*old(sol), *mv, delta_cost as int, delta_profit as int),
    ensures
        route_of(final(sol)) == applied(route_of(old(sol)), *mv),
        final(sol).total_cost == old(sol).total_cost + delta_cost,
        final(sol).total_profit == old(sol).total_profit + delta_profit,
{
    let ghost r = route_of(sol);
    match mv {
        LinMove::Insert { pos, node, cluster } => {
            sol.tour_nodes.insert(*pos, *node);
            sol.tour_clusters.insert(*pos, *cluster);
        },
        LinMove::Replace { pos, node, cluster } => {
            sol.tour_nodes.set(*pos, *node);
            sol.tour_clusters.set(*pos, *cluster);
        },
        LinMove::Drop { pos } => {
            sol.tour_nodes.remove(*pos);
            sol.tour_clusters.remove(*pos);
        },
        LinMove::Swap { i, j } => {
            let a = sol.tour_nodes[*i];
            let b = sol.tour_nodes[*j];
            sol.tour_nodes.set(*i, b);
            sol.tour_nodes.set(*j, a);
            let c = sol.tour_clusters[*i];
            let d = sol.tour_clusters[*j];
            sol.tour_clusters.set(*i, d);
            sol.tour_clusters.set(*j, c);
        },
        LinMove::Inversion { i, j } => {
            reverse_segment(&mut sol.tour_nodes, *i, *j);
            reverse_segment(&mut sol.tour_clusters, *i, *j);
        },
        LinMove::NodeChange { pos, node } => {
            sol.tour_nodes.set(*pos, *node);
        },
    }
    sol.total_cost = (sol.total_cost as i128 + delta_cost as i128) as u64;
    sol.total_profit = (sol.total_profit as i128 + delta_profit as i128) as u64;
}

/// The state of a linear-cooling annealing run between moves: the current
/// route, and the best route within the budget found so far with its value.
pub struct LinState {
    pub current: Solution,
    pub best: Solution,
    pub best_eval: i128,
}

/// Counts one evaluation; every 100,000th evaluation the totals of the current
/// route are computed afresh from the route, which stays as it is.
pub fn count_lin_evaluation(problem: &Problem, st: &mut LinState, stats: &mut RunStats)
    requires
        problem.wf(),
        old(stats).eval_count < u64::MAX,
        1 <= old(st).current.tour_nodes@.len() <= MAX_TOUR,
        1 <= old(st).current.tour_clusters@.len() <= MAX_TOUR,
        problem.nodes_in_range(old(st).current.tour_nodes@),
        problem.clusters_in_range(old(st).current.tour_clusters@.drop_last()),
    ensures
        final(stats).eval_count == old(stats).eval_count + 1,
        final(st).best == old(st).best,
        final(st).best_eval == old(st).best_eval,
        route_of(&final(st).current) == route_of(&old(st).current),
        final(stats).eval_count % 100_000 == 0 ==> accurate(problem, &final(st).current),
        final(stats).eval_count % 100_000 != 0 ==> final(st).current == old(st).current,
{
    stats.eval_count = stats.eval_count + 1;
    if stats.eval_count % 100_000 == 0 {
        st.current.recompute(problem);
    }
}

/// The move `mv` valid on `sol` (see `apply_lin_move`), with totals that stay
/// non-negative.
pub open spec fn move_fits(sol: &Solution, mv: LinMove, delta_cost: int, delta_profit: int) -> bool {
    &&& sol.tour_nodes@.len() == sol.tour_clusters@.len()
    &&& match mv {
        LinMove::Insert { pos, .. } => 1 <= pos < sol.tour_nodes@.len(),
        LinMove::Replace { pos, .. } => 1 <= pos < sol.tour_nodes@.len() - 1,
        LinMove::Drop { pos } => 1 <= pos < sol.tour_nodes@.len() - 1,
        LinMove::Swap { i, j } => 1 <= i < j < sol.tour_nodes@.len() - 1,
        LinMove::Inversion { i, j } => 1 <= i < j < sol.tour_nodes@.len() - 1,
        LinMove::NodeChange { pos, .. } => 1 <= pos < sol.tour_nodes@.len() - 1,
    }
    &&& 0 <= sol.total_cost + delta_cost <= u64::MAX
    &&& 0 <= sol.total_profit + delta_profit <= u64::MAX
}

/// Makes the move when `accepted` (the caller's acceptance test): the current
/// route changes by the move and its totals by the given changes; the result
/// becomes the best route when it is within the budget and its value (profit
/// minus a hundred times the excess over the budget) is above the best value.
/// Nothing changes when the move is not accepted.
pub fn take_lin_move(
    problem: &Problem,
    st: &mut LinState,
    mv: &LinMove,
    delta_cost: i64,
    delta_profit: i64,
    accepted: bool,
)
    requires
        move_fits(&old(st).current, *mv, delta_cost as int, delta_profit as int),
    ensures
        !accepted ==> *final(st) == *old(st),
        accepted ==> {
            &&& route_of(&final(st).current) == applied(route_of(&old(st).current), *mv)
            &&& final(st).current.total_cost == old(st).current.total_cost + delta_cost
            &&& final(st).current.total_profit == old(st).current.total_profit + delta_profit
        },
        ({
            let c = old(st).current.total_cost + delta_cost;
            let e = penalised(
                old(st).current.total_profit + delta_profit,
                c,
                problem.t_max as int,
                100,
            );
            &&& accepted && c <= problem.t_max && e > old(st).best_eval ==> final(st).best.same(
                &final(st).current,
            ) && final(st).best_eval == e
            &&& !(accepted && c <= problem.t_max && e > old(st).best_eval) ==> final(st).best
                == old(st).best && final(st).best_eval == old(st).best_eval
        }),
{
    if accepted {
        let cost: i128 = st.current.total_cost as i128 + delta_cost as i128;
        let profit: i128 = st.current.total_profit as i128 + delta_profit as i128;
        let violation: i128 = if cost > problem.t_max as i128 {
            cost - problem.t_max as i128
        } else {
            0
        };
        let eval: i128 = profit - 100 * violation;
        apply_lin_move(&mut st.current, mv, delta_cost, delta_profit);
        if cost <= problem.t_max as i128 && eval > st.best_eval {
            st.best = st.current.clone();
            st.best_eval = eval;
        }
    }
}

} // verus!
