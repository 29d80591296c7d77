//! The neighbourhood of the tabu search: every insertion of an unvisited cluster
//! and every exchange of a visited cluster for an unvisited one, at the cheapest
//! member and the best position, the best move within the budget winning among
//! those not tabu or beating the best route so far; the shake, and one
//! iteration of the search.
use crate::models::{lemma_route_cost_bound, Problem, Solution, MAX_DIST, MAX_PROFIT, MAX_TOUR};
use crate::feasibility::feasible;
use crate::phase1::{improve_fix, inner_distinct, stops_in_clusters, tour_improvement};
use crate::rng::{xorshift_step, XorShift};
use crate::route_lemmas::{lemma_insert_cost, lemma_insert_profit, lemma_remove_cost, lemma_remove_profit};
use vstd::prelude::*;

verus! {

/// A route as its nodes and its clusters.
pub type Route = (Seq<usize>, Seq<usize>);

/// The length of a route.
pub open spec fn route_len(pb: &Problem, r: Route) -> int {
    pb.route_cost(r.0)
}

/// The profit of a route: its clusters but the last.
pub open spec fn route_profit(pb: &Problem, r: Route) -> int {
    pb.clusters_profit(r.1.drop_last())
}

/// The nodes and clusters of a solution.
pub open spec fn route_of(sol: &Solution) -> Route {
    (sol.tour_nodes@, sol.tour_clusters@)
}

/// The bookkept totals of `sol` are those of its route.
pub open spec fn accurate(pb: &Problem, sol: &Solution) -> bool {
    &&& sol.total_cost == pb.route_cost(sol.tour_nodes@)
    &&& sol.total_profit == pb.clusters_profit(sol.tour_clusters@.drop_last())
}

/// The first of `ns[0..k]` with the least detour `u -> v -> w` instead of
/// `u -> w`, with that detour; `(0, i64::MAX)` when `k` is 0.
pub open spec fn cheapest_detour(pb: &Problem, u: int, w: int, ns: Seq<usize>, k: int) -> (
    usize,
    int,
)
    decreases k,
{
    if k <= 0 {
        (0usize, i64::MAX as int)
    } else {
        let prev = cheapest_detour(pb, u, w, ns, k - 1);
        let dd = pb.arc(u, ns[k - 1] as int) + pb.arc(ns[k - 1] as int, w) - pb.arc(u, w);
        if dd < prev.1 {
            (ns[k - 1], dd)
        } else {
            prev
        }
    }
}

/// Inserting cluster `cg` at position `pos` of route `r`, at its member of least
/// detour, when it has members and the longer route is at most `cap` long.
pub open spec fn insert_move(pb: &Problem, r: Route, cg: int, pos: int, cap: int) -> Option<Route> {
    let ns = pb.members(cg);
    if ns.len() == 0 {
        None
    } else {
        let b = cheapest_detour(pb, r.0[pos - 1] as int, r.0[pos] as int, ns, ns.len() as int);
        if route_len(pb, r) + b.1 <= cap {
            Some((r.0.insert(pos, b.0), r.1.insert(pos, cg as usize)))
        } else {
            None
        }
    }
}

/// `c` beats the best found so far: more profit, or as much profit and shorter.
pub open spec fn better(pb: &Problem, c: Route, best: Option<Move>) -> bool {
    match best {
        None => true,
        Some(b) => route_profit(pb, c) > route_profit(pb, b.0) || (route_profit(pb, c)
            == route_profit(pb, b.0) && route_len(pb, c) < route_len(pb, b.0)),
    }
}

/// `c` beats the best route the whole search has found, of profit `g.0` and
/// length `g.1`: more profit, or as much profit and shorter.
pub open spec fn aspires(pb: &Problem, c: Route, g: (int, int)) -> bool {
    route_profit(pb, c) > g.0 || (route_profit(pb, c) == g.0 && route_len(pb, c) < g.1)
}

/// A move: the route it leads to, the cluster it inserts and, for an exchange,
/// the cluster it removes.
pub type Move = (Route, usize, Option<usize>);

/// The best so far after offering the candidate `cand`, which inserts cluster
/// `ins` and removes `rem`: a tabu candidate is offered only when it beats the
/// best route `g` of the whole search (aspiration).
pub open spec fn offer(
    pb: &Problem,
    best: Option<Move>,
    cand: Option<Route>,
    tabu: bool,
    g: (int, int),
    ins: int,
    rem: Option<usize>,
) -> Option<Move> {
    match cand {
        Some(c) => if (!tabu || aspires(pb, c, g)) && better(pb, c, best) {
            Some((c, ins as usize, rem))
        } else {
            best
        },
        None => best,
    }
}

/// The best so far after offering the insertions of `cg` at positions `1..p`
/// of `r` within `cap`, each recorded as removing `rem`.
pub open spec fn insert_scan(
    pb: &Problem,
    r: Route,
    cg: int,
    tabu: bool,
    g: (int, int),
    cap: int,
    rem: Option<usize>,
    best: Option<Move>,
    p: int,
) -> Option<Move>
    decreases p,
{
    if p <= 1 {
        best
    } else {
        offer(
            pb,
            insert_scan(pb, r, cg, tabu, g, cap, rem, best, p - 1),
            insert_move(pb, r, cg, p - 1, cap),
            tabu,
            g,
            cg,
            rem,
        )
    }
}

/// The insertion moves of the unvisited clusters `1..c` within `cap`, from no
/// best.
pub open spec fn insert_phase(
    pb: &Problem,
    r: Route,
    ti: Seq<usize>,
    iter: int,
    g: (int, int),
    cap: int,
    c: int,
) -> Option<Move>
    decreases c,
{
    if c <= 1 {
        None
    } else {
        let b = insert_phase(pb, r, ti, iter, g, cap, c - 1);
        let cg = c - 1;
        if r.1.contains(cg as usize) {
            b
        } else {
            insert_scan(pb, r, cg, ti[cg] > iter, g, cap, None, b, r.0.len() as int)
        }
    }
}

/// The route without its stop `po`.
pub open spec fn without_stop(r: Route, po: int) -> Route {
    (r.0.remove(po), r.1.remove(po))
}

/// The exchange moves of the unvisited cluster `cg` for the stops `1..q` of
/// `r` within `cap`; each is recorded with the removed cluster.
pub open spec fn swap_scan(
    pb: &Problem,
    r: Route,
    cg: int,
    ti: Seq<usize>,
    tr: Seq<usize>,
    iter: int,
    g: (int, int),
    cap: int,
    best: Option<Move>,
    q: int,
) -> Option<Move>
    decreases q,
{
    if q <= 1 {
        best
    } else {
        let b = swap_scan(pb, r, cg, ti, tr, iter, g, cap, best, q - 1);
        let po = q - 1;
        let inter = without_stop(r, po);
        insert_scan(
            pb,
            inter,
            cg,
            ti[cg] > iter || tr[r.1[po] as int] > iter,
            g,
            cap,
            Some(r.1[po]),
            b,
            inter.0.len() as int,
        )
    }
}

/// The exchange moves of the unvisited clusters `1..c`, from the best `best0`.
pub open spec fn swap_phase(
    pb: &Problem,
    r: Route,
    ti: Seq<usize>,
    tr: Seq<usize>,
    iter: int,
    g: (int, int),
    cap: int,
    best0: Option<Move>,
    c: int,
) -> Option<Move>
    decreases c,
{
    if c <= 1 {
        best0
    } else {
        let b = swap_phase(pb, r, ti, tr, iter, g, cap, best0, c - 1);
        let cg = c - 1;
        if r.1.contains(cg as usize) {
            b
        } else {
            swap_scan(pb, r, cg, ti, tr, iter, g, cap, b, r.0.len() - 1)
        }
    }
}

/// Node evaluations of the insertion moves for the clusters `1..c`: the members
/// of each unvisited cluster, once per insertion position.
pub open spec fn insert_work(pb: &Problem, r: Route, c: int) -> int
    decreases c,
{
    if c <= 1 {
        0
    } else {
        insert_work(pb, r, c - 1) + if r.1.contains((c - 1) as usize) {
            0
        } else {
            pb.members(c - 1).len() * (r.0.len() - 1)
        }
    }
}

/// Node evaluations of the exchange moves for the clusters `1..c`: the members
/// of each unvisited cluster, once per position of each exchange.
pub open spec fn swap_work(pb: &Problem, r: Route, c: int) -> int
    decreases c,
{
    if c <= 1 {
        0
    } else {
        swap_work(pb, r, c - 1) + if r.1.contains((c - 1) as usize) {
            0
        } else {
            pb.members(c - 1).len() * ((r.0.len() - 2) * (r.0.len() - 2))
        }
    }
}

proof fn lemma_work_monotone(pb: &Problem, r: Route, c1: int, c2: int)
    requires
        c1 <= c2,
        r.0.len() >= 2,
    ensures
        0 <= insert_work(pb, r, c1) <= insert_work(pb, r, c2),
        0 <= swap_work(pb, r, c1) <= swap_work(pb, r, c2),
    decreases c2 - c1,
{
    if c1 < c2 {
        lemma_work_monotone(pb, r, c1, c2 - 1);
        let m = pb.members(c2 - 1).len();
        let l = r.0.len();
        assert(m * (l - 1) >= 0) by (nonlinear_arith)
            requires
                m >= 0,
                l >= 2,
        ;
        assert(m * ((l - 2) * (l - 2)) >= 0) by (nonlinear_arith)
            requires
                m >= 0,
                l >= 2,
        ;
    } else {
        lemma_work_nonneg(pb, r, c1);
    }
}

proof fn lemma_work_nonneg(pb: &Problem, r: Route, c: int)
    requires
        r.0.len() >= 2,
    ensures
        0 <= insert_work(pb, r, c),
        0 <= swap_work(pb, r, c),
    decreases c,
{
    if c > 1 {
        lemma_work_nonneg(pb, r, c - 1);
        let m = pb.members(c - 1).len();
        let l = r.0.len();
        assert(m * (l - 1) >= 0) by (nonlinear_arith)
            requires
                m >= 0,
                l >= 2,
        ;
        assert(m * ((l - 2) * (l - 2)) >= 0) by (nonlinear_arith)
            requires
                m >= 0,
                l >= 2,
        ;
    }
}

/// The abstract best of an executable best-so-far, with the cluster it inserts
/// and the one it removes.
pub open spec fn best_view(best: Option<Solution>, bc: usize, br: Option<usize>) -> Option<Move> {
    match best {
        Some(s) => Some((route_of(&s), bc, br)),
        None => None,
    }
}

/// The member of cluster `cg` of least detour between nodes `u` and `w` (the first
/// such), counting one evaluation per member.
fn cheapest_member(pb: &Problem, u: usize, w: usize, cg: usize, eval_count: &mut u64) -> (r: (
    usize,
    i64,
))
    requires
        pb.wf(),
        u < pb.num_nodes,
        w < pb.num_nodes,
        cg < pb.num_clusters,
        *old(eval_count) + pb.members(cg as int).len() <= u64::MAX,
    ensures
        (r.0, r.1 as int) == cheapest_detour(
            pb,
            u as int,
            w as int,
            pb.members(cg as int),
            pb.members(cg as int).len() as int,
        ),
        *final(eval_count) == *old(eval_count) + pb.members(cg as int).len(),
        pb.members(cg as int).len() > 0 ==> {
            &&& pb.members(cg as int).contains(r.0)
            &&& r.0 < pb.num_nodes
            &&& r.1 == pb.arc(u as int, r.0 as int) + pb.arc(r.0 as int, w as int) - pb.arc(
                u as int,
                w as int,
            )
        },
{
    let members = &pb.nodes_of_cluster[cg];
    let mut best_v: usize = 0;
    let mut min_delta: i64 = i64::MAX;
    let mut t: usize = 0;
    while t < members.len()
        invariant
            pb.wf(),
            cg < pb.num_clusters,
            members@ == pb.members(cg as int),
            u < pb.num_nodes,
            w < pb.num_nodes,
            t <= members@.len(),
            *eval_count == *old(eval_count) + t,
            *old(eval_count) + members@.len() <= u64::MAX,
            (best_v, min_delta as int) == cheapest_detour(pb, u as int, w as int, members@, t as int),
            t > 0 ==> {
                &&& members@.contains(best_v)
                &&& best_v < pb.num_nodes
                &&& min_delta == pb.arc(u as int, best_v as int) + pb.arc(best_v as int, w as int)
                    - pb.arc(u as int, w as int)
            },
        decreases members@.len() - t,
    {
        let v = members[t];
        assert(pb.nodes_of_cluster@[cg as int]@[t as int] == v);
        *eval_count = *eval_count + 1;
        let delta: i64 = pb.get_dist(u, v) as i64 + pb.get_dist(v, w) as i64 - pb.get_dist(u, w) as i64;
        if delta < min_delta {
            min_delta = delta;
            best_v = v;
        }
        t = t + 1;
    }
    (best_v, min_delta)
}

/// Whether the candidate beats the best found so far (more profit, or as much
/// profit and shorter).
fn beats(cand: &Solution, best: &Option<Solution>) -> (r: bool)
    ensures
        r == match best {
            None => true,
            Some(b) => cand.total_profit > b.total_profit || (cand.total_profit == b.total_profit
                && cand.total_cost < b.total_cost),
        },
{
    match best {
        None => true,
        Some(b) => {
            if cand.total_profit > b.total_profit {
                return true;
            }
            cand.total_profit == b.total_profit && cand.total_cost < b.total_cost
        },
    }
}

/// As many nodes as clusters, at least two stops, ids in range.
pub open spec fn formed(pb: &Problem, sol: &Solution) -> bool {
    &&& sol.tour_nodes@.len() == sol.tour_clusters@.len()
    &&& 2 <= sol.tour_nodes@.len() <= MAX_TOUR
    &&& pb.nodes_in_range(sol.tour_nodes@)
    &&& pb.clusters_in_range(sol.tour_clusters@)
}

/// `formed`, with totals accurate.
pub open spec fn shaped(pb: &Problem, sol: &Solution) -> bool {
    &&& formed(pb, sol)
    &&& accurate(pb, sol)
}

/// The shape the routes of the neighbourhood have: `shaped`, with room for one
/// more stop.
pub open spec fn well_shaped(pb: &Problem, sol: &Solution) -> bool {
    &&& shaped(pb, sol)
    &&& sol.tour_nodes@.len() + 1 <= MAX_TOUR
}

/// How much the kept length of `sol` exceeds the length of its route.
pub open spec fn cost_slack(pb: &Problem, sol: &Solution) -> int {
    sol.total_cost - route_len(pb, route_of(sol))
}

/// How much the kept profit of `sol` exceeds the profit of its route.
pub open spec fn profit_slack(pb: &Problem, sol: &Solution) -> int {
    sol.total_profit - route_profit(pb, route_of(sol))
}

/// A candidate kept so far: `formed`, within the budget, and with the slacks
/// `cs` and `ps` of the route it was made from.
pub open spec fn kept_ok(pb: &Problem, best: Option<Solution>, cs: int, ps: int) -> bool {
    best matches Some(b) ==> {
        &&& formed(pb, &b)
        &&& b.total_cost <= pb.t_max
        &&& cost_slack(pb, &b) == cs
        &&& profit_slack(pb, &b) == ps
    }
}

/// Offers the insertions of cluster `cg` at every position `1..len` of `base`,
/// each recorded as removing `rem`; the kept totals of each candidate are those
/// of `base` changed by the insertion.
fn scan_insertions(
    pb: &Problem,
    base: &Solution,
    cg: usize,
    tabu: bool,
    g_profit: u64,
    g_cost: u64,
    rem: Option<usize>,
    best: &mut Option<Solution>,
    best_cluster: &mut usize,
    best_removed: &mut Option<usize>,
    eval_count: &mut u64,
)
    requires
        pb.wf(),
        formed(pb, base),
        base.tour_nodes@.len() + 1 <= MAX_TOUR,
        0 < cg < pb.num_clusters,
        cost_slack(pb, base) >= 0,
        profit_slack(pb, base) >= 0,
        base.total_profit + MAX_PROFIT <= u64::MAX,
        kept_ok(pb, *old(best), cost_slack(pb, base), profit_slack(pb, base)),
        *old(eval_count) + pb.members(cg as int).len() * (base.tour_nodes@.len() - 1) <= u64::MAX,
    ensures
        best_view(*final(best), *final(best_cluster), *final(best_removed)) == insert_scan(
            pb,
            route_of(base),
            cg as int,
            tabu,
            (g_profit - profit_slack(pb, base), g_cost - cost_slack(pb, base)),
            pb.t_max - cost_slack(pb, base),
            rem,
            best_view(*old(best), *old(best_cluster), *old(best_removed)),
            base.tour_nodes@.len() as int,
        ),
        kept_ok(pb, *final(best), cost_slack(pb, base), profit_slack(pb, base)),
        *final(eval_count) == *old(eval_count) + pb.members(cg as int).len() * (
        base.tour_nodes@.len() - 1),
        (*final(best) == *old(best) && *final(best_cluster) == *old(best_cluster)
            && *final(best_removed) == *old(best_removed)) || (*final(best) matches Some(b)
            && *final(best_cluster) == cg && *final(best_removed) == rem && b.tour_nodes@.len()
            == base.tour_nodes@.len() + 1 && b.tour_clusters@.contains(cg)),
{
    let len = base.tour_nodes.len();
    let ghost m = pb.members(cg as int).len();
    let ghost r = route_of(base);
    let ghost cs = cost_slack(pb, base);
    let ghost ps = profit_slack(pb, base);
    let ghost g = (g_profit - ps, g_cost - cs);
    let ghost cap = pb.t_max - cs;
    proof {
        lemma_route_cost_bound(pb, base.tour_nodes@);
        crate::models::lemma_clusters_profit_bound(pb, base.tour_clusters@.drop_last());
    }
    let mut pos: usize = 1;
    while pos < len
        invariant
            pb.wf(),
            formed(pb, base),
            base.tour_nodes@.len() + 1 <= MAX_TOUR,
            r == route_of(base),
            cs == cost_slack(pb, base),
            ps == profit_slack(pb, base),
            cs >= 0,
            ps >= 0,
            g == (g_profit - ps, g_cost - cs),
            cap == pb.t_max - cs,
            base.total_profit + MAX_PROFIT <= u64::MAX,
            len == base.tour_nodes@.len(),
            0 < cg < pb.num_clusters,
            m == pb.members(cg as int).len(),
            1 <= pos <= len,
            kept_ok(pb, *best, cs, ps),
            (*best == *old(best) && *best_cluster == *old(best_cluster) && *best_removed
                == *old(best_removed)) || (*best matches Some(b) && *best_cluster == cg
                && *best_removed == rem && b.tour_nodes@.len() == len + 1
                && b.tour_clusters@.contains(cg)),
            *old(eval_count) + m * (len - 1) <= u64::MAX,
            *eval_count == *old(eval_count) + m * (pos - 1),
            best_view(*best, *best_cluster, *best_removed) == insert_scan(
                pb,
                r,
                cg as int,
                tabu,
                g,
                cap,
                rem,
                best_view(*old(best), *old(best_cluster), *old(best_removed)),
                pos as int,
            ),
        decreases len - pos,
    {
        proof {
            assert(m * (pos - 1) + m == m * pos) by (nonlinear_arith);
            assert(m * pos <= m * (len - 1)) by (nonlinear_arith)
                requires
                    pos <= len - 1,
                    m >= 0,
            ;
        }
        let u = base.tour_nodes[pos - 1];
        let w = base.tour_nodes[pos];
        let (best_v, min_delta) = cheapest_member(pb, u, w, cg, eval_count);
        let ghost mv = insert_move(pb, r, cg as int, pos as int, cap);
        if pb.nodes_of_cluster[cg].len() > 0 && (base.total_cost as i128) + (min_delta as i128)
            <= (pb.t_max as i128) {
            let mut cand = base.clone();
            proof {
                lemma_insert_cost(pb, base.tour_nodes@, pos as int, best_v);
                lemma_insert_profit(pb, base.tour_clusters@.drop_last(), pos as int, cg);
                assert(base.tour_clusters@.insert(pos as int, cg).drop_last() =~= base.tour_clusters@.drop_last().insert(
                    pos as int,
                    cg,
                ));
                let nn = base.tour_nodes@.insert(pos as int, best_v);
                assert forall|k: int| 0 <= k < nn.len() implies #[trigger] nn[k] < pb.num_nodes by {
                    if k < pos {
                        assert(nn[k] == base.tour_nodes@[k]);
                    } else if k > pos {
                        assert(nn[k] == base.tour_nodes@[k - 1]);
                    }
                }
                lemma_route_cost_bound(pb, nn);
            }
            cand.tour_nodes.insert(pos, best_v);
            cand.tour_clusters.insert(pos, cg);
            cand.total_cost = (base.total_cost as i128 + min_delta as i128) as u64;
            cand.total_profit = base.total_profit + pb.profits[cg];
            proof {
                let ncl = cand.tour_clusters@;
                assert forall|k: int| 0 <= k < ncl.len() implies #[trigger] ncl[k] < pb.num_clusters by {
                    if k < pos {
                        assert(ncl[k] == base.tour_clusters@[k]);
                    } else if k > pos {
                        assert(ncl[k] == base.tour_clusters@[k - 1]);
                    }
                }
                assert(mv == Some(route_of(&cand)));
                assert(cand.tour_clusters@[pos as int] == cg);
                assert(cost_slack(pb, &cand) == cs);
                assert(profit_slack(pb, &cand) == ps);
            }
            let aspiration = cand.total_profit > g_profit || (cand.total_profit == g_profit
                && cand.total_cost < g_cost);
            if !tabu || aspiration {
                if beats(&cand, best) {
                    *best = Some(cand);
                    *best_cluster = cg;
                    *best_removed = rem;
                }
            }
        } else {
            proof {
                if pb.members(cg as int).len() > 0 {
                    lemma_insert_cost(pb, base.tour_nodes@, pos as int, best_v);
                    assert(mv is None);
                }
            }
        }
        pos = pos + 1;
    }
}

/// Explores the neighbourhood of `current`: every insertion of an unvisited
/// cluster at every position, then every exchange of a visited stop for an
/// unvisited cluster, each at the cheapest member and kept only when the kept
/// length of `current` changed by the move stays within the budget. A move
/// inserting cluster `cg` is tabu when `tabu_insert[cg]` (for an exchange also
/// `tabu_remove` of the removed cluster) is after `current_iter`; a tabu move is
/// still taken when it beats the best route of the whole search, of profit
/// `best_profit` and length `best_cost` (aspiration). Returns the best move
/// found first (most profit, then shortest, by the kept totals) with the
/// cluster it inserts and, for an exchange, the cluster it removes; counts one
/// evaluation per member examined.
pub fn explore_neighborhood(
    pb: &Problem,
    current: &Solution,
    tabu_insert: &[usize],
    tabu_remove: &[usize],
    current_iter: usize,
    best_profit: u64,
    best_cost: u64,
    eval_count: &mut u64,
) -> (res: Option<(Solution, usize, Option<usize>)>)
    requires
        pb.wf(),
        formed(pb, current),
        current.tour_nodes@.len() + 1 <= MAX_TOUR,
        pb.profits@[0] == 0 || forall|k: int|
            1 <= k < current.tour_clusters@.len() - 1 ==> #[trigger] current.tour_clusters@[k] != 0,
        tabu_insert@.len() >= pb.num_clusters,
        tabu_remove@.len() >= pb.num_clusters,
        cost_slack(pb, current) >= 0,
        profit_slack(pb, current) >= 0,
        current.total_cost + MAX_DIST <= u64::MAX,
        current.total_profit + MAX_PROFIT <= u64::MAX,
        *old(eval_count) + insert_work(pb, route_of(current), pb.num_clusters as int) + swap_work(
            pb,
            route_of(current),
            pb.num_clusters as int,
        ) <= u64::MAX,
    ensures
        *final(eval_count) == *old(eval_count) + insert_work(
            pb,
            route_of(current),
            pb.num_clusters as int,
        ) + swap_work(pb, route_of(current), pb.num_clusters as int),
        ({
            let r = route_of(current);
            let cs = cost_slack(pb, current);
            let ps = profit_slack(pb, current);
            let g = (best_profit - ps, best_cost - cs);
            let cap = pb.t_max - cs;
            let b1 = insert_phase(pb, r, tabu_insert@, current_iter as int, g, cap, pb.num_clusters as int);
            let b2 = swap_phase(
                pb,
                r,
                tabu_insert@,
                tabu_remove@,
                current_iter as int,
                g,
                cap,
                b1,
                pb.num_clusters as int,
            );
            match b2 {
                None => res is None,
                Some(b) => res matches Some(x) && route_of(&x.0) == b.0 && x.1 == b.1 && x.2 == b.2
                    && formed(pb, &x.0) && cost_slack(pb, &x.0) == cs && profit_slack(pb, &x.0) == ps,
            }
        }),
        res matches Some(x) ==> {
            &&& 0 < x.1 < pb.num_clusters
            &&& !current.tour_clusters@.contains(x.1)
            &&& x.0.tour_clusters@.contains(x.1)
            &&& x.0.total_cost <= pb.t_max
            &&& x.2 is None ==> x.0.tour_nodes@.len() == current.tour_nodes@.len() + 1
            &&& x.2 matches Some(rm) ==> current.tour_clusters@.contains(rm)
                && x.0.tour_nodes@.len() == current.tour_nodes@.len()
        },
{
    let nc = pb.num_clusters;
    let len = current.tour_nodes.len();
    let ghost r = route_of(current);
    let ghost cs = cost_slack(pb, current);
    let ghost ps = profit_slack(pb, current);
    let ghost g = (best_profit - ps, best_cost - cs);
    let ghost cap = pb.t_max - cs;
    let mut visited: Vec<bool> = vec![false; nc];
    let mut k: usize = 0;
    while k < len
        invariant
            pb.wf(),
            nc == pb.num_clusters,
            len == current.tour_clusters@.len(),
            pb.clusters_in_range(current.tour_clusters@),
            visited@.len() == nc,
            k <= len,
            forall|c: int|
                0 <= c < nc ==> (#[trigger] visited@[c] <==> exists|j: int|
                    0 <= j < k && current.tour_clusters@[j] == c),
        decreases len - k,
    {
        let c = current.tour_clusters[k];
        visited.set(c, true);
        k = k + 1;
    }
    proof {
        assert forall|c: int| 0 <= c < nc implies (#[trigger] visited@[c] <==> r.1.contains(
            c as usize,
        )) by {}
        lemma_work_nonneg(pb, r, nc as int);
        lemma_route_cost_bound(pb, current.tour_nodes@);
    }
    let mut best: Option<Solution> = None;
    let mut best_cluster: usize = 0;
    let mut best_removed: Option<usize> = None;
    let mut cg: usize = 1;
    while cg < nc
        invariant
            pb.wf(),
            nc == pb.num_clusters,
            formed(pb, current),
            current.tour_nodes@.len() + 1 <= MAX_TOUR,
            r == route_of(current),
            cs == cost_slack(pb, current),
            ps == profit_slack(pb, current),
            cs >= 0,
            ps >= 0,
            g == (best_profit - ps, best_cost - cs),
            cap == pb.t_max - cs,
            current.total_profit + MAX_PROFIT <= u64::MAX,
            len == r.0.len(),
            visited@.len() == nc,
            forall|c: int| 0 <= c < nc ==> (#[trigger] visited@[c] <==> r.1.contains(c as usize)),
            tabu_insert@.len() >= nc,
            1 <= cg <= nc,
            kept_ok(pb, best, cs, ps),
            best matches Some(b) ==> 0 < best_cluster < nc && !r.1.contains(best_cluster)
                && b.tour_clusters@.contains(best_cluster) && best_removed is None
                && b.tour_nodes@.len() == len + 1,
            *old(eval_count) + insert_work(pb, r, nc as int) + swap_work(pb, r, nc as int) <= u64::MAX,
            *eval_count == *old(eval_count) + insert_work(pb, r, cg as int),
            best_view(best, best_cluster, best_removed) == insert_phase(
                pb,
                r,
                tabu_insert@,
                current_iter as int,
                g,
                cap,
                cg as int,
            ),
        decreases nc - cg,
    {
        proof {
            lemma_work_monotone(pb, r, cg as int + 1, nc as int);
            lemma_work_nonneg(pb, r, nc as int);
        }
        if !visited[cg] {
            let is_tabu = tabu_insert[cg] > current_iter;
            scan_insertions(
                pb,
                current,
                cg,
                is_tabu,
                best_profit,
                best_cost,
                None,
                &mut best,
                &mut best_cluster,
                &mut best_removed,
                eval_count,
            );
        }
        cg = cg + 1;
    }
    let ghost b1 = best_view(best, best_cluster, best_removed);
    let mut cg: usize = 1;
    while cg < nc
        invariant
            pb.wf(),
            nc == pb.num_clusters,
            formed(pb, current),
            current.tour_nodes@.len() + 1 <= MAX_TOUR,
            pb.profits@[0] == 0 || forall|k: int| 1 <= k < len - 1 ==> #[trigger] current.tour_clusters@[k] != 0,
            r == route_of(current),
            cs == cost_slack(pb, current),
            ps == profit_slack(pb, current),
            cs >= 0,
            ps >= 0,
            g == (best_profit - ps, best_cost - cs),
            cap == pb.t_max - cs,
            current.total_cost + MAX_DIST <= u64::MAX,
            current.total_profit + MAX_PROFIT <= u64::MAX,
            len == r.0.len(),
            visited@.len() == nc,
            forall|c: int| 0 <= c < nc ==> (#[trigger] visited@[c] <==> r.1.contains(c as usize)),
            tabu_insert@.len() >= nc,
            tabu_remove@.len() >= nc,
            1 <= cg <= nc,
            kept_ok(pb, best, cs, ps),
            best matches Some(b) ==> 0 < best_cluster < nc && !r.1.contains(best_cluster)
                && b.tour_clusters@.contains(best_cluster) && (best_removed is None
                ==> b.tour_nodes@.len() == len + 1) && (best_removed matches Some(rm)
                ==> r.1.contains(rm) && b.tour_nodes@.len() == len),
            *old(eval_count) + insert_work(pb, r, nc as int) + swap_work(pb, r, nc as int) <= u64::MAX,
            *eval_count == *old(eval_count) + insert_work(pb, r, nc as int) + swap_work(pb, r, cg as int),
            best_view(best, best_cluster, best_removed) == swap_phase(
                pb,
                r,
                tabu_insert@,
                tabu_remove@,
                current_iter as int,
                g,
                cap,
                b1,
                cg as int,
            ),
        decreases nc - cg,
    {
        proof {
            lemma_work_monotone(pb, r, cg as int + 1, nc as int);
            lemma_work_nonneg(pb, r, nc as int);
        }
        if !visited[cg] {
            let ghost m = pb.members(cg as int).len();
            let ghost start_eval = *eval_count;
            let ghost start_best = best_view(best, best_cluster, best_removed);
            proof {
                assert(m * ((1 - 1) * (len - 2)) == 0) by (nonlinear_arith);
                assert(m * ((len - 1) + (len - 2) * (len - 2)) == m * (len - 1) + m * ((len - 2) * (len - 2))) by (nonlinear_arith);
            }
            let mut pos_out: usize = 1;
            while pos_out < len - 1
                invariant
                    pb.wf(),
                    nc == pb.num_clusters,
                    formed(pb, current),
                    current.tour_nodes@.len() + 1 <= MAX_TOUR,
                    pb.profits@[0] == 0 || forall|k: int| 1 <= k < len - 1 ==> #[trigger] current.tour_clusters@[k] != 0,
                    r == route_of(current),
                    cs == cost_slack(pb, current),
                    ps == profit_slack(pb, current),
                    cs >= 0,
                    ps >= 0,
                    g == (best_profit - ps, best_cost - cs),
                    cap == pb.t_max - cs,
                    current.total_cost + MAX_DIST <= u64::MAX,
                    current.total_profit + MAX_PROFIT <= u64::MAX,
                    len == r.0.len(),
                    0 < cg < nc,
                    !r.1.contains(cg as usize),
                    m == pb.members(cg as int).len(),
                    tabu_insert@.len() >= nc,
                    tabu_remove@.len() >= nc,
                    1 <= pos_out <= len - 1,
                    kept_ok(pb, best, cs, ps),
                    best matches Some(b) ==> 0 < best_cluster < nc && !r.1.contains(best_cluster)
                        && b.tour_clusters@.contains(best_cluster) && (best_removed is None
                        ==> b.tour_nodes@.len() == len + 1) && (best_removed matches Some(rm)
                        ==> r.1.contains(rm) && b.tour_nodes@.len() == len),
                    start_eval + m * ((len - 2) * (len - 2)) <= u64::MAX,
                    *eval_count == start_eval + m * ((pos_out - 1) * (len - 2)),
                    best_view(best, best_cluster, best_removed) == swap_scan(
                        pb,
                        r,
                        cg as int,
                        tabu_insert@,
                        tabu_remove@,
                        current_iter as int,
                        g,
                        cap,
                        start_best,
                        pos_out as int,
                    ),
                decreases len - pos_out,
            {
                proof {
                    assert(m * ((pos_out - 1) * (len - 2)) + m * (len - 2) == m * (pos_out * (len
                        - 2))) by (nonlinear_arith);
                    assert(m * (pos_out * (len - 2)) <= m * ((len - 2) * (len - 2))) by (nonlinear_arith)
                        requires
                            pos_out <= len - 2,
                            m >= 0,
                            len >= 2,
                    ;
                }
                let ch = current.tour_clusters[pos_out];
                let is_tabu = tabu_insert[cg] > current_iter || tabu_remove[ch] > current_iter;
                let mut inter = current.clone();
                let u_rem = current.tour_nodes[pos_out - 1];
                let w_rem = current.tour_nodes[pos_out + 1];
                let v_rem = current.tour_nodes[pos_out];
                let removal: i64 = pb.get_dist(u_rem, v_rem) as i64 + pb.get_dist(v_rem, w_rem) as i64
                    - pb.get_dist(u_rem, w_rem) as i64;
                proof {
                    lemma_remove_cost(pb, current.tour_nodes@, pos_out as int);
                    lemma_remove_profit(pb, current.tour_clusters@.drop_last(), pos_out as int);
                    assert(current.tour_clusters@.remove(pos_out as int).drop_last()
                        =~= current.tour_clusters@.drop_last().remove(pos_out as int));
                    assert(current.tour_clusters@.drop_last()[pos_out as int] == ch);
                    assert(ch != 0 ==> pb.profit(ch as int) == pb.profits@[ch as int]);
                    assert(ch == 0 ==> pb.profits@[0] == 0) by {
                        if ch == 0 && pb.profits@[0] != 0 {
                            assert(current.tour_clusters@[pos_out as int] != 0);
                        }
                    }
                    let rcl = current.tour_clusters@.drop_last().remove(pos_out as int);
                    assert forall|k: int| 0 <= k < rcl.len() implies #[trigger] rcl[k] < pb.num_clusters by {
                        if k < pos_out {
                            assert(rcl[k] == current.tour_clusters@[k]);
                        } else {
                            assert(rcl[k] == current.tour_clusters@[k + 1]);
                        }
                    }
                    crate::models::lemma_clusters_profit_bound(pb, rcl);
                    let nn = current.tour_nodes@.remove(pos_out as int);
                    assert forall|k: int| 0 <= k < nn.len() implies #[trigger] nn[k] < pb.num_nodes by {
                        if k < pos_out {
                            assert(nn[k] == current.tour_nodes@[k]);
                        } else {
                            assert(nn[k] == current.tour_nodes@[k + 1]);
                        }
                    }
                    lemma_route_cost_bound(pb, nn);
                    crate::models::lemma_clusters_profit_bound(pb, current.tour_clusters@.drop_last());
                }
                inter.total_cost = (current.total_cost as i128 - removal as i128) as u64;
                inter.total_profit = current.total_profit - pb.profits[ch];
                inter.tour_nodes.remove(pos_out);
                inter.tour_clusters.remove(pos_out);
                proof {
                    let ncl = inter.tour_clusters@;
                    assert forall|k: int| 0 <= k < ncl.len() implies #[trigger] ncl[k] < pb.num_clusters by {
                        if k < pos_out {
                            assert(ncl[k] == current.tour_clusters@[k]);
                        } else {
                            assert(ncl[k] == current.tour_clusters@[k + 1]);
                        }
                    }
                    assert(route_of(&inter) == without_stop(r, pos_out as int));
                    assert(inter.tour_nodes@.len() == len - 1);
                    assert(cost_slack(pb, &inter) == cs);
                    assert(profit_slack(pb, &inter) == ps);
                    assert(r.1[pos_out as int] == ch);
                    assert(r.1.contains(ch));
                }
                scan_insertions(
                    pb,
                    &inter,
                    cg,
                    is_tabu,
                    best_profit,
                    best_cost,
                    Some(ch),
                    &mut best,
                    &mut best_cluster,
                    &mut best_removed,
                    eval_count,
                );
                pos_out = pos_out + 1;
            }
        }
        cg = cg + 1;
    }
    match best {
        Some(sol) => Some((sol, best_cluster, best_removed)),
        None => None,
    }
}

/// The numbers of stops a shake removes, from the raw bounds computed from the
/// shake percentages: at least one, at most the `n_visited` inner stops, and the
/// lower bound never above the upper one.
pub open spec fn clamp_bounds(n_visited: int, raw_min: int, raw_max: int) -> (int, int) {
    let min1 = if raw_min == 0 { 1 } else { raw_min };
    let max1 = if raw_max > n_visited { n_visited } else { raw_max };
    let min2 = if min1 > max1 { max1 } else { min1 };
    (min2, max1)
}

/// The first `k` steps of a Fisher-Yates shuffle of `idx` from position `i` on,
/// each step drawing from the xorshift generator: position `i` is exchanged
/// with `i + next mod (len - i)`.
pub open spec fn partial_shuffle(idx: Seq<usize>, state: u64, i: int, k: int) -> (Seq<usize>, u64)
    decreases k - i,
{
    if i >= k || i >= idx.len() {
        (idx, state)
    } else {
        let st = xorshift_step(state);
        let sw = i + ((st as usize) % ((idx.len() - i) as usize)) as int;
        partial_shuffle(idx.update(i, idx[sw]).update(sw, idx[i]), st, i + 1, k)
    }
}

/// The entries of `s` at the positions where `keep` holds, in order.
pub open spec fn select(s: Seq<usize>, keep: Seq<bool>) -> Seq<usize>
    decreases s.len(),
{
    if s.len() == 0 {
        Seq::empty()
    } else {
        select(s.drop_last(), keep) + if keep[s.len() - 1] {
            seq![s.last()]
        } else {
            Seq::empty()
        }
    }
}

/// The inner positions `1..len-1`.
pub open spec fn inner_positions(len: int) -> Seq<usize> {
    Seq::new((len - 2) as nat, |p: int| (p + 1) as usize)
}

/// What a shake of the route with `len` stops does with the raw bounds and the
/// generator at `state`: the number `k` of stops removed (drawn between the
/// clamped bounds when they differ), the mask of the stops kept (all but the
/// first `k` positions of a partial shuffle of the inner positions) and the
/// generator state after it.
pub open spec fn shake_plan(len: int, raw_min: int, raw_max: int, state: u64) -> (int, Seq<bool>, u64) {
    let b = clamp_bounds(len - 2, raw_min, raw_max);
    let s1 = if b.0 < b.1 { xorshift_step(state) } else { state };
    let k = if b.0 < b.1 { b.0 + ((s1 as usize) % ((b.1 - b.0 + 1) as usize)) as int } else { b.0 };
    let ps = partial_shuffle(inner_positions(len), s1, 0, k);
    let mask = Seq::new(len as nat, |p: int| !ps.0.take(k).contains(p as usize));
    (k, mask, ps.1)
}

proof fn lemma_partial_shuffle(idx: Seq<usize>, state: u64, i: int, k: int, lo: usize, hi: usize)
    requires
        0 <= i,
        idx.len() <= usize::MAX,
        forall|t: int| 0 <= t < idx.len() ==> lo <= #[trigger] idx[t] < hi,
    ensures
        partial_shuffle(idx, state, i, k).0.len() == idx.len(),
        forall|t: int|
            0 <= t < idx.len() ==> lo <= #[trigger] partial_shuffle(idx, state, i, k).0[t] < hi,
    decreases k - i,
{
    if !(i >= k || i >= idx.len()) {
        let st = xorshift_step(state);
        let sw = i + ((st as usize) % ((idx.len() - i) as usize)) as int;
        assert(i <= sw < idx.len());
        let t2 = idx.update(i, idx[sw]).update(sw, idx[i]);
        assert forall|t: int| 0 <= t < t2.len() implies lo <= #[trigger] t2[t] < hi by {
            if t != i && t != sw {
                assert(t2[t] == idx[t]);
            }
        }
        lemma_partial_shuffle(t2, st, i + 1, k, lo, hi);
    }
}

proof fn lemma_select(s: Seq<usize>, keep: Seq<bool>)
    requires
        s.len() <= keep.len(),
    ensures
        select(s, keep).len() <= s.len(),
        forall|t: int| 0 <= t < select(s, keep).len() ==> s.contains(#[trigger] select(s, keep)[t]),
        s.len() >= 1 && keep[s.len() - 1] ==> select(s, keep).len() >= 1 && select(s, keep).last()
            == s.last(),
        s.len() >= 1 && keep[0] ==> select(s, keep).len() >= 1 && select(s, keep)[0] == s[0],
    decreases s.len(),
{
    if s.len() > 0 {
        let d = s.drop_last();
        let kd = keep.take(d.len() as int);
        lemma_select(d, keep);
        assert forall|t: int| 0 <= t < select(s, keep).len() implies s.contains(
            #[trigger] select(s, keep)[t],
        ) by {
            if t < select(d, keep).len() {
                assert(select(s, keep)[t] == select(d, keep)[t]);
                let w = choose|w: int| 0 <= w < d.len() && d[w] == select(d, keep)[t];
                assert(s[w] == d[w]);
            } else {
                assert(select(s, keep)[t] == s.last());
                assert(s[s.len() - 1] == s.last());
            }
        }
        if keep[0] && s.len() >= 2 {
            assert(select(s, keep)[0] == select(d, keep)[0]);
        }
    }
}

/// Removes a random share of the inner stops of `current` (the diversification
/// of the tabu search): `k` stops, between the clamped bounds `raw_min_k` and
/// `raw_max_k`, chosen by a partial shuffle of the inner positions, then
/// recomputes the totals. Routes with at most one inner stop are returned as
/// they are.
pub fn shake_with_bounds(
    current: &Solution,
    raw_min_k: usize,
    raw_max_k: usize,
    rng: &mut XorShift,
    pb: &Problem,
) -> (res: Solution)
    requires
        pb.wf(),
        current.tour_nodes@.len() == current.tour_clusters@.len(),
        2 <= current.tour_nodes@.len() <= MAX_TOUR,
        pb.nodes_in_range(current.tour_nodes@),
        pb.clusters_in_range(current.tour_clusters@),
    ensures
        current.tour_clusters@.len() <= 3 ==> res.same(current) && final(rng).state == old(
            rng,
        ).state,
        current.tour_clusters@.len() > 3 ==> {
            let plan = shake_plan(
                current.tour_clusters@.len() as int,
                raw_min_k as int,
                raw_max_k as int,
                old(rng).state,
            );
            &&& res.tour_nodes@ == select(current.tour_nodes@, plan.1)
            &&& res.tour_clusters@ == select(current.tour_clusters@, plan.1)
            &&& final(rng).state == plan.2
            &&& res.total_cost == pb.route_cost(res.tour_nodes@)
            &&& res.total_profit == pb.clusters_profit(res.tour_clusters@.drop_last())
        },
{
    let len = current.tour_clusters.len();
    let n_visited = if len >= 2 { len - 2 } else { 0 };
    if n_visited <= 1 {
        return current.clone();
    }
    let mut min_k = raw_min_k;
    let mut max_k = raw_max_k;
    if min_k == 0 {
        min_k = 1;
    }
    if max_k > n_visited {
        max_k = n_visited;
    }
    if min_k > max_k {
        min_k = max_k;
    }
    let k = if min_k < max_k {
        min_k + (rng.next() as usize % (max_k - min_k + 1))
    } else {
        min_k
    };
    let ghost s1 = rng.state;
    let mut indices: Vec<usize> = Vec::new();
    let mut p: usize = 1;
    while p < len - 1
        invariant
            4 <= len,
            1 <= p <= len - 1,
            indices@ == inner_positions(p as int + 1),
        decreases len - p,
    {
        indices.push(p);
        p = p + 1;
        assert(indices@ =~= inner_positions(p as int + 1));
    }
    let ghost idx0 = indices@;
    let mut i: usize = 0;
    while i < k
        invariant
            4 <= len,
            k <= len - 2,
            i <= k,
            indices@.len() == len - 2,
            partial_shuffle(indices@, rng.state, i as int, k as int) == partial_shuffle(
                idx0,
                s1,
                0,
                k as int,
            ),
        decreases k - i,
    {
        let x = rng.next();
        let swap_idx = i + (x as usize % (indices.len() - i));
        let a = indices[i];
        let b = indices[swap_idx];
        indices.set(i, b);
        indices.set(swap_idx, a);
        i = i + 1;
    }
    let ghost ps = partial_shuffle(idx0, s1, 0, k as int);
    assert(indices@ == ps.0);
    proof {
        lemma_partial_shuffle(idx0, s1, 0, k as int, 1, (len - 1) as usize);
    }
    let mut keep: Vec<bool> = vec![true; len];
    let mut t: usize = 0;
    while t < k
        invariant
            4 <= len,
            k <= len - 2,
            t <= k,
            indices@ == ps.0,
            ps.0.len() == len - 2,
            forall|q: int| 0 <= q < ps.0.len() ==> 1 <= #[trigger] ps.0[q] < len - 1,
            keep@.len() == len,
            forall|q: int| 0 <= q < len ==> #[trigger] keep@[q] == !ps.0.take(t as int).contains(q as usize),
        decreases k - t,
    {
        let q0 = indices[t];
        keep.set(q0, false);
        proof {
            assert forall|q: int| 0 <= q < len implies #[trigger] keep@[q] == !ps.0.take(t as int + 1).contains(
                q as usize,
            ) by {
                assert(ps.0.take(t as int + 1) =~= ps.0.take(t as int).push(q0));
                if q == q0 as int {
                    assert(ps.0.take(t as int + 1)[t as int] == q0);
                } else {
                    if ps.0.take(t as int + 1).contains(q as usize) {
                        let w = choose|w: int| 0 <= w < t + 1 && #[trigger] ps.0.take(t as int + 1)[w] == q as usize;
                        assert(w < t);
                        assert(ps.0.take(t as int)[w] == q as usize);
                    }
                    if ps.0.take(t as int).contains(q as usize) {
                        let w = choose|w: int| 0 <= w < t && #[trigger] ps.0.take(t as int)[w] == q as usize;
                        assert(ps.0.take(t as int + 1)[w] == q as usize);
                    }
                }
            }
        }
        t = t + 1;
    }
    let ghost mask = keep@;
    proof {
        let plan = shake_plan(len as int, raw_min_k as int, raw_max_k as int, old(rng).state);
        assert(idx0 =~= inner_positions(len as int));
        assert(mask =~= plan.1);
    }
    let mut nodes: Vec<usize> = Vec::new();
    let mut clusters: Vec<usize> = Vec::new();
    let mut q: usize = 0;
    while q < len
        invariant
            len == current.tour_nodes@.len(),
            len == current.tour_clusters@.len(),
            keep@ == mask,
            mask.len() == len,
            q <= len,
            nodes@ == select(current.tour_nodes@.take(q as int), mask),
            clusters@ == select(current.tour_clusters@.take(q as int), mask),
        decreases len - q,
    {
        proof {
            assert(current.tour_nodes@.take(q as int + 1).drop_last() =~= current.tour_nodes@.take(q as int));
            assert(current.tour_clusters@.take(q as int + 1).drop_last() =~= current.tour_clusters@.take(
                q as int,
            ));
        }
        if keep[q] {
            nodes.push(current.tour_nodes[q]);
            clusters.push(current.tour_clusters[q]);
        }
        q = q + 1;
    }
    assert(current.tour_nodes@.take(len as int) =~= current.tour_nodes@);
    assert(current.tour_clusters@.take(len as int) =~= current.tour_clusters@);
    let mut shaken = Solution {
        tour_nodes: nodes,
        tour_clusters: clusters,
        total_profit: current.total_profit,
        total_cost: current.total_cost,
    };
    proof {
        assert(!ps.0.take(k as int).contains(0usize)) by {
            if ps.0.take(k as int).contains(0usize) {
                let w = choose|w: int| 0 <= w < k && #[trigger] ps.0.take(k as int)[w] == 0usize;
                assert(ps.0[w] == 0);
            }
        }
        assert(!ps.0.take(k as int).contains((len - 1) as usize)) by {
            if ps.0.take(k as int).contains((len - 1) as usize) {
                let w = choose|w: int| 0 <= w < k && #[trigger] ps.0.take(k as int)[w] == (len - 1) as usize;
                assert(ps.0[w] == len - 1);
            }
        }
        assert(mask[0]);
        assert(mask[len - 1]);
        lemma_select(current.tour_nodes@, mask);
        lemma_select(current.tour_clusters@, mask);
        assert forall|t: int| 0 <= t < shaken.tour_nodes@.len() implies #[trigger] shaken.tour_nodes@[t]
            < pb.num_nodes by {
            let w = choose|w: int| 0 <= w < len && #[trigger] current.tour_nodes@[w] == shaken.tour_nodes@[t];
        }
        assert forall|t: int| 0 <= t < shaken.tour_clusters@.drop_last().len() implies #[trigger] shaken.tour_clusters@.drop_last()[t]
            < pb.num_clusters by {
            assert(shaken.tour_clusters@.contains(shaken.tour_clusters@[t]));
            let w = choose|w: int| 0 <= w < len && #[trigger] current.tour_clusters@[w] == shaken.tour_clusters@[t];
        }
    }
    shaken.recompute(pb);
    shaken
}

/// The shape of the routes the tabu search walks through: as many nodes as
/// clusters, ids in range, the depot cluster first and last, and distinct
/// non-depot clusters in between.
pub open spec fn route_ok(pb: &Problem, r: Route) -> bool {
    &&& r.0.len() == r.1.len()
    &&& 2 <= r.0.len()
    &&& pb.nodes_in_range(r.0)
    &&& pb.clusters_in_range(r.1)
    &&& r.1[0] == 0
    &&& r.1.last() == 0
    &&& inner_distinct(r.1)
}

/// The best so far, if any, has the shape of `route_ok`, is at most `cap`
/// long, inserts a cluster other than the depot's and removes, if anything, a
/// cluster of the instance.
pub open spec fn best_ok(pb: &Problem, cap: int, b: Option<Move>) -> bool {
    match b {
        None => true,
        Some(x) => {
            &&& route_ok(pb, x.0)
            &&& route_len(pb, x.0) <= cap
            &&& 0 < x.1 < pb.num_clusters
            &&& x.2 matches Some(rm) ==> rm < pb.num_clusters
        },
    }
}

/// The extra length of going `u -> v -> w` instead of `u -> w`.
pub open spec fn detour(pb: &Problem, u: int, v: int, w: int) -> int {
    pb.arc(u, v) + pb.arc(v, w) - pb.arc(u, w)
}

/// The node `cheapest_detour` picks among `ns[0..k]` is one of them, and no
/// node among them has a smaller detour.
proof fn lemma_cheapest_detour_least(pb: &Problem, u: int, w: int, ns: Seq<usize>, k: int)
    requires
        pb.wf(),
        0 <= u < pb.num_nodes,
        0 <= w < pb.num_nodes,
        0 < k <= ns.len(),
        pb.nodes_in_range(ns),
    ensures
        exists|t: int| 0 <= t < k && ns[t] == cheapest_detour(pb, u, w, ns, k).0,
        cheapest_detour(pb, u, w, ns, k).1 == detour(pb, u, cheapest_detour(pb, u, w, ns, k).0 as int, w),
        forall|t: int| 0 <= t < k ==> cheapest_detour(pb, u, w, ns, k).1 <= detour(pb, u, #[trigger] ns[t] as int, w),
    decreases k,
{
    let v = ns[k - 1] as int;
    crate::models::lemma_index_bound(u, v, pb.num_nodes as int);
    crate::models::lemma_index_bound(v, w, pb.num_nodes as int);
    crate::models::lemma_index_bound(u, w, pb.num_nodes as int);
    assert(detour(pb, u, v, w) < i64::MAX);
    if k > 1 {
        lemma_cheapest_detour_least(pb, u, w, ns, k - 1);
        let prev = cheapest_detour(pb, u, w, ns, k - 1);
        if detour(pb, u, v, w) < prev.1 {
            assert(ns[k - 1] == cheapest_detour(pb, u, w, ns, k).0);
        } else {
            let t0 = choose|t: int| 0 <= t < k - 1 && ns[t] == prev.0;
            assert(ns[t0] == cheapest_detour(pb, u, w, ns, k).0);
        }
    } else {
        assert(cheapest_detour(pb, u, w, ns, 0) == (0usize, i64::MAX as int));
        assert(ns[0] == cheapest_detour(pb, u, w, ns, k).0);
    }
}

/// An insertion move of cluster `cg` at position `pos` of `r` exists exactly
/// when some member of `cg` fits: its detour between the neighbours
/// `r.0[pos - 1]` and `r.0[pos]` keeps the route at most `cap` long. The move
/// then visits, at `pos`, a member of least detour (no member has a smaller
/// one), and the route grows by that detour.
pub proof fn lemma_insert_move_cheapest(pb: &Problem, r: Route, cg: int, pos: int, cap: int)
    requires
        pb.wf(),
        pb.nodes_in_range(r.0),
        0 <= cg < pb.num_clusters,
        1 <= pos < r.0.len(),
    ensures
        ({
            let u = r.0[pos - 1] as int;
            let w = r.0[pos] as int;
            let ns = pb.members(cg);
            &&& insert_move(pb, r, cg, pos, cap) is Some <==> exists|t: int|
                0 <= t < ns.len() && route_len(pb, r) + detour(pb, u, #[trigger] ns[t] as int, w) <= cap
            &&& insert_move(pb, r, cg, pos, cap) matches Some(c) ==> {
                let v = c.0[pos];
                &&& ns.contains(v)
                &&& c == (r.0.insert(pos, v), r.1.insert(pos, cg as usize))
                &&& route_len(pb, c) == route_len(pb, r) + detour(pb, u, v as int, w)
                &&& route_len(pb, c) <= cap
                &&& forall|t: int| 0 <= t < ns.len() ==> detour(pb, u, v as int, w) <= detour(
                    pb,
                    u,
                    #[trigger] ns[t] as int,
                    w,
                )
            }
        }),
{
    let u = r.0[pos - 1] as int;
    let w = r.0[pos] as int;
    let ns = pb.members(cg);
    assert(pb.nodes_in_range(ns)) by {
        assert forall|q: int| 0 <= q < ns.len() implies #[trigger] ns[q] < pb.num_nodes by {
            assert(pb.nodes_of_cluster@[cg]@[q] < pb.num_nodes);
        }
    }
    if ns.len() > 0 {
        lemma_cheapest_detour_least(pb, u, w, ns, ns.len() as int);
        let b = cheapest_detour(pb, u, w, ns, ns.len() as int);
        let t0 = choose|t: int| 0 <= t < ns.len() && ns[t] == b.0;
        assert(ns.contains(b.0));
        lemma_insert_cost(pb, r.0, pos, b.0);
        if route_len(pb, r) + b.1 <= cap {
            let c = (r.0.insert(pos, b.0), r.1.insert(pos, cg as usize));
            assert(c.0[pos] == b.0);
        } else {
            assert forall|t: int| 0 <= t < ns.len() implies !(route_len(pb, r) + detour(
                pb,
                u,
                #[trigger] ns[t] as int,
                w,
            ) <= cap) by {}
        }
    }
}

proof fn lemma_cheapest_detour(pb: &Problem, u: int, w: int, ns: Seq<usize>, k: int)
    requires
        pb.wf(),
        0 <= k <= ns.len(),
        pb.nodes_in_range(ns),
    ensures
        k > 0 ==> cheapest_detour(pb, u, w, ns, k).0 < pb.num_nodes,
        k > 0 && 0 <= u < pb.num_nodes && 0 <= w < pb.num_nodes ==> ns.contains(
            cheapest_detour(pb, u, w, ns, k).0,
        ),
        k > 0 && 0 <= u < pb.num_nodes && 0 <= w < pb.num_nodes ==> cheapest_detour(
            pb,
            u,
            w,
            ns,
            k,
        ).1 == pb.arc(u, cheapest_detour(pb, u, w, ns, k).0 as int) + pb.arc(
            cheapest_detour(pb, u, w, ns, k).0 as int,
            w,
        ) - pb.arc(u, w),
    decreases k,
{
    if k > 0 {
        lemma_cheapest_detour(pb, u, w, ns, k - 1);
        assert(ns[k - 1] < pb.num_nodes);
        assert(ns.contains(ns[k - 1]));
        assert(cheapest_detour(pb, u, w, ns, 0).0 == 0);
        if 0 <= u < pb.num_nodes && 0 <= w < pb.num_nodes {
            let v = ns[k - 1] as int;
            crate::models::lemma_index_bound(u, v, pb.num_nodes as int);
            crate::models::lemma_index_bound(v, w, pb.num_nodes as int);
            crate::models::lemma_index_bound(u, w, pb.num_nodes as int);
            assert(pb.arc(u, v) + pb.arc(v, w) - pb.arc(u, w) < i64::MAX);
        }
    }
}

proof fn lemma_insert_move_ok(pb: &Problem, r: Route, cg: int, pos: int, cap: int)
    requires
        pb.wf(),
        route_ok(pb, r),
        0 < cg < pb.num_clusters,
        !r.1.contains(cg as usize),
        1 <= pos < r.0.len(),
    ensures
        insert_move(pb, r, cg, pos, cap) matches Some(c) ==> route_ok(pb, c) && route_len(pb, c)
            <= cap,
{
    let ns = pb.members(cg);
    if ns.len() > 0 {
        assert(pb.nodes_in_range(ns)) by {
            assert forall|q: int| 0 <= q < ns.len() implies #[trigger] ns[q] < pb.num_nodes by {
                assert(pb.nodes_of_cluster@[cg]@[q] < pb.num_nodes);
            }
        }
        lemma_cheapest_detour(pb, r.0[pos - 1] as int, r.0[pos] as int, ns, ns.len() as int);
        let b = cheapest_detour(pb, r.0[pos - 1] as int, r.0[pos] as int, ns, ns.len() as int);
        let nn = r.0.insert(pos, b.0);
        let nc = r.1.insert(pos, cg as usize);
        assert forall|k: int| 0 <= k < nn.len() implies #[trigger] nn[k] < pb.num_nodes by {
            if k < pos {
                assert(nn[k] == r.0[k]);
            } else if k > pos {
                assert(nn[k] == r.0[k - 1]);
            }
        }
        assert forall|k: int| 0 <= k < nc.len() implies #[trigger] nc[k] < pb.num_clusters by {
            if k < pos {
                assert(nc[k] == r.1[k]);
            } else if k > pos {
                assert(nc[k] == r.1[k - 1]);
            }
        }
        assert forall|k: int| 1 <= k < nc.len() - 1 implies #[trigger] nc[k] != 0 by {
            if k < pos {
                assert(nc[k] == r.1[k]);
            } else if k > pos {
                assert(nc[k] == r.1[k - 1]);
            }
        }
        assert forall|k1: int, k2: int| 1 <= k1 < k2 < nc.len() - 1 implies #[trigger] nc[k1]
            != #[trigger] nc[k2] by {
            if k1 == pos {
                assert(nc[k2] == r.1[k2 - 1]);
            } else if k2 == pos {
                assert(nc[k1] == r.1[k1]);
            } else {
                let f1 = if k1 < pos { k1 } else { k1 - 1 };
                let f2 = if k2 < pos { k2 } else { k2 - 1 };
                assert(nc[k1] == r.1[f1]);
                assert(nc[k2] == r.1[f2]);
            }
        }
        assert(nc[0] == r.1[0]);
        assert(nc.last() == r.1.last());
        lemma_insert_cost(pb, r.0, pos, b.0);
    }
}

proof fn lemma_insert_scan_ok(
    pb: &Problem,
    r: Route,
    cg: int,
    tabu: bool,
    g: (int, int),
    cap: int,
    rem: Option<usize>,
    best: Option<Move>,
    p: int,
)
    requires
        pb.wf(),
        route_ok(pb, r),
        0 < cg < pb.num_clusters,
        rem matches Some(rm) ==> rm < pb.num_clusters,
        !r.1.contains(cg as usize),
        p <= r.0.len(),
        best_ok(pb, cap, best),
    ensures
        best_ok(pb, cap, insert_scan(pb, r, cg, tabu, g, cap, rem, best, p)),
    decreases p,
{
    if p > 1 {
        lemma_insert_scan_ok(pb, r, cg, tabu, g, cap, rem, best, p - 1);
        lemma_insert_move_ok(pb, r, cg, p - 1, cap);
    }
}

proof fn lemma_insert_phase_ok(pb: &Problem, r: Route, ti: Seq<usize>, iter: int, g: (int, int), cap: int, c: int)
    requires
        pb.wf(),
        route_ok(pb, r),
        c <= pb.num_clusters,
    ensures
        best_ok(pb, cap, insert_phase(pb, r, ti, iter, g, cap, c)),
    decreases c,
{
    if c > 1 {
        lemma_insert_phase_ok(pb, r, ti, iter, g, cap, c - 1);
        if !r.1.contains((c - 1) as usize) {
            lemma_insert_scan_ok(
                pb,
                r,
                c - 1,
                ti[c - 1] > iter,
                g,
                cap,
                None,
                insert_phase(pb, r, ti, iter, g, cap, c - 1),
                r.0.len() as int,
            );
        }
    }
}

proof fn lemma_without_stop_ok(pb: &Problem, r: Route, po: int, cg: int)
    requires
        route_ok(pb, r),
        1 <= po < r.0.len() - 1,
        !r.1.contains(cg as usize),
    ensures
        route_ok(pb, without_stop(r, po)),
        !without_stop(r, po).1.contains(cg as usize),
{
    let w = without_stop(r, po);
    assert forall|k: int| 0 <= k < w.0.len() implies #[trigger] w.0[k] < pb.num_nodes by {
        if k < po {
            assert(w.0[k] == r.0[k]);
        } else {
            assert(w.0[k] == r.0[k + 1]);
        }
    }
    assert forall|k: int| 0 <= k < w.1.len() implies #[trigger] w.1[k] < pb.num_clusters by {
        if k < po {
            assert(w.1[k] == r.1[k]);
        } else {
            assert(w.1[k] == r.1[k + 1]);
        }
    }
    assert forall|k: int| 1 <= k < w.1.len() - 1 implies #[trigger] w.1[k] != 0 by {
        if k < po {
            assert(w.1[k] == r.1[k]);
        } else {
            assert(w.1[k] == r.1[k + 1]);
        }
    }
    assert forall|k1: int, k2: int| 1 <= k1 < k2 < w.1.len() - 1 implies #[trigger] w.1[k1]
        != #[trigger] w.1[k2] by {
        let f1 = if k1 < po { k1 } else { k1 + 1 };
        let f2 = if k2 < po { k2 } else { k2 + 1 };
        assert(w.1[k1] == r.1[f1]);
        assert(w.1[k2] == r.1[f2]);
    }
    if w.1.contains(cg as usize) {
        let k = choose|k: int| 0 <= k < w.1.len() && w.1[k] == cg as usize;
        if k < po {
            assert(r.1[k] == cg as usize);
        } else {
            assert(r.1[k + 1] == cg as usize);
        }
    }
    assert(w.1[0] == r.1[0]);
    assert(w.1.last() == r.1.last());
}

proof fn lemma_swap_scan_ok(
    pb: &Problem,
    r: Route,
    cg: int,
    ti: Seq<usize>,
    tr: Seq<usize>,
    iter: int,
    g: (int, int),
    cap: int,
    best: Option<Move>,
    q: int,
)
    requires
        pb.wf(),
        route_ok(pb, r),
        0 < cg < pb.num_clusters,
        !r.1.contains(cg as usize),
        q <= r.0.len() - 1,
        best_ok(pb, cap, best),
    ensures
        best_ok(pb, cap, swap_scan(pb, r, cg, ti, tr, iter, g, cap, best, q)),
    decreases q,
{
    if q > 1 {
        lemma_swap_scan_ok(pb, r, cg, ti, tr, iter, g, cap, best, q - 1);
        let po = q - 1;
        lemma_without_stop_ok(pb, r, po, cg);
        let inter = without_stop(r, po);
        assert(r.1[po] != 0 && r.1[po] < pb.num_clusters);
        lemma_insert_scan_ok(
            pb,
            inter,
            cg,
            ti[cg] > iter || tr[r.1[po] as int] > iter,
            g,
            cap,
            Some(r.1[po]),
            swap_scan(pb, r, cg, ti, tr, iter, g, cap, best, q - 1),
            inter.0.len() as int,
        );
    }
}

proof fn lemma_swap_phase_ok(
    pb: &Problem,
    r: Route,
    ti: Seq<usize>,
    tr: Seq<usize>,
    iter: int,
    g: (int, int),
    cap: int,
    best0: Option<Move>,
    c: int,
)
    requires
        pb.wf(),
        route_ok(pb, r),
        c <= pb.num_clusters,
        best_ok(pb, cap, best0),
    ensures
        best_ok(pb, cap, swap_phase(pb, r, ti, tr, iter, g, cap, best0, c)),
    decreases c,
{
    if c > 1 {
        lemma_swap_phase_ok(pb, r, ti, tr, iter, g, cap, best0, c - 1);
        if !r.1.contains((c - 1) as usize) {
            lemma_swap_scan_ok(
                pb,
                r,
                c - 1,
                ti,
                tr,
                iter,
                g,
                cap,
                swap_phase(pb, r, ti, tr, iter, g, cap, best0, c - 1),
                r.0.len() - 1,
            );
        }
    }
}

/// Every move of the neighbourhood keeps the shape of the route and fits the
/// budget: the result of `explore_neighborhood` on a route of that shape has
/// that shape and a length within the budget.
pub proof fn lemma_neighborhood_keeps_shape(
    pb: &Problem,
    r: Route,
    ti: Seq<usize>,
    tr: Seq<usize>,
    iter: int,
    g: (int, int),
    cap: int,
)
    requires
        pb.wf(),
        route_ok(pb, r),
    ensures
        best_ok(
            pb,
            cap,
            swap_phase(
                pb,
                r,
                ti,
                tr,
                iter,
                g,
                cap,
                insert_phase(pb, r, ti, iter, g, cap, pb.num_clusters as int),
                pb.num_clusters as int,
            ),
        ),
{
    lemma_insert_phase_ok(pb, r, ti, iter, g, cap, pb.num_clusters as int);
    lemma_swap_phase_ok(
        pb,
        r,
        ti,
        tr,
        iter,
        g,
        cap,
        insert_phase(pb, r, ti, iter, g, cap, pb.num_clusters as int),
        pb.num_clusters as int,
    );
}

/// The positions `select` takes its entries from, increasing.
proof fn lemma_select_map(s: Seq<usize>, keep: Seq<bool>) -> (f: Seq<int>)
    requires
        s.len() <= keep.len(),
    ensures
        f.len() == select(s, keep).len(),
        forall|t: int| 0 <= t < f.len() ==> 0 <= #[trigger] f[t] < s.len() && keep[f[t]],
        forall|t: int| 0 <= t < f.len() ==> select(s, keep)[t] == s[#[trigger] f[t]],
        forall|t1: int, t2: int| 0 <= t1 < t2 < f.len() ==> #[trigger] f[t1] < #[trigger] f[t2],
        forall|p: int| 0 <= p < s.len() && keep[p] ==> exists|t: int| 0 <= t < f.len() && #[trigger] f[t] == p,
    decreases s.len(),
{
    if s.len() == 0 {
        Seq::empty()
    } else {
        let d = s.drop_last();
        let g = lemma_select_map(d, keep);
        let last = s.len() - 1;
        let f = if keep[last] { g.push(last) } else { g };
        assert forall|t: int| 0 <= t < f.len() implies select(s, keep)[t] == s[#[trigger] f[t]] by {
            if t < g.len() {
                assert(select(s, keep)[t] == select(d, keep)[t]);
                assert(d[g[t]] == s[g[t]]);
            }
        }
        assert forall|p: int| 0 <= p < s.len() && keep[p] implies exists|t: int|
            0 <= t < f.len() && #[trigger] f[t] == p by {
            if p < last {
                let t = choose|t: int| 0 <= t < g.len() && #[trigger] g[t] == p;
                assert(f[t] == p);
            } else {
                assert(f[f.len() - 1] == p);
            }
        }
        f
    }
}

/// Selecting stops, the first and last kept, keeps the shape of `route_ok`.
proof fn lemma_select_ok(pb: &Problem, r: Route, keep: Seq<bool>)
    requires
        route_ok(pb, r),
        keep.len() == r.0.len(),
        keep[0],
        keep[r.0.len() - 1],
    ensures
        route_ok(pb, (select(r.0, keep), select(r.1, keep))),
{
    let f0 = lemma_select_map(r.0, keep);
    let f1 = lemma_select_map(r.1, keep);
    lemma_select(r.0, keep);
    lemma_select(r.1, keep);
    let s0 = select(r.0, keep);
    let s1 = select(r.1, keep);
    // both selections take the same positions
    assert(f0.len() == f1.len()) by {
        lemma_select_len(r.0, r.1, keep);
    }
    assert forall|t: int| 0 <= t < s0.len() implies #[trigger] s0[t] < pb.num_nodes by {
        assert(s0[t] == r.0[f0[t]]);
    }
    assert forall|t: int| 0 <= t < s1.len() implies #[trigger] s1[t] < pb.num_clusters by {
        assert(s1[t] == r.1[f1[t]]);
    }
    let m = s1.len();
    assert(f1[0] == 0) by {
        let t = choose|t: int| 0 <= t < f1.len() && #[trigger] f1[t] == 0;
        if t > 0 {
            assert(f1[0] < f1[t]);
        }
    }
    assert(f1[m - 1] == r.1.len() - 1) by {
        let t = choose|t: int| 0 <= t < f1.len() && #[trigger] f1[t] == r.1.len() - 1;
        if t < m - 1 {
            assert(f1[t] < f1[m - 1]);
        }
    }
    assert forall|t: int| 1 <= t < m - 1 implies #[trigger] s1[t] != 0 by {
        assert(f1[0] < f1[t]);
        assert(f1[t] < f1[m - 1]);
        assert(s1[t] == r.1[f1[t]]);
    }
    assert forall|t1: int, t2: int| 1 <= t1 < t2 < m - 1 implies #[trigger] s1[t1] != #[trigger] s1[t2] by {
        assert(f1[0] < f1[t1]);
        assert(f1[t1] < f1[t2]);
        assert(f1[t2] < f1[m - 1]);
        assert(s1[t1] == r.1[f1[t1]]);
        assert(s1[t2] == r.1[f1[t2]]);
    }
    assert(s1[0] == r.1[0]);
    assert(s1.last() == r.1.last());
}

proof fn lemma_select_len(a: Seq<usize>, b: Seq<usize>, keep: Seq<bool>)
    requires
        a.len() == b.len(),
        a.len() <= keep.len(),
    ensures
        select(a, keep).len() == select(b, keep).len(),
    decreases a.len(),
{
    if a.len() > 0 {
        lemma_select_len(a.drop_last(), b.drop_last(), keep);
    }
}

/// The state of a tabu search between iterations.
pub struct TabuState {
    pub current: Solution,
    pub best: Solution,
    pub tabu_insert: Vec<usize>,
    pub tabu_remove: Vec<usize>,
    pub iter_without_improvement: usize,
    pub total_iters: usize,
    pub eval_count: u64,
    pub rng: XorShift,
}

/// `a` beats `b` by the totals they keep: more profit, or as much profit and
/// shorter.
pub open spec fn beats_totals(a: &Solution, b: &Solution) -> bool {
    a.total_profit > b.total_profit || (a.total_profit == b.total_profit && a.total_cost
        < b.total_cost)
}

/// The invariant of the tabu search: the current and the best route have the
/// shape of `route_ok`, are `assigned` and keep accurate totals, and the
/// current one does not beat the best one; the tabu tables have an entry for
/// each cluster.
pub open spec fn tabu_ok(pb: &Problem, st: &TabuState) -> bool {
    &&& route_ok(pb, route_of(&st.current))
    &&& assigned(pb, route_of(&st.current))
    &&& accurate(pb, &st.current)
    &&& route_ok(pb, route_of(&st.best))
    &&& assigned(pb, route_of(&st.best))
    &&& shaped(pb, &st.best)
    &&& !beats_totals(&st.current, &st.best)
    &&& st.tabu_insert@.len() >= pb.num_clusters
    &&& st.tabu_remove@.len() >= pb.num_clusters
}

/// A best route of a tabu search within the budget is feasible on an instance
/// whose clusters partition the nodes.
pub proof fn lemma_tabu_best_feasible(pb: &Problem, st: &TabuState)
    requires
        pb.wf(),
        pb.partitioned(),
        tabu_ok(pb, st),
        st.best.total_cost <= pb.t_max,
    ensures
        feasible(pb, &st.best),
{
    let nodes = st.best.tour_nodes@;
    let cl = st.best.tour_clusters@;
    assert forall|k: int| 0 <= k < nodes.len() implies #[trigger] nodes[k] < pb.num_nodes
        && cl[k] < pb.num_clusters && pb.cluster_of_node@[nodes[k] as int] == cl[k] by {
        let c = cl[k] as int;
        assert(pb.members(c).contains(nodes[k]));
        let t = choose|t: int| 0 <= t < pb.members(c).len() && pb.members(c)[t] == nodes[k];
        assert(pb.cluster_of_node@[pb.members(c)[t] as int] == c);
    }
}

/// Dropping stops never adds profit.
proof fn lemma_select_profit(pb: &Problem, s: Seq<usize>, keep: Seq<bool>)
    requires
        s.len() <= keep.len(),
    ensures
        pb.clusters_profit(select(s, keep)) <= pb.clusters_profit(s),
    decreases s.len(),
{
    if s.len() > 0 {
        let a = select(s.drop_last(), keep);
        lemma_select_profit(pb, s.drop_last(), keep);
        if keep[s.len() - 1] {
            let t = a + seq![s.last()];
            assert(t.drop_last() =~= a);
            assert(t.last() == s.last());
        } else {
            assert(a + Seq::<usize>::empty() =~= a);
        }
    }
}

/// A route whose last stop is kept by a selection earns at most what it
/// earned before.
proof fn lemma_select_route_profit(pb: &Problem, r: Route, keep: Seq<bool>)
    requires
        r.1.len() == keep.len(),
        r.1.len() >= 1,
        keep[r.1.len() - 1],
    ensures
        route_profit(pb, (select(r.0, keep), select(r.1, keep))) <= route_profit(pb, r),
{
    let s = r.1;
    assert(select(s, keep) == select(s.drop_last(), keep) + seq![s.last()]);
    assert(select(s, keep).drop_last() =~= select(s.drop_last(), keep));
    lemma_select_profit(pb, s.drop_last(), keep);
}

/// A route of the shape of `route_ok` visits each cluster at most once, so it is
/// `well_shaped` when its totals are accurate.
proof fn lemma_route_ok_room(pb: &Problem, sol: &Solution)
    requires
        pb.wf(),
        route_ok(pb, route_of(sol)),
        accurate(pb, sol),
    ensures
        well_shaped(pb, sol),
        forall|k: int|
            1 <= k < sol.tour_clusters@.len() - 1 ==> #[trigger] sol.tour_clusters@[k] != 0,
{
    let cl = sol.tour_clusters@;
    let len = cl.len();
    let inner = cl.subrange(1, len - 1);
    assert forall|j: int| 0 <= j < inner.len() implies #[trigger] inner[j] < pb.num_clusters by {
        assert(inner[j] == cl[j + 1]);
    }
    assert forall|j1: int, j2: int| 0 <= j1 < j2 < inner.len() implies #[trigger] inner[j1]
        != #[trigger] inner[j2] by {
        assert(inner[j1] == cl[j1 + 1]);
        assert(inner[j2] == cl[j2 + 1]);
    }
    crate::feasibility::lemma_distinct_bounded(inner, pb.num_clusters as nat);
}

/// The route a tabu iteration moves to, before any improvement: the best move
/// `b2` when there is one, else the shaken route (a route of at most three
/// stops is not shaken).
pub open spec fn moved_route(
    r: Route,
    b2: Option<Move>,
    shake_min: int,
    shake_max: int,
    state: u64,
) -> Route {
    match b2 {
        Some(b) => b.0,
        None => if r.1.len() > 3 {
            let plan = shake_plan(r.1.len() as int, shake_min, shake_max, state);
            (select(r.0, plan.1), select(r.1, plan.1))
        } else {
            r
        },
    }
}

/// A route improved by `tour_improvement` from its exact length.
pub open spec fn improved(pb: &Problem, r: Route) -> Route {
    improve_fix(pb, r.0, r.1, pb.route_cost(r.0))
}

/// One iteration of the tabu search, after the stopping tests: explores the
/// neighbourhood of the current route against the best route so far; takes its
/// best move and makes it tabu for a random tenure in `1..=l_lambda` (the
/// removal of the inserted cluster, `tabu_remove`, and after an exchange also
/// the re-insertion of the removed cluster, `tabu_insert`), or, when
/// there is none, shakes the route with the raw bounds `shake_min..shake_max`;
/// every `alpha` iterations improves the route locally (one evaluation); when
/// the route beats the best one it is improved (one evaluation) and becomes the
/// best, else the count of iterations without improvement grows. A best route
/// within the budget stays within it.
pub fn tabu_step(
    pb: &Problem,
    st: &mut TabuState,
    l_lambda: u64,
    alpha: usize,
    shake_min: usize,
    shake_max: usize,
)
    requires
        pb.wf(),
        tabu_ok(pb, old(st)),
        alpha > 0,
        old(st).eval_count + insert_work(pb, route_of(&old(st).current), pb.num_clusters as int)
            + swap_work(pb, route_of(&old(st).current), pb.num_clusters as int) + 2 <= u64::MAX,
        old(st).total_iters + 1 + l_lambda + 1 <= usize::MAX,
        old(st).iter_without_improvement < usize::MAX,
    ensures
        tabu_ok(pb, final(st)),
        final(st).total_iters == old(st).total_iters + 1,
        ({
            let r = route_of(&old(st).current);
            let iter = old(st).total_iters + 1;
            let g = (old(st).best.total_profit as int, old(st).best.total_cost as int);
            let cap = pb.t_max as int;
            let b1 = insert_phase(pb, r, old(st).tabu_insert@, iter, g, cap, pb.num_clusters as int);
            let b2 = swap_phase(
                pb,
                r,
                old(st).tabu_insert@,
                old(st).tabu_remove@,
                iter,
                g,
                cap,
                b1,
                pb.num_clusters as int,
            );
            &&& match b2 {
                Some(b) => {
                    let tenure = if l_lambda == 0 {
                        1
                    } else {
                        1 + xorshift_step(old(st).rng.state) % l_lambda
                    };
                    &&& final(st).tabu_remove@ == old(st).tabu_remove@.update(
                        b.1 as int,
                        (iter + tenure) as usize,
                    )
                    &&& b.2 is None ==> final(st).tabu_insert@ == old(st).tabu_insert@
                    &&& b.2 matches Some(rm) ==> final(st).tabu_insert@ == old(st).tabu_insert@.update(
                        rm as int,
                        (iter + tenure) as usize,
                    )
                    &&& final(st).rng.state == if l_lambda == 0 {
                        old(st).rng.state
                    } else {
                        xorshift_step(old(st).rng.state)
                    }
                    &&& final(st).current.tour_clusters@.to_multiset() == b.0.1.to_multiset()
                },
                None => {
                    let plan = shake_plan(
                        r.1.len() as int,
                        shake_min as int,
                        shake_max as int,
                        old(st).rng.state,
                    );
                    &&& final(st).tabu_remove@ == old(st).tabu_remove@
                    &&& final(st).tabu_insert@ == old(st).tabu_insert@
                    &&& r.1.len() > 3 ==> final(st).rng.state == plan.2
                        && final(st).current.tour_clusters@.to_multiset() == select(
                        r.1,
                        plan.1,
                    ).to_multiset()
                    &&& r.1.len() <= 3 ==> final(st).rng.state == old(st).rng.state
                },
            }
            &&& final(st).eval_count == old(st).eval_count + insert_work(pb, r, pb.num_clusters as int)
                + swap_work(pb, r, pb.num_clusters as int) + (if iter % (alpha as int) == 0 {
                1int
            } else {
                0
            }) + (if final(st).iter_without_improvement == 0 {
                1int
            } else {
                0
            })
        }),
        (final(st).best.same(&old(st).best) && final(st).iter_without_improvement
            == old(st).iter_without_improvement + 1) || (final(st).iter_without_improvement == 0
            && final(st).best.same(&final(st).current)),
        ({
            let r = route_of(&old(st).current);
            let iter = old(st).total_iters + 1;
            let g = (old(st).best.total_profit as int, old(st).best.total_cost as int);
            let cap = pb.t_max as int;
            let b1 = insert_phase(pb, r, old(st).tabu_insert@, iter, g, cap, pb.num_clusters as int);
            let b2 = swap_phase(
                pb,
                r,
                old(st).tabu_insert@,
                old(st).tabu_remove@,
                iter,
                g,
                cap,
                b1,
                pb.num_clusters as int,
            );
            let m = moved_route(r, b2, shake_min as int, shake_max as int, old(st).rng.state);
            let a1 = if iter % (alpha as int) == 0 {
                improved(pb, m)
            } else {
                m
            };
            let better = route_profit(pb, a1) > old(st).best.total_profit || (route_profit(pb, a1)
                == old(st).best.total_profit && route_len(pb, a1) < old(st).best.total_cost);
            &&& route_of(&final(st).current) == if better {
                improved(pb, a1)
            } else {
                a1
            }
            &&& better ==> final(st).best.same(&final(st).current)
            &&& !better ==> final(st).best.same(&old(st).best)
            &&& final(st).iter_without_improvement == 0 <==> better
        }),
        final(st).best.same(&old(st).best) || beats_totals(&final(st).best, &old(st).best),
        old(st).best.total_cost <= pb.t_max ==> final(st).best.total_cost <= pb.t_max,
        old(st).best.total_cost <= pb.t_max && pb.partitioned() ==> feasible(pb, &final(st).best),
{
    let ghost g = (st.best.total_profit as int, st.best.total_cost as int);
    let ghost cap = pb.t_max as int;
    proof {
        lemma_route_ok_room(pb, &st.current);
        lemma_neighborhood_keeps_assignment(
            pb,
            route_of(&st.current),
            st.tabu_insert@,
            st.tabu_remove@,
            st.total_iters + 1,
            g,
            cap,
        );
        lemma_neighborhood_keeps_shape(
            pb,
            route_of(&st.current),
            st.tabu_insert@,
            st.tabu_remove@,
            st.total_iters + 1,
            g,
            cap,
        );
    }
    st.total_iters = st.total_iters + 1;
    let best_profit = st.best.total_profit;
    let best_cost = st.best.total_cost;
    proof {
        lemma_route_cost_bound(pb, st.current.tour_nodes@);
        crate::models::lemma_clusters_profit_bound(pb, st.current.tour_clusters@.drop_last());
        assert(st.current.tour_nodes@.len() <= MAX_TOUR);
        assert((st.current.tour_nodes@.len() - 1) * MAX_DIST <= MAX_TOUR * MAX_DIST) by (nonlinear_arith)
            requires
                st.current.tour_nodes@.len() <= MAX_TOUR,
        ;
        assert((st.current.tour_clusters@.len() - 1) * MAX_PROFIT <= MAX_TOUR * MAX_PROFIT) by (nonlinear_arith)
            requires
                st.current.tour_clusters@.len() <= MAX_TOUR,
        ;
    }
    let neighbor = explore_neighborhood(
        pb,
        &st.current,
        st.tabu_insert.as_slice(),
        st.tabu_remove.as_slice(),
        st.total_iters,
        best_profit,
        best_cost,
        &mut st.eval_count,
    );
    let ghost before = st.current;
    let mut used_move_cluster: usize = 0;
    let mut removed_cluster: Option<usize> = None;
    match neighbor {
        Some((cand_sol, cluster_changed, removed)) => {
            st.current = cand_sol;
            used_move_cluster = cluster_changed;
            removed_cluster = removed;
        },
        None => {
            let shaken = shake_with_bounds(&st.current, shake_min, shake_max, &mut st.rng, pb);
            proof {
                let len = before.tour_clusters@.len();
                if len > 3 {
                    let plan = shake_plan(len as int, shake_min as int, shake_max as int, old(st).rng.state);
                    lemma_shake_plan_mask(len as int, shake_min as int, shake_max as int, old(st).rng.state);
                    lemma_select_ok(pb, route_of(&before), plan.1);
                    lemma_select_len(before.tour_nodes@, before.tour_clusters@, plan.1);
                    lemma_select_assigned(pb, route_of(&before), plan.1);
                }
            }
            st.current = shaken;
        },
    }
    let ghost after_move = st.current;
    proof {
        let len = before.tour_clusters@.len();
        if len > 3 && neighbor is None {
            let plan = shake_plan(len as int, shake_min as int, shake_max as int, old(st).rng.state);
            lemma_shake_plan_mask(len as int, shake_min as int, shake_max as int, old(st).rng.state);
            lemma_select_route_profit(pb, route_of(&before), plan.1);
        }
        assert(route_len(pb, route_of(&after_move)) <= pb.t_max || route_profit(
            pb,
            route_of(&after_move),
        ) <= old(st).best.total_profit);
    }
    if used_move_cluster != 0 {
        let tenure = st.rng.rand_tenure(l_lambda);
        st.tabu_remove.set(used_move_cluster, st.total_iters + tenure);
        if let Some(rm) = removed_cluster {
            st.tabu_insert.set(rm, st.total_iters + tenure);
        }
    }
    proof {
        lemma_route_ok_room(pb, &st.current);
    }
    if st.total_iters % alpha == 0 {
        let ghost pre = st.current;
        proof {
            crate::phase1::lemma_assignment_stops(pb, pre.tour_clusters@, pre.tour_nodes@);
        }
        tour_improvement(pb, &mut st.current);
        proof {
            crate::phase1::lemma_assignment_stops(pb, st.current.tour_clusters@, st.current.tour_nodes@);
        }
        st.eval_count = st.eval_count + 1;
    }
    let ghost judged = st.current;
    proof {
        assert(assigned(pb, route_of(&judged)));
        assert(accurate(pb, &judged));
        assert(route_len(pb, route_of(&judged)) <= pb.t_max || route_profit(pb, route_of(&judged))
            <= old(st).best.total_profit);
    }
    let global_better_profit = st.current.total_profit > st.best.total_profit;
    let global_tie_breaker = st.current.total_profit == st.best.total_profit
        && st.current.total_cost < st.best.total_cost;
    if global_better_profit || global_tie_breaker {
        proof {
            assert(old(st).best.total_cost <= pb.t_max ==> judged.total_cost <= pb.t_max);
            crate::phase1::lemma_assignment_stops(pb, judged.tour_clusters@, judged.tour_nodes@);
        }
        tour_improvement(pb, &mut st.current);
        proof {
            crate::phase1::lemma_assignment_stops(pb, st.current.tour_clusters@, st.current.tour_nodes@);
            assert(st.current.total_profit == judged.total_profit);
            assert(st.current.total_cost <= judged.total_cost);
        }
        st.eval_count = st.eval_count + 1;
        st.best = st.current.clone();
        st.iter_without_improvement = 0;
    } else {
        st.iter_without_improvement = st.iter_without_improvement + 1;
    }
    proof {
        if pb.partitioned() && old(st).best.total_cost <= pb.t_max {
            lemma_tabu_best_feasible(pb, st);
        }
    }
}

/// Whether `v` is a member of cluster `c`.
fn is_member(pb: &Problem, c: usize, v: usize) -> (r: bool)
    requires
        pb.wf(),
        c < pb.num_clusters,
    ensures
        r == pb.members(c as int).contains(v),
{
    let ns = &pb.nodes_of_cluster[c];
    let mut k: usize = 0;
    while k < ns.len()
        invariant
            pb.wf(),
            c < pb.num_clusters,
            ns@ == pb.members(c as int),
            k <= ns@.len(),
            forall|j: int| 0 <= j < k ==> ns@[j] != v,
        decreases ns@.len() - k,
    {
        if ns[k] == v {
            assert(ns@[k as int] == v);
            return true;
        }
        k = k + 1;
    }
    false
}

/// Whether the route of `sol` has the shape of `route_ok` and is `assigned`.
fn route_checks(pb: &Problem, sol: &Solution) -> (r: bool)
    requires
        pb.wf(),
    ensures
        r == (route_ok(pb, route_of(sol)) && assigned(pb, route_of(sol))),
{
    let nodes = &sol.tour_nodes;
    let cl = &sol.tour_clusters;
    let len = nodes.len();
    if len != cl.len() || len < 2 {
        return false;
    }
    if nodes[0] != 0 || nodes[len - 1] != 0 || cl[0] != 0 || cl[len - 1] != 0 {
        return false;
    }
    let mut k: usize = 0;
    while k < len
        invariant
            pb.wf(),
            nodes@ == sol.tour_nodes@,
            cl@ == sol.tour_clusters@,
            len == nodes@.len(),
            len == cl@.len(),
            k <= len,
            forall|j: int| 0 <= j < k ==> #[trigger] nodes@[j] < pb.num_nodes && cl@[j]
                < pb.num_clusters && pb.members(cl@[j] as int).contains(nodes@[j]),
        decreases len - k,
    {
        if nodes[k] >= pb.num_nodes || cl[k] >= pb.num_clusters {
            proof {
                assert(!pb.nodes_in_range(nodes@) || !pb.clusters_in_range(cl@)) by {
                    if nodes@[k as int] >= pb.num_nodes {
                        assert(!(nodes@[k as int] < pb.num_nodes));
                    } else {
                        assert(!(cl@[k as int] < pb.num_clusters));
                    }
                }
            }
            return false;
        }
        if !is_member(pb, cl[k], nodes[k]) {
            proof {
                assert(!stops_in_clusters(pb, nodes@, cl@)) by {
                    assert(!pb.members(cl@[k as int] as int).contains(nodes@[k as int]));
                }
            }
            return false;
        }
        k = k + 1;
    }
    proof {
        assert(pb.clusters_in_range(cl@)) by {
            assert forall|j: int| 0 <= j < len implies #[trigger] cl@[j] < pb.num_clusters by {
                assert(nodes@[j] < pb.num_nodes);
            }
        }
        assert(pb.nodes_in_range(nodes@));
        assert(stops_in_clusters(pb, nodes@, cl@)) by {
            assert forall|j: int| 0 <= j < len implies pb.members(cl@[j] as int).contains(
                #[trigger] nodes@[j],
            ) by {}
        }
    }
    let mut seen: Vec<bool> = vec![false; pb.num_clusters];
    let mut k: usize = 1;
    while k < len - 1
        invariant
            pb.wf(),
            nodes@ == sol.tour_nodes@,
            cl@ == sol.tour_clusters@,
            len == nodes@.len(),
            len == cl@.len(),
            2 <= len,
            1 <= k <= len - 1,
            seen@.len() == pb.num_clusters,
            pb.clusters_in_range(cl@),
            pb.nodes_in_range(nodes@),
            stops_in_clusters(pb, nodes@, cl@),
            nodes@[0] == 0 && nodes@.last() == 0 && cl@[0] == 0 && cl@.last() == 0,
            forall|c: int| 0 <= c < pb.num_clusters ==> (#[trigger] seen@[c] <==> exists|j: int|
                1 <= j < k && cl@[j] == c),
            forall|j: int| 1 <= j < k ==> #[trigger] cl@[j] != 0,
            forall|j1: int, j2: int| 1 <= j1 < j2 < k ==> #[trigger] cl@[j1] != #[trigger] cl@[j2],
        decreases len - k,
    {
        let c = cl[k];
        if c == 0 || seen[c] {
            proof {
                assert(!inner_distinct(cl@)) by {
                    if c != 0 {
                        let j = choose|j: int| 1 <= j < k && cl@[j] == c;
                        assert(cl@[j] == cl@[k as int]);
                    } else {
                        assert(cl@[k as int] == 0);
                    }
                }
            }
            return false;
        }
        proof {
            assert(!seen@[c as int]);
            assert forall|j: int| 1 <= j < k implies #[trigger] cl@[j] != c by {
                if cl@[j] == c {
                    assert(exists|j2: int| 1 <= j2 < k && cl@[j2] == c);
                }
            }
        }
        seen.set(c, true);
        proof {
            assert forall|c2: int| 0 <= c2 < pb.num_clusters implies (#[trigger] seen@[c2]
                <==> exists|j: int| 1 <= j < k + 1 && cl@[j] == c2) by {
                if c2 == c {
                    assert(cl@[k as int] == c2);
                } else if exists|j: int| 1 <= j < k + 1 && cl@[j] == c2 {
                    let j = choose|j: int| 1 <= j < k + 1 && cl@[j] == c2;
                    assert(j < k);
                }
            }
        }
        k = k + 1;
    }
    true
}

/// The route of `sol` can start a tabu search: it has the shape of `route_ok`
/// and is `assigned`.
pub open spec fn tabu_start_ok(pb: &Problem, sol: &Solution) -> bool {
    &&& route_ok(pb, route_of(sol))
    &&& assigned(pb, route_of(sol))
}

/// The state a tabu search starts from: the route of `sol`, with its totals
/// computed afresh, as both the current and the best route, tabu tables of
/// zeros, no iterations or evaluations yet and the generator seeded with 42;
/// `None` when `sol` is not `tabu_start_ok`.
pub fn tabu_start(pb: &Problem, sol: Solution) -> (res: Option<TabuState>)
    requires
        pb.wf(),
    ensures
        res is Some <==> tabu_start_ok(pb, &sol),
        res matches Some(st) ==> {
            &&& tabu_ok(pb, &st)
            &&& route_of(&st.current) == route_of(&sol)
            &&& accurate(pb, &st.current)
            &&& st.best.same(&st.current)
            &&& st.tabu_insert@ == Seq::new(pb.num_clusters as nat, |i: int| 0usize)
            &&& st.tabu_remove@ == Seq::new(pb.num_clusters as nat, |i: int| 0usize)
            &&& st.iter_without_improvement == 0
            &&& st.total_iters == 0
            &&& st.eval_count == 0
            &&& st.rng.state == 42
        },
{
    if !route_checks(pb, &sol) {
        return None;
    }
    let mut current = sol;
    proof {
        let cl = current.tour_clusters@;
        let inner = cl.subrange(1, cl.len() - 1);
        assert forall|j: int| 0 <= j < inner.len() implies #[trigger] inner[j] < pb.num_clusters by {
            assert(inner[j] == cl[j + 1]);
        }
        assert forall|j1: int, j2: int| 0 <= j1 < j2 < inner.len() implies #[trigger] inner[j1]
            != #[trigger] inner[j2] by {
            assert(inner[j1] == cl[j1 + 1]);
            assert(inner[j2] == cl[j2 + 1]);
        }
        crate::feasibility::lemma_distinct_bounded(inner, pb.num_clusters as nat);
    }
    current.recompute(pb);
    let best = current.clone();
    let st = TabuState {
        current,
        best,
        tabu_insert: vec![0usize; pb.num_clusters],
        tabu_remove: vec![0usize; pb.num_clusters],
        iter_without_improvement: 0,
        total_iters: 0,
        eval_count: 0,
        rng: XorShift::new(42),
    };
    proof {
        assert(st.tabu_insert@ =~= Seq::new(pb.num_clusters as nat, |i: int| 0usize));
        assert(st.tabu_remove@ =~= Seq::new(pb.num_clusters as nat, |i: int| 0usize));
    }
    Some(st)
}

/// The route runs from the depot node back to the depot node and each of its
/// stops is a member of the cluster it stands for.
pub open spec fn assigned(pb: &Problem, r: Route) -> bool {
    &&& r.0.len() == r.1.len()
    &&& r.0.len() >= 2
    &&& r.0[0] == 0
    &&& r.0.last() == 0
    &&& pb.clusters_in_range(r.1)
    &&& stops_in_clusters(pb, r.0, r.1)
}

/// The best so far, if any, is `assigned`.
pub open spec fn best_assigned(pb: &Problem, b: Option<Move>) -> bool {
    b matches Some(x) ==> assigned(pb, x.0)
}

/// A member of a cluster of the instance is a node of the instance.
proof fn lemma_member_in_range(pb: &Problem, c: int, v: usize)
    requires
        pb.wf(),
        0 <= c < pb.num_clusters,
        pb.members(c).contains(v),
    ensures
        v < pb.num_nodes,
{
    let t = choose|t: int| 0 <= t < pb.members(c).len() && pb.members(c)[t] == v;
    assert(pb.nodes_of_cluster@[c]@[t] < pb.num_nodes);
}

proof fn lemma_insert_move_assigned(pb: &Problem, r: Route, cg: int, pos: int, cap: int)
    requires
        pb.wf(),
        assigned(pb, r),
        0 <= cg < pb.num_clusters,
        1 <= pos < r.0.len(),
    ensures
        insert_move(pb, r, cg, pos, cap) matches Some(c) ==> assigned(pb, c),
{
    let ns = pb.members(cg);
    if ns.len() > 0 {
        assert(pb.nodes_in_range(ns)) by {
            assert forall|q: int| 0 <= q < ns.len() implies #[trigger] ns[q] < pb.num_nodes by {
                assert(pb.nodes_of_cluster@[cg]@[q] < pb.num_nodes);
            }
        }
        lemma_cheapest_detour(pb, r.0[pos - 1] as int, r.0[pos] as int, ns, ns.len() as int);
        let b = cheapest_detour(pb, r.0[pos - 1] as int, r.0[pos] as int, ns, ns.len() as int);
        lemma_member_in_range(pb, r.1[pos - 1] as int, r.0[pos - 1]);
        lemma_member_in_range(pb, r.1[pos] as int, r.0[pos]);
        let nn = r.0.insert(pos, b.0);
        let nc = r.1.insert(pos, cg as usize);
        assert forall|k: int| 0 <= k < nn.len() implies pb.members(nc[k] as int).contains(
            #[trigger] nn[k],
        ) by {
            if k < pos {
                assert(nn[k] == r.0[k] && nc[k] == r.1[k]);
            } else if k > pos {
                assert(nn[k] == r.0[k - 1] && nc[k] == r.1[k - 1]);
            }
        }
        assert forall|k: int| 0 <= k < nc.len() implies #[trigger] nc[k] < pb.num_clusters by {
            if k < pos {
                assert(nc[k] == r.1[k]);
            } else if k > pos {
                assert(nc[k] == r.1[k - 1]);
            }
        }
        assert(nn[0] == r.0[0]);
        assert(nn.last() == r.0.last());
    }
}

proof fn lemma_insert_scan_assigned(
    pb: &Problem,
    r: Route,
    cg: int,
    tabu: bool,
    g: (int, int),
    cap: int,
    rem: Option<usize>,
    best: Option<Move>,
    p: int,
)
    requires
        pb.wf(),
        assigned(pb, r),
        0 <= cg < pb.num_clusters,
        p <= r.0.len(),
        best_assigned(pb, best),
    ensures
        best_assigned(pb, insert_scan(pb, r, cg, tabu, g, cap, rem, best, p)),
    decreases p,
{
    if p > 1 {
        lemma_insert_scan_assigned(pb, r, cg, tabu, g, cap, rem, best, p - 1);
        lemma_insert_move_assigned(pb, r, cg, p - 1, cap);
    }
}

proof fn lemma_insert_phase_assigned(
    pb: &Problem,
    r: Route,
    ti: Seq<usize>,
    iter: int,
    g: (int, int),
    cap: int,
    c: int,
)
    requires
        pb.wf(),
        assigned(pb, r),
        c <= pb.num_clusters,
    ensures
        best_assigned(pb, insert_phase(pb, r, ti, iter, g, cap, c)),
    decreases c,
{
    if c > 1 {
        lemma_insert_phase_assigned(pb, r, ti, iter, g, cap, c - 1);
        if !r.1.contains((c - 1) as usize) {
            lemma_insert_scan_assigned(
                pb,
                r,
                c - 1,
                ti[c - 1] > iter,
                g,
                cap,
                None,
                insert_phase(pb, r, ti, iter, g, cap, c - 1),
                r.0.len() as int,
            );
        }
    }
}

proof fn lemma_without_stop_assigned(pb: &Problem, r: Route, po: int)
    requires
        assigned(pb, r),
        1 <= po < r.0.len() - 1,
    ensures
        assigned(pb, without_stop(r, po)),
{
    let w = without_stop(r, po);
    assert forall|k: int| 0 <= k < w.0.len() implies pb.members(w.1[k] as int).contains(
        #[trigger] w.0[k],
    ) by {
        if k < po {
            assert(w.0[k] == r.0[k] && w.1[k] == r.1[k]);
        } else {
            assert(w.0[k] == r.0[k + 1] && w.1[k] == r.1[k + 1]);
        }
    }
    assert forall|k: int| 0 <= k < w.1.len() implies #[trigger] w.1[k] < pb.num_clusters by {
        if k < po {
            assert(w.1[k] == r.1[k]);
        } else {
            assert(w.1[k] == r.1[k + 1]);
        }
    }
    assert(w.0[0] == r.0[0]);
    assert(w.0.last() == r.0.last());
}

proof fn lemma_swap_scan_assigned(
    pb: &Problem,
    r: Route,
    cg: int,
    ti: Seq<usize>,
    tr: Seq<usize>,
    iter: int,
    g: (int, int),
    cap: int,
    best: Option<Move>,
    q: int,
)
    requires
        pb.wf(),
        assigned(pb, r),
        0 <= cg < pb.num_clusters,
        q <= r.0.len() - 1,
        best_assigned(pb, best),
    ensures
        best_assigned(pb, swap_scan(pb, r, cg, ti, tr, iter, g, cap, best, q)),
    decreases q,
{
    if q > 1 {
        lemma_swap_scan_assigned(pb, r, cg, ti, tr, iter, g, cap, best, q - 1);
        let po = q - 1;
        lemma_without_stop_assigned(pb, r, po);
        let inter = without_stop(r, po);
        lemma_insert_scan_assigned(
            pb,
            inter,
            cg,
            ti[cg] > iter || tr[r.1[po] as int] > iter,
            g,
            cap,
            Some(r.1[po]),
            swap_scan(pb, r, cg, ti, tr, iter, g, cap, best, q - 1),
            inter.0.len() as int,
        );
    }
}

proof fn lemma_swap_phase_assigned(
    pb: &Problem,
    r: Route,
    ti: Seq<usize>,
    tr: Seq<usize>,
    iter: int,
    g: (int, int),
    cap: int,
    best0: Option<Move>,
    c: int,
)
    requires
        pb.wf(),
        assigned(pb, r),
        c <= pb.num_clusters,
        best_assigned(pb, best0),
    ensures
        best_assigned(pb, swap_phase(pb, r, ti, tr, iter, g, cap, best0, c)),
    decreases c,
{
    if c > 1 {
        lemma_swap_phase_assigned(pb, r, ti, tr, iter, g, cap, best0, c - 1);
        if !r.1.contains((c - 1) as usize) {
            lemma_swap_scan_assigned(
                pb,
                r,
                c - 1,
                ti,
                tr,
                iter,
                g,
                cap,
                swap_phase(pb, r, ti, tr, iter, g, cap, best0, c - 1),
                r.0.len() - 1,
            );
        }
    }
}

/// The moves of the neighbourhood keep each stop a member of its cluster: the
/// best move found from an `assigned` route is `assigned`.
pub proof fn lemma_neighborhood_keeps_assignment(
    pb: &Problem,
    r: Route,
    ti: Seq<usize>,
    tr: Seq<usize>,
    iter: int,
    g: (int, int),
    cap: int,
)
    requires
        pb.wf(),
        assigned(pb, r),
    ensures
        best_assigned(
            pb,
            swap_phase(
                pb,
                r,
                ti,
                tr,
                iter,
                g,
                cap,
                insert_phase(pb, r, ti, iter, g, cap, pb.num_clusters as int),
                pb.num_clusters as int,
            ),
        ),
{
    lemma_insert_phase_assigned(pb, r, ti, iter, g, cap, pb.num_clusters as int);
    lemma_swap_phase_assigned(
        pb,
        r,
        ti,
        tr,
        iter,
        g,
        cap,
        insert_phase(pb, r, ti, iter, g, cap, pb.num_clusters as int),
        pb.num_clusters as int,
    );
}

/// Selecting stops keeps the pairs of node and cluster together.
proof fn lemma_select_pairs(pb: &Problem, a: Seq<usize>, b: Seq<usize>, keep: Seq<bool>)
    requires
        a.len() == b.len(),
        stops_in_clusters(pb, a, b),
    ensures
        select(a, keep).len() == select(b, keep).len(),
        stops_in_clusters(pb, select(a, keep), select(b, keep)),
    decreases a.len(),
{
    if a.len() > 0 {
        let a2 = a.drop_last();
        let b2 = b.drop_last();
        assert forall|k: int| 0 <= k < a2.len() implies pb.members(b2[k] as int).contains(
            #[trigger] a2[k],
        ) by {
            assert(a2[k] == a[k] && b2[k] == b[k]);
        }
        lemma_select_pairs(pb, a2, b2, keep);
        let sa = select(a, keep);
        let sb = select(b, keep);
        assert forall|k: int| 0 <= k < sa.len() implies pb.members(sb[k] as int).contains(
            #[trigger] sa[k],
        ) by {
            if k < select(a2, keep).len() {
                assert(sa[k] == select(a2, keep)[k]);
                assert(sb[k] == select(b2, keep)[k]);
            } else {
                assert(sa[k] == a.last());
                assert(sb[k] == b.last());
                assert(pb.members(b[a.len() - 1] as int).contains(a[a.len() - 1]));
            }
        }
    }
}

/// Selecting stops, the first and last kept, keeps a route `assigned`.
proof fn lemma_select_assigned(pb: &Problem, r: Route, keep: Seq<bool>)
    requires
        assigned(pb, r),
        keep.len() == r.0.len(),
        keep[0],
        keep[r.0.len() - 1],
    ensures
        assigned(pb, (select(r.0, keep), select(r.1, keep))),
{
    lemma_select_pairs(pb, r.0, r.1, keep);
    lemma_select(r.0, keep);
    lemma_select(r.1, keep);
    let f = lemma_select_map(r.0, keep);
    assert(select(r.0, keep).len() >= 2) by {
        assert(exists|t: int| 0 <= t < f.len() && #[trigger] f[t] == 0);
        assert(exists|t: int| 0 <= t < f.len() && #[trigger] f[t] == r.0.len() - 1);
        let t0 = choose|t: int| 0 <= t < f.len() && #[trigger] f[t] == 0;
        let t1 = choose|t: int| 0 <= t < f.len() && #[trigger] f[t] == r.0.len() - 1;
        assert(t0 != t1);
    }
    let s1 = select(r.1, keep);
    assert forall|t: int| 0 <= t < s1.len() implies #[trigger] s1[t] < pb.num_clusters by {
        assert(r.1.contains(s1[t]));
    }
}

/// The number of `true` entries of `keep[0..n]`.
pub open spec fn kept_count(keep: Seq<bool>, n: int) -> int
    decreases n,
{
    if n <= 0 {
        0
    } else {
        kept_count(keep, n - 1) + if keep[n - 1] {
            1int
        } else {
            0int
        }
    }
}

/// `select` keeps one entry per `true` entry of the mask.
proof fn lemma_select_count(s: Seq<usize>, keep: Seq<bool>)
    ensures
        select(s, keep).len() == kept_count(keep, s.len() as int),
    decreases s.len(),
{
    if s.len() > 0 {
        lemma_select_count(s.drop_last(), keep);
    }
}

/// Masks that agree on `0..n` keep as many entries there.
proof fn lemma_kept_count_prefix(a: Seq<bool>, b: Seq<bool>, n: int)
    requires
        forall|i: int| 0 <= i < n ==> a[i] == b[i],
    ensures
        kept_count(a, n) == kept_count(b, n),
    decreases n,
{
    if n > 0 {
        lemma_kept_count_prefix(a, b, n - 1);
    }
}

/// Clearing one kept position of the mask keeps one entry fewer.
proof fn lemma_kept_count_clear(keep: Seq<bool>, p: int, n: int)
    requires
        0 <= p < n <= keep.len(),
        keep[p],
    ensures
        kept_count(keep.update(p, false), n) == kept_count(keep, n) - 1,
    decreases n,
{
    if n - 1 == p {
        lemma_kept_count_prefix(keep.update(p, false), keep, n - 1);
    } else {
        lemma_kept_count_clear(keep, p, n - 1);
    }
}

/// The positions of `0..len` not among `d[0..j]`.
pub open spec fn removal_mask(d: Seq<usize>, j: int, len: int) -> Seq<bool> {
    Seq::new(len as nat, |p: int| !d.take(j).contains(p as usize))
}

/// Removing `j` distinct positions of `0..len` keeps `len - j` of them.
proof fn lemma_removal_mask_count(d: Seq<usize>, j: int, len: int)
    requires
        0 <= j <= d.len(),
        0 <= len <= usize::MAX,
        forall|t: int| 0 <= t < d.len() ==> #[trigger] d[t] < len,
        forall|t1: int, t2: int| 0 <= t1 < t2 < d.len() ==> #[trigger] d[t1] != #[trigger] d[t2],
    ensures
        kept_count(removal_mask(d, j, len), len) == len - j,
    decreases j,
{
    if j == 0 {
        let m = removal_mask(d, 0, len);
        assert forall|n: int| 0 <= n <= len implies #[trigger] kept_count(m, n) == n by {
            lemma_kept_all(m, n);
        }
    } else {
        lemma_removal_mask_count(d, j - 1, len);
        let prev = removal_mask(d, j - 1, len);
        let p = d[j - 1] as int;
        assert(!d.take(j - 1).contains(p as usize)) by {
            if d.take(j - 1).contains(p as usize) {
                let w = choose|w: int| 0 <= w < j - 1 && #[trigger] d.take(j - 1)[w] == p as usize;
                assert(d[w] == d[j - 1]);
            }
        }
        assert(prev[p]);
        assert(removal_mask(d, j, len) =~= prev.update(p, false)) by {
            assert forall|q: int| 0 <= q < len implies #[trigger] removal_mask(d, j, len)[q]
                == prev.update(p, false)[q] by {
                if d.take(j).contains(q as usize) {
                    let w = choose|w: int| 0 <= w < j && #[trigger] d.take(j)[w] == q as usize;
                    if w < j - 1 {
                        assert(d.take(j - 1)[w] == q as usize);
                    }
                }
                if d.take(j - 1).contains(q as usize) {
                    let w = choose|w: int| 0 <= w < j - 1 && #[trigger] d.take(j - 1)[w] == q as usize;
                    assert(d.take(j)[w] == q as usize);
                }
                if q == p {
                    assert(d.take(j)[j - 1] == q as usize);
                }
            }
        }
        lemma_kept_count_clear(prev, p, len);
    }
}

/// A mask that keeps every position of `0..n` keeps `n` entries there.
proof fn lemma_kept_all(m: Seq<bool>, n: int)
    requires
        0 <= n <= m.len(),
        forall|i: int| 0 <= i < n ==> #[trigger] m[i],
    ensures
        kept_count(m, n) == n,
    decreases n,
{
    if n > 0 {
        lemma_kept_all(m, n - 1);
    }
}

/// A partial shuffle of distinct entries leaves them distinct.
proof fn lemma_partial_shuffle_distinct(idx: Seq<usize>, state: u64, i: int, k: int)
    requires
        0 <= i,
        idx.len() <= usize::MAX,
        forall|t1: int, t2: int| 0 <= t1 < t2 < idx.len() ==> #[trigger] idx[t1] != #[trigger] idx[t2],
    ensures
        forall|t1: int, t2: int|
            0 <= t1 < t2 < idx.len() ==> #[trigger] partial_shuffle(idx, state, i, k).0[t1]
                != #[trigger] partial_shuffle(idx, state, i, k).0[t2],
    decreases k - i,
{
    if !(i >= k || i >= idx.len()) {
        let st = xorshift_step(state);
        let sw = i + ((st as usize) % ((idx.len() - i) as usize)) as int;
        assert(i <= sw < idx.len());
        let t2 = idx.update(i, idx[sw]).update(sw, idx[i]);
        assert(partial_shuffle(idx, state, i, k) == partial_shuffle(t2, st, i + 1, k));
        assert forall|a: int, b: int| 0 <= a < b < t2.len() implies #[trigger] t2[a]
            != #[trigger] t2[b] by {
            let fa = if a == sw { i } else if a == i { sw } else { a };
            let fb = if b == sw { i } else if b == i { sw } else { b };
            assert(t2[a] == idx[fa]);
            assert(t2[b] == idx[fb]);
            assert(fa != fb);
            if fa < fb {
                assert(idx[fa] != idx[fb]);
            } else {
                assert(idx[fb] != idx[fa]);
            }
        }
        lemma_partial_shuffle_distinct(t2, st, i + 1, k);
    }
}

/// A shake removes exactly `k` stops of a route of `len` stops, where `k` lies
/// between the clamped bounds of the shake (and so is at most the number of
/// inner stops).
pub proof fn lemma_shake_removes(len: int, raw_min: int, raw_max: int, state: u64, s: Seq<usize>)
    requires
        4 <= len <= usize::MAX,
        0 <= raw_min <= usize::MAX,
        0 <= raw_max <= usize::MAX,
        s.len() == len,
    ensures
        ({
            let b = clamp_bounds(len - 2, raw_min, raw_max);
            let plan = shake_plan(len, raw_min, raw_max, state);
            &&& b.0 <= plan.0 <= b.1 <= len - 2
            &&& select(s, plan.1).len() == len - plan.0
        }),
{
    let b = clamp_bounds(len - 2, raw_min, raw_max);
    let s1 = if b.0 < b.1 { xorshift_step(state) } else { state };
    let k = if b.0 < b.1 { b.0 + ((s1 as usize) % ((b.1 - b.0 + 1) as usize)) as int } else { b.0 };
    let idx = inner_positions(len);
    lemma_partial_shuffle(idx, s1, 0, k, 1, (len - 1) as usize);
    assert forall|t1: int, t2: int| 0 <= t1 < t2 < idx.len() implies #[trigger] idx[t1]
        != #[trigger] idx[t2] by {
        assert(idx[t1] == t1 + 1);
        assert(idx[t2] == t2 + 1);
    }
    lemma_partial_shuffle_distinct(idx, s1, 0, k);
    let d = partial_shuffle(idx, s1, 0, k).0;
    assert(0 <= k <= len - 2);
    assert(forall|t: int| 0 <= t < d.len() ==> #[trigger] d[t] < len);
    lemma_removal_mask_count(d, k, len);
    assert(shake_plan(len, raw_min, raw_max, state).1 =~= removal_mask(d, k, len));
    lemma_select_count(s, removal_mask(d, k, len));
}

/// The mask of a shake keeps the first and the last stop.
proof fn lemma_shake_plan_mask(len: int, raw_min: int, raw_max: int, state: u64)
    requires
        4 <= len <= usize::MAX,
        0 <= raw_min <= usize::MAX,
        0 <= raw_max <= usize::MAX,
    ensures
        shake_plan(len, raw_min, raw_max, state).1.len() == len,
        shake_plan(len, raw_min, raw_max, state).1[0],
        shake_plan(len, raw_min, raw_max, state).1[len - 1],
{
    let b = clamp_bounds(len - 2, raw_min, raw_max);
    let s1 = if b.0 < b.1 { xorshift_step(state) } else { state };
    let k = if b.0 < b.1 { b.0 + ((s1 as usize) % ((b.1 - b.0 + 1) as usize)) as int } else { b.0 };
    let idx = inner_positions(len);
    lemma_partial_shuffle(idx, s1, 0, k, 1, (len - 1) as usize);
    let ps = partial_shuffle(idx, s1, 0, k);
    assert(0 <= k <= len - 2);
    assert(ps.0.len() == len - 2);
    if ps.0.take(k).contains(0usize) {
        let w = choose|w: int| 0 <= w < ps.0.take(k).len() && #[trigger] ps.0.take(k)[w] == 0usize;
        assert(ps.0.take(k)[w] == ps.0[w]);
        assert(1 <= ps.0[w]);
    }
    if ps.0.take(k).contains((len - 1) as usize) {
        let w = choose|w: int| 0 <= w < ps.0.take(k).len() && #[trigger] ps.0.take(k)[w] == (len - 1) as usize;
        assert(ps.0.take(k)[w] == ps.0[w]);
        assert(ps.0[w] < len - 1);
    }
}

} // verus!
