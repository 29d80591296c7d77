//! The best move of the tabu neighbourhood, stated directly: a move on offer
//! that no other move on offer beats.
use crate::models::Problem;
use crate::tabu::{aspires, better, insert_move, route_len, route_profit, insert_phase, insert_scan, swap_phase, swap_scan, without_stop, Move, Route};
use vstd::prelude::*;

verus! {

/// Inserting cluster `cg` at position `pos` of `r` within `cap` leads to `c`,
/// and the move is allowed: not tabu, or beating the best route `g` (of profit
/// `g.0` and length `g.1`): more profit, or as much profit and shorter.
pub open spec fn offered_insertion(
    pb: &Problem,
    r: Route,
    cg: int,
    tabu: bool,
    g: (int, int),
    cap: int,
    pos: int,
    c: Route,
) -> bool {
    insert_move(pb, r, cg, pos, cap) == Some(c) && (!tabu || route_profit(pb, c) > g.0 || (
    route_profit(pb, c) == g.0 && route_len(pb, c) < g.1))
}

/// Exchanging the stop `po` of `r` for cluster `cg`, inserted at position `pos`
/// of the shorter route, leads to `c` and is allowed.
pub open spec fn offered_exchange(
    pb: &Problem,
    r: Route,
    cg: int,
    ti: Seq<usize>,
    tr: Seq<usize>,
    iter: int,
    g: (int, int),
    cap: int,
    po: int,
    pos: int,
    c: Route,
) -> bool {
    offered_insertion(
        pb,
        without_stop(r, po),
        cg,
        ti[cg] > iter || tr[r.1[po] as int] > iter,
        g,
        cap,
        pos,
        c,
    )
}

/// The insertions of `cg` at positions `1..p`: the result is on offer or the
/// starting best, it is there exactly when one of them is, and neither the
/// starting best nor any insertion on offer beats it.
proof fn lemma_insert_scan_best(
    pb: &Problem,
    r: Route,
    cg: int,
    tabu: bool,
    g: (int, int),
    cap: int,
    rem: Option<usize>,
    best: Option<Move>,
    p: int,
)
    requires
        1 <= p <= r.0.len(),
    ensures
        ({
            let res = insert_scan(pb, r, cg, tabu, g, cap, rem, best, p);
            &&& res is None <==> (best is None && forall|pos: int, c: Route|
                1 <= pos < p ==> !#[trigger] offered_insertion(pb, r, cg, tabu, g, cap, pos, c))
            &&& res matches Some(x) ==> (res == best || exists|pos: int|
                1 <= pos < p && #[trigger] offered_insertion(pb, r, cg, tabu, g, cap, pos, x.0))
            &&& forall|pos: int, c: Route|
                1 <= pos < p && #[trigger] offered_insertion(pb, r, cg, tabu, g, cap, pos, c)
                    ==> !better(pb, c, res)
            &&& best matches Some(b) ==> !better(pb, b.0, res)
        }),
    decreases p,
{
    if p > 1 {
        lemma_insert_scan_best(pb, r, cg, tabu, g, cap, rem, best, p - 1);
        let prev = insert_scan(pb, r, cg, tabu, g, cap, rem, best, p - 1);
        let res = insert_scan(pb, r, cg, tabu, g, cap, rem, best, p);
        let mv = insert_move(pb, r, cg, p - 1, cap);
        match mv {
            Some(c0) => {
                if (!tabu || aspires(pb, c0, g)) && better(pb, c0, prev) {
                    assert(offered_insertion(pb, r, cg, tabu, g, cap, p - 1, c0));
                    assert(res == Some((c0, cg as usize, rem)));
                    assert(!(res is None));
                    assert(!(forall|pos: int, c: Route|
                        1 <= pos < p ==> !#[trigger] offered_insertion(pb, r, cg, tabu, g, cap, pos, c)));
                    assert(exists|pos: int|
                        1 <= pos < p && #[trigger] offered_insertion(pb, r, cg, tabu, g, cap, pos, c0));
                    assert forall|pos: int, c: Route|
                        1 <= pos < p && #[trigger] offered_insertion(pb, r, cg, tabu, g, cap, pos, c)
                        implies !better(pb, c, res) by {
                        if pos < p - 1 {
                            assert(!better(pb, c, prev));
                        } else {
                            assert(c == c0);
                        }
                    }
                } else {
                    assert(res == prev);
                    assert forall|pos: int, c: Route|
                        1 <= pos < p && #[trigger] offered_insertion(pb, r, cg, tabu, g, cap, pos, c)
                        implies !better(pb, c, res) by {
                        if pos == p - 1 {
                            assert(c == c0);
                        }
                    }
                    if prev is None {
                        assert(better(pb, c0, prev));
                        assert(!offered_insertion(pb, r, cg, tabu, g, cap, p - 1, c0));
                        assert forall|pos: int, c: Route|
                            1 <= pos < p implies !#[trigger] offered_insertion(pb, r, cg, tabu, g, cap, pos, c) by {
                            if pos == p - 1 {
                                if offered_insertion(pb, r, cg, tabu, g, cap, pos, c) {
                                    assert(c == c0);
                                }
                            }
                        }
                    }
                    if let Some(x) = res {
                        if res != best {
                            let pos0 = choose|pos: int|
                                1 <= pos < p - 1 && #[trigger] offered_insertion(pb, r, cg, tabu, g, cap, pos, x.0);
                            assert(1 <= pos0 < p && offered_insertion(pb, r, cg, tabu, g, cap, pos0, x.0));
                        }
                    }
                }
            },
            None => {
                assert(res == prev);
                assert forall|pos: int, c: Route|
                    1 <= pos < p && #[trigger] offered_insertion(pb, r, cg, tabu, g, cap, pos, c)
                    implies !better(pb, c, res) by {
                    if pos == p - 1 {
                        assert(insert_move(pb, r, cg, pos, cap) is None);
                    }
                }
                if prev is None {
                    assert forall|pos: int, c: Route|
                        1 <= pos < p implies !#[trigger] offered_insertion(pb, r, cg, tabu, g, cap, pos, c) by {
                        if pos == p - 1 {
                            assert(insert_move(pb, r, cg, pos, cap) is None);
                        }
                    }
                }
                if let Some(x) = res {
                    if res != best {
                        let pos0 = choose|pos: int|
                            1 <= pos < p - 1 && #[trigger] offered_insertion(pb, r, cg, tabu, g, cap, pos, x.0);
                        assert(1 <= pos0 < p && offered_insertion(pb, r, cg, tabu, g, cap, pos0, x.0));
                    }
                }
            },
        }
    }
}

/// The insertion of cluster `cg` at position `pos` of `r`, tabu as `ti` says at
/// iteration `iter`, is on offer and leads to `x`.
pub open spec fn insertion_at(
    pb: &Problem,
    r: Route,
    ti: Seq<usize>,
    iter: int,
    g: (int, int),
    cap: int,
    cg: int,
    pos: int,
    x: Route,
) -> bool {
    offered_insertion(pb, r, cg, ti[cg] > iter, g, cap, pos, x)
}

/// Some insertion of an unvisited cluster among `1..c` into `r` is on offer
/// and leads to `x`.
pub open spec fn insertion_on_offer(
    pb: &Problem,
    r: Route,
    ti: Seq<usize>,
    iter: int,
    g: (int, int),
    cap: int,
    c: int,
    x: Route,
) -> bool {
    exists|cg: int, pos: int|
        1 <= cg < c && !r.1.contains(cg as usize) && 1 <= pos < r.0.len()
            && #[trigger] insertion_at(pb, r, ti, iter, g, cap, cg, pos, x)
}

proof fn lemma_insert_phase_best(
    pb: &Problem,
    r: Route,
    ti: Seq<usize>,
    iter: int,
    g: (int, int),
    cap: int,
    c: int,
)
    requires
        r.0.len() >= 1,
    ensures
        ({
            let res = insert_phase(pb, r, ti, iter, g, cap, c);
            &&& res is None <==> forall|x: Route| !#[trigger] insertion_on_offer(pb, r, ti, iter, g, cap, c, x)
            &&& res matches Some(y) ==> insertion_on_offer(pb, r, ti, iter, g, cap, c, y.0)
            &&& forall|x: Route| #[trigger] insertion_on_offer(pb, r, ti, iter, g, cap, c, x)
                ==> !better(pb, x, res)
        }),
    decreases c,
{
    if c <= 1 {
        assert forall|x: Route| !#[trigger] insertion_on_offer(pb, r, ti, iter, g, cap, c, x) by {}
    } else {
        lemma_insert_phase_best(pb, r, ti, iter, g, cap, c - 1);
        let b = insert_phase(pb, r, ti, iter, g, cap, c - 1);
        let res = insert_phase(pb, r, ti, iter, g, cap, c);
        let cg = c - 1;
        let tabu = ti[cg] > iter;
        if r.1.contains(cg as usize) {
            assert(res == b);
            assert forall|x: Route| #[trigger] insertion_on_offer(pb, r, ti, iter, g, cap, c, x)
                == insertion_on_offer(pb, r, ti, iter, g, cap, c - 1, x) by {
                if insertion_on_offer(pb, r, ti, iter, g, cap, c, x) {
                    let (cg1, pos1) = choose|cg1: int, pos1: int|
                        1 <= cg1 < c && !r.1.contains(cg1 as usize) && 1 <= pos1 < r.0.len()
                            && #[trigger] insertion_at(pb, r, ti, iter, g, cap, cg1, pos1, x);
                    assert(cg1 < c - 1);
                }
                if insertion_on_offer(pb, r, ti, iter, g, cap, c - 1, x) {
                    let (cg1, pos1) = choose|cg1: int, pos1: int|
                        1 <= cg1 < c - 1 && !r.1.contains(cg1 as usize) && 1 <= pos1 < r.0.len()
                            && #[trigger] insertion_at(pb, r, ti, iter, g, cap, cg1, pos1, x);
                    assert(insertion_at(pb, r, ti, iter, g, cap, cg1, pos1, x));
                }
            }
            if let Some(y) = res {
                assert(insertion_on_offer(pb, r, ti, iter, g, cap, c - 1, y.0));
                assert(insertion_on_offer(pb, r, ti, iter, g, cap, c, y.0));
            } else {
                assert forall|x: Route| !#[trigger] insertion_on_offer(pb, r, ti, iter, g, cap, c, x) by {
                    assert(!insertion_on_offer(pb, r, ti, iter, g, cap, c - 1, x));
                }
            }
        } else {
            lemma_insert_scan_best(pb, r, cg, tabu, g, cap, None, b, r.0.len() as int);
            assert(res == insert_scan(pb, r, cg, tabu, g, cap, None, b, r.0.len() as int));
            assert forall|x: Route| #[trigger] insertion_on_offer(pb, r, ti, iter, g, cap, c, x)
                implies !better(pb, x, res) by {
                let (cg1, pos1) = choose|cg1: int, pos1: int|
                    1 <= cg1 < c && !r.1.contains(cg1 as usize) && 1 <= pos1 < r.0.len()
                        && #[trigger] insertion_at(pb, r, ti, iter, g, cap, cg1, pos1, x);
                if cg1 < c - 1 {
                    assert(insertion_on_offer(pb, r, ti, iter, g, cap, c - 1, x));
                    assert(!better(pb, x, b));
                } else {
                    assert(offered_insertion(pb, r, cg, tabu, g, cap, pos1, x));
                }
            }
            if let Some(y) = res {
                if res == b {
                    assert(insertion_on_offer(pb, r, ti, iter, g, cap, c - 1, y.0));
                    let (cg1, pos1) = choose|cg1: int, pos1: int|
                        1 <= cg1 < c - 1 && !r.1.contains(cg1 as usize) && 1 <= pos1 < r.0.len()
                            && #[trigger] insertion_at(pb, r, ti, iter, g, cap, cg1, pos1, y.0);
                    assert(insertion_at(pb, r, ti, iter, g, cap, cg1, pos1, y.0));
                } else {
                    let pos1 = choose|pos: int|
                        1 <= pos < r.0.len() && #[trigger] offered_insertion(pb, r, cg, tabu, g, cap, pos, y.0);
                    assert(insertion_at(pb, r, ti, iter, g, cap, cg, pos1, y.0));
                }
            }
            if let Some(y) = res {
                assert(insertion_on_offer(pb, r, ti, iter, g, cap, c, y.0));
            }
            if res is None {
                assert forall|x: Route| !#[trigger] insertion_on_offer(pb, r, ti, iter, g, cap, c, x) by {
                    if insertion_on_offer(pb, r, ti, iter, g, cap, c, x) {
                        let (cg1, pos1) = choose|cg1: int, pos1: int|
                            1 <= cg1 < c && !r.1.contains(cg1 as usize) && 1 <= pos1 < r.0.len()
                                && #[trigger] insertion_at(pb, r, ti, iter, g, cap, cg1, pos1, x);
                        if cg1 < c - 1 {
                            assert(insertion_on_offer(pb, r, ti, iter, g, cap, c - 1, x));
                        } else {
                            assert(offered_insertion(pb, r, cg, tabu, g, cap, pos1, x));
                        }
                    }
                }
            }
        }
    }
}

/// Some exchange of a stop among `1..q` of `r` for cluster `cg` is on offer and
/// leads to `x`.
pub open spec fn exchange_of(
    pb: &Problem,
    r: Route,
    cg: int,
    ti: Seq<usize>,
    tr: Seq<usize>,
    iter: int,
    g: (int, int),
    cap: int,
    q: int,
    x: Route,
) -> bool {
    exists|po: int, pos: int|
        1 <= po < q && 1 <= pos < r.0.len() - 1
            && #[trigger] offered_exchange(pb, r, cg, ti, tr, iter, g, cap, po, pos, x)
}

proof fn lemma_swap_scan_best(
    pb: &Problem,
    r: Route,
    cg: int,
    ti: Seq<usize>,
    tr: Seq<usize>,
    iter: int,
    g: (int, int),
    cap: int,
    best: Option<Move>,
    q: int,
)
    requires
        r.0.len() >= 2,
        q <= r.0.len() - 1,
    ensures
        ({
            let res = swap_scan(pb, r, cg, ti, tr, iter, g, cap, best, q);
            &&& res is None <==> (best is None && forall|x: Route|
                !#[trigger] exchange_of(pb, r, cg, ti, tr, iter, g, cap, q, x))
            &&& res matches Some(y) ==> (res == best || exchange_of(pb, r, cg, ti, tr, iter, g, cap, q, y.0))
            &&& forall|x: Route| #[trigger] exchange_of(pb, r, cg, ti, tr, iter, g, cap, q, x)
                ==> !better(pb, x, res)
            &&& best matches Some(b) ==> !better(pb, b.0, res)
        }),
    decreases q,
{
    let res = swap_scan(pb, r, cg, ti, tr, iter, g, cap, best, q);
    if q <= 1 {
        assert forall|x: Route| !#[trigger] exchange_of(pb, r, cg, ti, tr, iter, g, cap, q, x) by {}
    } else {
        lemma_swap_scan_best(pb, r, cg, ti, tr, iter, g, cap, best, q - 1);
        let prev = swap_scan(pb, r, cg, ti, tr, iter, g, cap, best, q - 1);
        let po = q - 1;
        let inter = without_stop(r, po);
        let tabu = ti[cg] > iter || tr[r.1[po] as int] > iter;
        let p = inter.0.len() as int;
        assert(p == r.0.len() - 1);
        lemma_insert_scan_best(pb, inter, cg, tabu, g, cap, Some(r.1[po]), prev, p);
        assert(res == insert_scan(pb, inter, cg, tabu, g, cap, Some(r.1[po]), prev, p));
        assert forall|x: Route| #[trigger] exchange_of(pb, r, cg, ti, tr, iter, g, cap, q, x)
            implies !better(pb, x, res) by {
            let (po1, pos1) = choose|po1: int, pos1: int|
                1 <= po1 < q && 1 <= pos1 < r.0.len() - 1
                    && #[trigger] offered_exchange(pb, r, cg, ti, tr, iter, g, cap, po1, pos1, x);
            if po1 < q - 1 {
                assert(exchange_of(pb, r, cg, ti, tr, iter, g, cap, q - 1, x));
            } else {
                assert(offered_insertion(pb, inter, cg, tabu, g, cap, pos1, x));
            }
        }
        if let Some(y) = res {
            if res != best {
                if res == prev {
                    let (po1, pos1) = choose|po1: int, pos1: int|
                        1 <= po1 < q - 1 && 1 <= pos1 < r.0.len() - 1
                            && #[trigger] offered_exchange(pb, r, cg, ti, tr, iter, g, cap, po1, pos1, y.0);
                    assert(offered_exchange(pb, r, cg, ti, tr, iter, g, cap, po1, pos1, y.0));
                } else {
                    let pos1 = choose|pos: int|
                        1 <= pos < p && #[trigger] offered_insertion(pb, inter, cg, tabu, g, cap, pos, y.0);
                    assert(offered_exchange(pb, r, cg, ti, tr, iter, g, cap, po, pos1, y.0));
                }
                assert(exchange_of(pb, r, cg, ti, tr, iter, g, cap, q, y.0));
            }
        } else {
            assert forall|x: Route| !#[trigger] exchange_of(pb, r, cg, ti, tr, iter, g, cap, q, x) by {
                if exchange_of(pb, r, cg, ti, tr, iter, g, cap, q, x) {
                    let (po1, pos1) = choose|po1: int, pos1: int|
                        1 <= po1 < q && 1 <= pos1 < r.0.len() - 1
                            && #[trigger] offered_exchange(pb, r, cg, ti, tr, iter, g, cap, po1, pos1, x);
                    if po1 < q - 1 {
                        assert(exchange_of(pb, r, cg, ti, tr, iter, g, cap, q - 1, x));
                    } else {
                        assert(offered_insertion(pb, inter, cg, tabu, g, cap, pos1, x));
                    }
                }
            }
        }
    }
}

/// Some exchange of a stop of `r` for an unvisited cluster among `1..c` is on
/// offer and leads to `x`.
pub open spec fn exchange_on_offer(
    pb: &Problem,
    r: Route,
    ti: Seq<usize>,
    tr: Seq<usize>,
    iter: int,
    g: (int, int),
    cap: int,
    c: int,
    x: Route,
) -> bool {
    exists|cg: int|
        1 <= cg < c && !r.1.contains(cg as usize)
            && #[trigger] exchange_of(pb, r, cg, ti, tr, iter, g, cap, r.0.len() - 1, x)
}

proof fn lemma_swap_phase_best(
    pb: &Problem,
    r: Route,
    ti: Seq<usize>,
    tr: Seq<usize>,
    iter: int,
    g: (int, int),
    cap: int,
    best0: Option<Move>,
    c: int,
)
    requires
        r.0.len() >= 2,
    ensures
        ({
            let res = swap_phase(pb, r, ti, tr, iter, g, cap, best0, c);
            &&& res is None <==> (best0 is None && forall|x: Route|
                !#[trigger] exchange_on_offer(pb, r, ti, tr, iter, g, cap, c, x))
            &&& res matches Some(y) ==> (res == best0 || exchange_on_offer(pb, r, ti, tr, iter, g, cap, c, y.0))
            &&& forall|x: Route| #[trigger] exchange_on_offer(pb, r, ti, tr, iter, g, cap, c, x)
                ==> !better(pb, x, res)
            &&& best0 matches Some(b) ==> !better(pb, b.0, res)
        }),
    decreases c,
{
    let res = swap_phase(pb, r, ti, tr, iter, g, cap, best0, c);
    if c <= 1 {
        assert forall|x: Route| !#[trigger] exchange_on_offer(pb, r, ti, tr, iter, g, cap, c, x) by {}
    } else {
        lemma_swap_phase_best(pb, r, ti, tr, iter, g, cap, best0, c - 1);
        let b = swap_phase(pb, r, ti, tr, iter, g, cap, best0, c - 1);
        let cg = c - 1;
        let q = r.0.len() - 1;
        if r.1.contains(cg as usize) {
            assert(res == b);
            assert forall|x: Route| #[trigger] exchange_on_offer(pb, r, ti, tr, iter, g, cap, c, x)
                == exchange_on_offer(pb, r, ti, tr, iter, g, cap, c - 1, x) by {
                if exchange_on_offer(pb, r, ti, tr, iter, g, cap, c, x) {
                    let cg1 = choose|cg1: int|
                        1 <= cg1 < c && !r.1.contains(cg1 as usize)
                            && #[trigger] exchange_of(pb, r, cg1, ti, tr, iter, g, cap, q, x);
                    assert(cg1 < c - 1);
                }
            }
            if let Some(y) = res {
                if res != best0 {
                    assert(exchange_on_offer(pb, r, ti, tr, iter, g, cap, c - 1, y.0));
                    assert(exchange_on_offer(pb, r, ti, tr, iter, g, cap, c, y.0));
                }
            } else {
                assert forall|x: Route| !#[trigger] exchange_on_offer(pb, r, ti, tr, iter, g, cap, c, x) by {
                    assert(!exchange_on_offer(pb, r, ti, tr, iter, g, cap, c - 1, x));
                }
            }
        } else {
            lemma_swap_scan_best(pb, r, cg, ti, tr, iter, g, cap, b, q);
            assert(res == swap_scan(pb, r, cg, ti, tr, iter, g, cap, b, q));
            assert forall|x: Route| #[trigger] exchange_on_offer(pb, r, ti, tr, iter, g, cap, c, x)
                implies !better(pb, x, res) by {
                let cg1 = choose|cg1: int|
                    1 <= cg1 < c && !r.1.contains(cg1 as usize)
                        && #[trigger] exchange_of(pb, r, cg1, ti, tr, iter, g, cap, q, x);
                if cg1 < c - 1 {
                    assert(exchange_on_offer(pb, r, ti, tr, iter, g, cap, c - 1, x));
                }
            }
            if let Some(y) = res {
                if res != best0 {
                    if res == b {
                        assert(exchange_on_offer(pb, r, ti, tr, iter, g, cap, c - 1, y.0));
                        let cg1 = choose|cg1: int|
                            1 <= cg1 < c - 1 && !r.1.contains(cg1 as usize)
                                && #[trigger] exchange_of(pb, r, cg1, ti, tr, iter, g, cap, q, y.0);
                        assert(exchange_of(pb, r, cg1, ti, tr, iter, g, cap, q, y.0));
                    } else {
                        assert(exchange_of(pb, r, cg, ti, tr, iter, g, cap, q, y.0));
                    }
                    assert(exchange_on_offer(pb, r, ti, tr, iter, g, cap, c, y.0));
                }
            } else {
                assert forall|x: Route| !#[trigger] exchange_on_offer(pb, r, ti, tr, iter, g, cap, c, x) by {
                    if exchange_on_offer(pb, r, ti, tr, iter, g, cap, c, x) {
                        let cg1 = choose|cg1: int|
                            1 <= cg1 < c && !r.1.contains(cg1 as usize)
                                && #[trigger] exchange_of(pb, r, cg1, ti, tr, iter, g, cap, q, x);
                        if cg1 < c - 1 {
                            assert(exchange_on_offer(pb, r, ti, tr, iter, g, cap, c - 1, x));
                        }
                    }
                }
            }
        }
    }
}

/// A move of the neighbourhood of `r` leading to `x` is on offer: an insertion
/// or an exchange of an unvisited cluster, at its cheapest member, within
/// `cap`, and not tabu unless it beats the best route `g`.
pub open spec fn on_offer(
    pb: &Problem,
    r: Route,
    ti: Seq<usize>,
    tr: Seq<usize>,
    iter: int,
    g: (int, int),
    cap: int,
    x: Route,
) -> bool {
    insertion_on_offer(pb, r, ti, iter, g, cap, pb.num_clusters as int, x) || exchange_on_offer(
        pb,
        r,
        ti,
        tr,
        iter,
        g,
        cap,
        pb.num_clusters as int,
        x,
    )
}

/// The best move of the neighbourhood (what `explore_neighborhood` returns)
/// exists exactly when some move is on offer; it is then one of the moves on
/// offer, and no move on offer beats it: none has more profit, or as much
/// profit and a shorter route.
pub proof fn lemma_neighborhood_best(
    pb: &Problem,
    r: Route,
    ti: Seq<usize>,
    tr: Seq<usize>,
    iter: int,
    g: (int, int),
    cap: int,
)
    requires
        r.0.len() >= 2,
    ensures
        ({
            let nc = pb.num_clusters as int;
            let b2 = swap_phase(pb, r, ti, tr, iter, g, cap, insert_phase(pb, r, ti, iter, g, cap, nc), nc);
            &&& b2 is None <==> forall|x: Route| !#[trigger] on_offer(pb, r, ti, tr, iter, g, cap, x)
            &&& b2 matches Some(b) ==> on_offer(pb, r, ti, tr, iter, g, cap, b.0)
            &&& b2 matches Some(b) ==> forall|x: Route| #[trigger] on_offer(pb, r, ti, tr, iter, g, cap, x)
                ==> route_profit(pb, x) < route_profit(pb, b.0) || (route_profit(pb, x) == route_profit(
                pb,
                b.0,
            ) && route_len(pb, x) >= route_len(pb, b.0))
        }),
{
    let nc = pb.num_clusters as int;
    let b1 = insert_phase(pb, r, ti, iter, g, cap, nc);
    let b2 = swap_phase(pb, r, ti, tr, iter, g, cap, b1, nc);
    lemma_insert_phase_best(pb, r, ti, iter, g, cap, nc);
    lemma_swap_phase_best(pb, r, ti, tr, iter, g, cap, b1, nc);
    assert forall|x: Route| #[trigger] on_offer(pb, r, ti, tr, iter, g, cap, x) implies !better(
        pb,
        x,
        b2,
    ) by {
        if insertion_on_offer(pb, r, ti, iter, g, cap, nc, x) {
            assert(!better(pb, x, b1));
        } else {
            assert(exchange_on_offer(pb, r, ti, tr, iter, g, cap, nc, x));
        }
    }
    if let Some(b) = b2 {
        if b2 == b1 {
            assert(insertion_on_offer(pb, r, ti, iter, g, cap, nc, b.0));
        } else {
            assert(exchange_on_offer(pb, r, ti, tr, iter, g, cap, nc, b.0));
        }
        assert(on_offer(pb, r, ti, tr, iter, g, cap, b.0));
    } else {
        assert forall|x: Route| !#[trigger] on_offer(pb, r, ti, tr, iter, g, cap, x) by {
            assert(!insertion_on_offer(pb, r, ti, iter, g, cap, nc, x));
            assert(!exchange_on_offer(pb, r, ti, tr, iter, g, cap, nc, x));
        }
    }
}

} // verus!
