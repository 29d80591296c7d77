//! How the length and the profit of a route change when a stop is inserted or
//! removed.
use crate::models::Problem;
use crate::phase1::{lemma_cost_concat, reversed_segment};
use vstd::prelude::*;

verus! {

/// Inserting `v` at the inner position `pos` replaces the arc into `s[pos]` by two.
pub proof fn lemma_insert_cost(pb: &Problem, s: Seq<usize>, pos: int, v: usize)
    requires
        1 <= pos < s.len(),
    ensures
        pb.route_cost(s.insert(pos, v)) == pb.route_cost(s) + pb.arc(s[pos - 1] as int, v as int)
            + pb.arc(v as int, s[pos] as int) - pb.arc(s[pos - 1] as int, s[pos] as int),
{
    let a = s.take(pos);
    let b = s.skip(pos);
    assert(s =~= a + b);
    assert(s.insert(pos, v) =~= a + (seq![v] + b));
    lemma_cost_concat(pb, a, b);
    lemma_cost_concat(pb, seq![v], b);
    lemma_cost_concat(pb, a, seq![v] + b);
    assert(pb.route_cost(seq![v]) == 0);
    assert(a.last() == s[pos - 1]);
    assert(b[0] == s[pos]);
}

/// Removing the inner stop `p` replaces its two arcs by one.
pub proof fn lemma_remove_cost(pb: &Problem, s: Seq<usize>, p: int)
    requires
        1 <= p < s.len() - 1,
    ensures
        pb.route_cost(s.remove(p)) == pb.route_cost(s) - pb.arc(s[p - 1] as int, s[p] as int)
            - pb.arc(s[p] as int, s[p + 1] as int) + pb.arc(s[p - 1] as int, s[p + 1] as int),
{
    let r = s.remove(p);
    assert(r.insert(p, s[p]) =~= s);
    lemma_insert_cost(pb, r, p, s[p]);
    assert(r[p - 1] == s[p - 1]);
    assert(r[p] == s[p + 1]);
}

/// The profit of a concatenation is the sum of the profits.
pub proof fn lemma_profit_concat(pb: &Problem, a: Seq<usize>, b: Seq<usize>)
    ensures
        pb.clusters_profit(a + b) == pb.clusters_profit(a) + pb.clusters_profit(b),
    decreases b.len(),
{
    if b.len() == 0 {
        assert(a + b =~= a);
    } else {
        lemma_profit_concat(pb, a, b.drop_last());
        assert((a + b).drop_last() =~= a + b.drop_last());
    }
}

/// Inserting cluster `c` adds its profit (nothing for the depot cluster).
pub proof fn lemma_insert_profit(pb: &Problem, s: Seq<usize>, pos: int, c: usize)
    requires
        0 <= pos <= s.len(),
    ensures
        pb.clusters_profit(s.insert(pos, c)) == pb.clusters_profit(s) + if c != 0 {
            pb.profit(c as int)
        } else {
            0
        },
{
    let a = s.take(pos);
    let b = s.skip(pos);
    assert(s =~= a + b);
    assert(s.insert(pos, c) =~= a + (seq![c] + b));
    lemma_profit_concat(pb, a, b);
    lemma_profit_concat(pb, seq![c], b);
    lemma_profit_concat(pb, a, seq![c] + b);
    assert(seq![c].drop_last() =~= Seq::<usize>::empty());
    assert(seq![c].last() == c);
    assert(pb.clusters_profit(seq![c]) == pb.clusters_profit(seq![c].drop_last()) + if c != 0 {
        pb.profit(c as int)
    } else {
        0
    });
}

/// Removing the cluster at `p` takes its profit away.
pub proof fn lemma_remove_profit(pb: &Problem, s: Seq<usize>, p: int)
    requires
        0 <= p < s.len(),
    ensures
        pb.clusters_profit(s.remove(p)) == pb.clusters_profit(s) - if s[p] != 0 {
            pb.profit(s[p] as int)
        } else {
            0
        },
{
    let r = s.remove(p);
    assert(r.insert(p, s[p]) =~= s);
    lemma_insert_profit(pb, r, p, s[p]);
}

/// Changing the inner stop `p` to `x` replaces its two arcs.
pub proof fn lemma_update_cost(pb: &Problem, s: Seq<usize>, p: int, x: usize)
    requires
        1 <= p < s.len() - 1,
    ensures
        pb.route_cost(s.update(p, x)) == pb.route_cost(s) - pb.arc(s[p - 1] as int, s[p] as int)
            - pb.arc(s[p] as int, s[p + 1] as int) + pb.arc(s[p - 1] as int, x as int) + pb.arc(
            x as int,
            s[p + 1] as int,
        ),
{
    lemma_remove_cost(pb, s, p);
    let r = s.remove(p);
    assert(s.update(p, x) =~= r.insert(p, x));
    lemma_insert_cost(pb, r, p, x);
    assert(r[p - 1] == s[p - 1]);
    assert(r[p] == s[p + 1]);
}

/// Changing the entry at `p` to `x` changes the profit by the difference.
pub proof fn lemma_update_profit(pb: &Problem, s: Seq<usize>, p: int, x: usize)
    requires
        0 <= p < s.len(),
    ensures
        pb.clusters_profit(s.update(p, x)) == pb.clusters_profit(s) - (if s[p] != 0 {
            pb.profit(s[p] as int)
        } else {
            0
        }) + (if x != 0 {
            pb.profit(x as int)
        } else {
            0
        }),
{
    lemma_remove_profit(pb, s, p);
    let r = s.remove(p);
    assert(s.update(p, x) =~= r.insert(p, x));
    lemma_insert_profit(pb, r, p, x);
}

/// Exchanging two adjacent inner stops.
pub proof fn lemma_adjacent_swap_cost(pb: &Problem, s: Seq<usize>, i: int)
    requires
        1 <= i,
        i + 2 < s.len(),
    ensures
        pb.route_cost(s.update(i, s[i + 1]).update(i + 1, s[i])) == pb.route_cost(s) - (pb.arc(
            s[i - 1] as int,
            s[i] as int,
        ) + pb.arc(s[i] as int, s[i + 1] as int) + pb.arc(s[i + 1] as int, s[i + 2] as int)) + (
        pb.arc(s[i - 1] as int, s[i + 1] as int) + pb.arc(s[i + 1] as int, s[i] as int) + pb.arc(
            s[i] as int,
            s[i + 2] as int,
        )),
{
    let a = s.take(i);
    let c = s.skip(i + 2);
    let x = s[i];
    let y = s[i + 1];
    assert(s =~= a + (seq![x, y] + c));
    assert(s.update(i, y).update(i + 1, x) =~= a + (seq![y, x] + c));
    lemma_cost_concat(pb, seq![x, y], c);
    lemma_cost_concat(pb, a, seq![x, y] + c);
    lemma_cost_concat(pb, seq![y, x], c);
    lemma_cost_concat(pb, a, seq![y, x] + c);
    assert(seq![x, y].drop_last() =~= seq![x]);
    assert(seq![y, x].drop_last() =~= seq![y]);
    assert(pb.route_cost(seq![x]) == 0);
    assert(pb.route_cost(seq![y]) == 0);
    assert(seq![x, y][0] == x && seq![x, y].last() == y);
    assert(seq![y, x][0] == y && seq![y, x].last() == x);
    assert(pb.route_cost(seq![x, y]) == pb.arc(x as int, y as int));
    assert(pb.route_cost(seq![y, x]) == pb.arc(y as int, x as int));
    assert(a.last() == s[i - 1]);
    assert(c[0] == s[i + 2]);
}

/// With symmetric distances a route is as long backwards as forwards; the profit
/// of a cluster sequence does not depend on its order when reversed.
pub proof fn lemma_profit_reverse(pb: &Problem, s: Seq<usize>)
    ensures
        pb.clusters_profit(s.reverse()) == pb.clusters_profit(s),
    decreases s.len(),
{
    if s.len() >= 1 {
        let t = s.drop_last();
        lemma_profit_reverse(pb, t);
        assert(s.reverse() =~= seq![s.last()] + t.reverse());
        lemma_profit_concat(pb, seq![s.last()], t.reverse());
        let o = seq![s.last()];
        assert(o.drop_last() =~= Seq::<usize>::empty());
        assert(o.last() == s.last());
        assert(pb.clusters_profit(Seq::<usize>::empty()) == 0);
        assert(pb.clusters_profit(o) == pb.clusters_profit(o.drop_last()) + if o.last() != 0 {
            pb.profit(o.last() as int)
        } else {
            0
        });
    } else {
        assert(s.reverse() =~= s);
    }
}

/// Reversing a segment keeps the profit.
pub proof fn lemma_reversal_profit(pb: &Problem, s: Seq<usize>, i: int, j: int)
    requires
        0 <= i <= j < s.len(),
    ensures
        pb.clusters_profit(reversed_segment(s, i, j)) == pb.clusters_profit(s),
{
    let a = s.take(i);
    let b = s.subrange(i, j + 1);
    let c = s.skip(j + 1);
    assert(s =~= a + b + c);
    lemma_profit_concat(pb, a + b, c);
    lemma_profit_concat(pb, a, b);
    lemma_profit_concat(pb, a + b.reverse(), c);
    lemma_profit_concat(pb, a, b.reverse());
    lemma_profit_reverse(pb, b);
}

} // verus!
