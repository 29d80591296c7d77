//! What a solution file lists of a route.
use vstd::prelude::*;

verus! {

/// The customers of a route as a solution file lists them: the stops between
/// the leaving and the returning depot visit, each node id counted from 1.
pub fn customer_ids(tour_nodes: &Vec<usize>) -> (r: Vec<usize>)
    requires
        2 <= tour_nodes@.len(),
        forall|k: int| 0 <= k < tour_nodes@.len() ==> #[trigger] tour_nodes@[k] < usize::MAX,
    ensures
        r@ == tour_nodes@.subrange(1, tour_nodes@.len() - 1).map_values(|x: usize| (x + 1) as usize),
{
    let n = tour_nodes.len();
    let mut r: Vec<usize> = Vec::new();
    let mut k: usize = 1;
    while k < n - 1
        invariant
            n == tour_nodes@.len(),
            2 <= n,
            1 <= k <= n - 1,
            forall|j: int| 0 <= j < n ==> #[trigger] tour_nodes@[j] < usize::MAX,
            r@ == tour_nodes@.subrange(1, k as int).map_values(|x: usize| (x + 1) as usize),
        decreases n - 1 - k,
    {
        r.push(tour_nodes[k] + 1);
        k = k + 1;
        assert(r@ =~= tour_nodes@.subrange(1, k as int).map_values(|x: usize| (x + 1) as usize));
    }
    r
}

} // verus!
