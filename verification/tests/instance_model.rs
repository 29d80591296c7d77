use lib::feasibility::is_feasible;
use lib::models::{Problem, Solution};
use lib::output::customer_ids;
use lib::phase1::{
    clusters_by_profit, optimize_routing_2opt, optimize_vertices_dp, phase1_construction,
    tour_improvement,
};
use lib::phase1_rand::random_feasible_initial_solution;
use lib::rng::EpochRng;

fn tiny_coords() -> Vec<(f64, f64)> {
    vec![(0.0, 0.0), (3.0, 0.0), (0.0, 4.0), (6.0, 0.0), (0.0, 8.0)]
}

fn ceil_distances(coords: &[(f64, f64)]) -> Vec<u64> {
    let n = coords.len();
    let mut dist = vec![0u64; n * n];
    for i in 0..n {
        for j in 0..n {
            if i != j {
                let dx = coords[i].0 - coords[j].0;
                let dy = coords[i].1 - coords[j].1;
                dist[i * n + j] = (dx * dx + dy * dy).sqrt().ceil() as u64;
            }
        }
    }
    dist
}

fn tiny_problem(t_max: u64) -> Problem {
    Problem::from_tables(
        5,
        4,
        t_max,
        ceil_distances(&tiny_coords()),
        vec![0, 1, 1, 2, 3],
        vec![vec![0], vec![1, 2], vec![3], vec![4]],
        vec![0, 10, 20, 5],
    )
    .expect("a well-formed instance")
}

fn route(nodes: Vec<usize>, clusters: Vec<usize>) -> Solution {
    let mut s = Solution::new();
    s.tour_nodes = nodes;
    s.tour_clusters = clusters;
    s
}

#[test]
fn from_tables_accepts_the_tiny_instance() {
    let pb = tiny_problem(20);
    assert_eq!(pb.num_nodes, 5);
    assert_eq!(pb.get_dist(0, 1), 3);
    assert_eq!(pb.get_dist(1, 4), 9);
    assert_eq!(pb.get_dist(4, 1), 9);
    assert_eq!(pb.get_dist(2, 3), 8);
    assert_eq!(pb.get_dist(3, 3), 0);
    assert_eq!(pb.get_dist(0, 7), pb.dist[7]);
    assert_eq!(pb.get_dist(0, 7), pb.get_dist(1, 2));
}

#[test]
fn from_tables_rejects_bad_tables() {
    let mut asym = ceil_distances(&tiny_coords());
    asym[1] = 4;
    assert!(Problem::from_tables(5, 4, 20, asym, vec![0, 1, 1, 2, 3], vec![vec![0], vec![1, 2], vec![3], vec![4]], vec![0, 10, 20, 5]).is_none());
    let mut diag = ceil_distances(&tiny_coords());
    diag[6] = 1;
    assert!(Problem::from_tables(5, 4, 20, diag, vec![0, 1, 1, 2, 3], vec![vec![0], vec![1, 2], vec![3], vec![4]], vec![0, 10, 20, 5]).is_none());
    assert!(Problem::from_tables(5, 0, 20, ceil_distances(&tiny_coords()), vec![0, 1, 1, 2, 3], vec![], vec![]).is_none());
    assert!(Problem::from_tables(5, 4, 20, vec![0; 24], vec![0, 1, 1, 2, 3], vec![vec![0], vec![1, 2], vec![3], vec![4]], vec![0, 10, 20, 5]).is_none());
    assert!(Problem::from_tables(5, 4, 20, ceil_distances(&tiny_coords()), vec![0, 1, 1, 2, 3], vec![vec![0], vec![1, 7], vec![3], vec![4]], vec![0, 10, 20, 5]).is_none());
    assert!(Problem::from_tables(5, 4, 20, ceil_distances(&tiny_coords()), vec![0, 1, 1, 2, 3], vec![vec![0], vec![1, 2], vec![3], vec![4]], vec![0, 10, 20, 1 << 30]).is_none());
    let mut far = ceil_distances(&tiny_coords());
    far[1] = 1 << 30;
    far[5] = 1 << 30;
    assert!(Problem::from_tables(5, 4, 20, far, vec![0, 1, 1, 2, 3], vec![vec![0], vec![1, 2], vec![3], vec![4]], vec![0, 10, 20, 5]).is_none());
}

#[test]
fn solution_new_is_depot_to_depot() {
    let s = Solution::new();
    assert_eq!(s.tour_nodes, vec![0, 0]);
    assert_eq!(s.tour_clusters, vec![0, 0]);
    assert_eq!(s.total_cost, 0);
    assert_eq!(s.total_profit, 0);
}

#[test]
fn recompute_sums_arcs_and_profits() {
    let pb = tiny_problem(20);
    let mut s = route(vec![0, 3, 1, 0], vec![0, 2, 1, 0]);
    s.recompute(&pb);
    assert_eq!(s.total_cost, 12);
    assert_eq!(s.total_profit, 30);
    assert_eq!(s.tour_nodes, vec![0, 3, 1, 0]);
}

#[test]
fn update_nodes_greedy_takes_the_nearest_member() {
    let pb = tiny_problem(20);
    let mut s = route(vec![0, 2, 3, 0], vec![0, 1, 2, 0]);
    s.update_nodes_greedy(&pb);
    assert_eq!(s.tour_nodes, vec![0, 1, 3, 0]);
    assert_eq!(s.tour_clusters, vec![0, 1, 2, 0]);
}

#[test]
fn is_feasible_accepts_a_good_route() {
    let pb = tiny_problem(20);
    let mut s = route(vec![0, 3, 1, 0], vec![0, 2, 1, 0]);
    s.recompute(&pb);
    assert!(is_feasible(&pb, &s));
    assert!(is_feasible(&pb, &Solution::new()));
    let tight = tiny_problem(12);
    assert!(is_feasible(&tight, &s));
}

#[test]
fn is_feasible_rejects_each_fault() {
    let pb = tiny_problem(20);
    assert!(!is_feasible(&pb, &route(vec![0, 3, 1, 4, 0], vec![0, 2, 1, 3, 0])));
    assert!(!is_feasible(&tiny_problem(11), &route(vec![0, 3, 1, 0], vec![0, 2, 1, 0])));
    assert!(!is_feasible(&pb, &route(vec![0, 3, 1, 0], vec![0, 1, 2, 0])));
    assert!(!is_feasible(&pb, &route(vec![0, 1, 2, 0], vec![0, 1, 1, 0])));
    assert!(!is_feasible(&pb, &route(vec![3, 0], vec![2, 0])));
    assert!(!is_feasible(&pb, &route(vec![0, 3], vec![0, 2])));
    assert!(!is_feasible(&pb, &route(vec![0], vec![0])));
    assert!(!is_feasible(&pb, &route(vec![0, 0, 0], vec![0, 0, 0])));
    assert!(!is_feasible(&pb, &route(vec![0, 3, 0], vec![0, 2, 2, 0])));
    assert!(!is_feasible(&pb, &route(vec![0, 9, 0], vec![0, 2, 0])));
    assert!(!is_feasible(&pb, &route(vec![0, 3, 0], vec![0, 9, 0])));
}

#[test]
fn optimize_vertices_dp_picks_the_cheapest_members() {
    let pb = tiny_problem(20);
    let mut s = route(vec![0, 2, 3, 0], vec![0, 1, 2, 0]);
    s.recompute(&pb);
    assert_eq!(s.total_cost, 18);
    optimize_vertices_dp(&pb, &mut s);
    assert_eq!(s.tour_nodes, vec![0, 1, 3, 0]);
    assert_eq!(s.total_cost, 12);
    assert_eq!(s.total_profit, 30);
}

#[test]
fn optimize_vertices_dp_leaves_short_routes() {
    let pb = tiny_problem(20);
    let mut s = Solution::new();
    optimize_vertices_dp(&pb, &mut s);
    assert_eq!(s.tour_nodes, vec![0, 0]);
    assert_eq!(s.total_cost, 0);
}

#[test]
fn optimize_routing_2opt_reverses_a_crossing() {
    let pb = tiny_problem(40);
    let mut s = route(vec![0, 4, 3, 2, 0], vec![0, 3, 2, 1, 0]);
    s.recompute(&pb);
    assert_eq!(s.total_cost, 30);
    optimize_routing_2opt(&pb, &mut s);
    assert_eq!(s.tour_nodes, vec![0, 3, 4, 2, 0]);
    assert_eq!(s.tour_clusters, vec![0, 2, 3, 1, 0]);
    assert_eq!(s.total_cost, 24);
    assert_eq!(s.total_profit, 35);
}

#[test]
fn tour_improvement_reaches_the_short_route() {
    let pb = tiny_problem(20);
    let mut s = route(vec![0, 2, 3, 0], vec![0, 1, 2, 0]);
    s.recompute(&pb);
    tour_improvement(&pb, &mut s);
    assert_eq!(s.tour_nodes, vec![0, 1, 3, 0]);
    assert_eq!(s.tour_clusters, vec![0, 1, 2, 0]);
    assert_eq!(s.total_cost, 12);
    assert_eq!(s.total_profit, 30);
}

#[test]
fn clusters_by_profit_sorts_descending() {
    let pb = tiny_problem(20);
    assert_eq!(clusters_by_profit(&pb), vec![2, 1, 3]);
}

#[test]
fn phase1_construction_builds_a_feasible_greedy_route() {
    let pb = tiny_problem(20);
    let s = phase1_construction(&pb);
    assert_eq!(s.tour_nodes, vec![0, 3, 1, 0]);
    assert_eq!(s.tour_clusters, vec![0, 2, 1, 0]);
    assert_eq!(s.total_cost, 12);
    assert_eq!(s.total_profit, 30);
    assert!(is_feasible(&pb, &s));
}

#[test]
fn phase1_construction_with_no_budget_stays_home() {
    let pb = tiny_problem(0);
    let s = phase1_construction(&pb);
    assert_eq!(s.tour_nodes, vec![0, 0]);
    assert_eq!(s.total_profit, 0);
    assert!(is_feasible(&pb, &s));
}

#[test]
fn random_initial_solution_follows_the_seed() {
    let pb = tiny_problem(20);
    let mut rng = EpochRng::from_seed(1);
    let s = random_feasible_initial_solution(&pb, &mut rng);
    assert_eq!(s.tour_nodes, vec![0, 1, 4, 0]);
    assert_eq!(s.tour_clusters, vec![0, 1, 3, 0]);
    assert_eq!(s.total_profit, 15);
    assert_eq!(s.total_cost, 20);
    assert!(is_feasible(&pb, &s));
    let mut after = EpochRng::from_seed(14673421054488193520);
    assert_eq!(rng.next_u64(), after.next_u64());
    let mut rng2 = EpochRng::from_seed(2);
    let s2 = random_feasible_initial_solution(&pb, &mut rng2);
    assert_eq!(s2.tour_nodes, vec![0, 4, 1, 0]);
    assert_eq!(s2.tour_clusters, vec![0, 3, 1, 0]);
}

#[test]
fn random_initial_solutions_are_feasible() {
    let pb = tiny_problem(20);
    for seed in 0..200u64 {
        let mut rng = EpochRng::from_seed(seed);
        let s = random_feasible_initial_solution(&pb, &mut rng);
        assert!(is_feasible(&pb, &s));
        let mut check = s.clone();
        check.recompute(&pb);
        assert_eq!(check.total_cost, s.total_cost);
        assert_eq!(check.total_profit, s.total_profit);
    }
}

#[test]
fn customer_ids_count_from_one() {
    assert_eq!(customer_ids(&vec![0, 3, 1, 0]), vec![4, 2]);
    assert_eq!(customer_ids(&vec![0, 0]), Vec::<usize>::new());
}
