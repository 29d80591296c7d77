use lib::annealing::{
    annealing_neighbor, contains_value, evaluate, evaluate_raw, should_stop, stop_reached,
    take_neighbor, AnnealState, RunStats, StopCriteria,
};
use lib::configs::DataPath;
use lib::grasp::{append_candidate, append_pick, grasp_candidates, grasp_step, improves, remove_value, GraspState};
use lib::models::{Problem, Solution};
use lib::rng::{seed_from_clock, EpochRng, XorShift};
use lib::sa_lin::{apply_lin_move, count_lin_evaluation, propose_lin_move, take_lin_move, LinMove, LinState};
use lib::stopping::{search_stop, StopReason, MAX_CONVERGENCE_ITER};
use lib::tabu::{explore_neighborhood, shake_with_bounds, tabu_start, tabu_step, TabuState};
use std::time::Instant;

fn search_distances() -> Vec<u64> {
    let coords = [(0.0f64, 0.0f64), (3.0, 0.0), (0.0, 4.0), (6.0, 0.0), (0.0, 8.0)];
    let n = coords.len();
    let mut dist = vec![0u64; n * n];
    for i in 0..n {
        for j in 0..n {
            if i != j {
                let dx = coords[i].0 - coords[j].0;
                let dy = coords[i].1 - coords[j].1;
                dist[i * n + j] = (dx * dx + dy * dy).sqrt().ceil() as u64;
            }
        }
    }
    dist
}

fn search_problem() -> Problem {
    Problem::from_tables(
        5,
        4,
        20,
        search_distances(),
        vec![0, 1, 1, 2, 3],
        vec![vec![0], vec![1, 2], vec![3], vec![4]],
        vec![0, 10, 20, 5],
    )
    .expect("a well-formed instance")
}

fn search_route(pb: &Problem, nodes: Vec<usize>, clusters: Vec<usize>) -> Solution {
    let mut s = Solution::new();
    s.tour_nodes = nodes;
    s.tour_clusters = clusters;
    s.recompute(pb);
    s
}

fn next_after(state: u64) -> u64 {
    EpochRng::from_seed(state).next_u64()
}

#[test]
fn explore_neighborhood_finds_the_best_exchange() {
    let pb = search_problem();
    let cur = search_route(&pb, vec![0, 3, 1, 0], vec![0, 2, 1, 0]);
    let mut evals: u64 = 0;
    let res = explore_neighborhood(&pb, &cur, &[0, 0, 0, 0], &[0, 0, 0, 0], 1, 30, 12, &mut evals);
    assert_eq!(evals, 7);
    let (sol, cluster, removed) = res.expect("a move");
    assert_eq!(sol.tour_nodes, vec![0, 4, 1, 0]);
    assert_eq!(sol.tour_clusters, vec![0, 3, 1, 0]);
    assert_eq!(sol.total_profit, 15);
    assert_eq!(sol.total_cost, 20);
    assert_eq!(cluster, 3);
    assert_eq!(removed, Some(2));
}

#[test]
fn explore_neighborhood_reports_insertions() {
    let pb = search_problem();
    let cur = search_route(&pb, vec![0, 1, 0], vec![0, 1, 0]);
    let mut evals: u64 = 0;
    let res = explore_neighborhood(&pb, &cur, &[0, 0, 0, 0], &[0, 0, 0, 0], 1, 10, 6, &mut evals);
    let (sol, cluster, removed) = res.expect("a move");
    assert_eq!(sol.tour_nodes, vec![0, 3, 1, 0]);
    assert_eq!(sol.tour_clusters, vec![0, 2, 1, 0]);
    assert_eq!(sol.total_profit, 30);
    assert_eq!(sol.total_cost, 12);
    assert_eq!(cluster, 2);
    assert_eq!(removed, None);
}

#[test]
fn explore_neighborhood_works_from_the_kept_totals() {
    let pb = search_problem();
    let mut cur = search_route(&pb, vec![0, 1, 0], vec![0, 1, 0]);
    cur.total_cost = 8;
    cur.total_profit = 12;
    let mut evals: u64 = 0;
    let res = explore_neighborhood(&pb, &cur, &[0; 6], &[0; 6], 1, 10, 6, &mut evals);
    let (sol, cluster, removed) = res.expect("a move");
    assert_eq!(sol.tour_nodes, vec![0, 3, 1, 0]);
    assert_eq!(sol.total_cost, 14);
    assert_eq!(sol.total_profit, 32);
    assert_eq!(cluster, 2);
    assert_eq!(removed, None);
    assert_eq!(evals, 2 + 2 + 1 + 1);
}

#[test]
fn explore_neighborhood_takes_tabu_moves_that_beat_the_best() {
    let pb = search_problem();
    let cur = search_route(&pb, vec![0, 3, 1, 0], vec![0, 2, 1, 0]);
    let mut evals: u64 = 0;
    let res = explore_neighborhood(&pb, &cur, &[0, 0, 0, 5], &[0, 0, 0, 0], 1, 10, 12, &mut evals);
    let (sol, cluster, removed) = res.expect("an aspiring move");
    assert_eq!(sol.tour_nodes, vec![0, 4, 1, 0]);
    assert_eq!(cluster, 3);
    assert_eq!(removed, Some(2));
    let mut evals2: u64 = 0;
    let res2 = explore_neighborhood(&pb, &cur, &[0, 0, 0, 5], &[0, 0, 0, 0], 1, 15, 20, &mut evals2);
    assert!(res2.is_none());
    let mut evals3: u64 = 0;
    let res3 = explore_neighborhood(&pb, &cur, &[0, 0, 0, 5], &[0, 0, 0, 0], 1, 15, 21, &mut evals3);
    assert!(res3.is_some());
}

#[test]
fn explore_neighborhood_skips_tabu_moves() {
    let pb = search_problem();
    let cur = search_route(&pb, vec![0, 3, 1, 0], vec![0, 2, 1, 0]);
    let mut evals: u64 = 10;
    let res = explore_neighborhood(&pb, &cur, &[0, 0, 0, 5], &[0, 0, 0, 0], 1, 30, 12, &mut evals);
    assert!(res.is_none());
    assert_eq!(evals, 17);
    let mut evals2: u64 = 0;
    let res2 = explore_neighborhood(&pb, &cur, &[0, 0, 0, 5], &[0, 0, 0, 0], 5, 30, 12, &mut evals2);
    assert!(res2.is_some());
}

#[test]
fn shake_removes_drawn_stops() {
    let pb = search_problem();
    let cur = search_route(&pb, vec![0, 3, 1, 4, 0], vec![0, 2, 1, 3, 0]);
    let mut rng = XorShift::new(42);
    let s = shake_with_bounds(&cur, 1, 2, &mut rng, &pb);
    assert_eq!(s.tour_nodes, vec![0, 3, 4, 0]);
    assert_eq!(s.tour_clusters, vec![0, 2, 3, 0]);
    assert_eq!(s.total_cost, 24);
    assert_eq!(s.total_profit, 25);
    assert_eq!(rng.state, 11532217803599905471);
    let mut rng7 = XorShift::new(7);
    let s7 = shake_with_bounds(&cur, 1, 2, &mut rng7, &pb);
    assert_eq!(s7.tour_nodes, vec![0, 1, 0]);
    assert_eq!(s7.total_cost, 6);
    assert_eq!(s7.total_profit, 10);
}

#[test]
fn shake_leaves_short_routes() {
    let pb = search_problem();
    let cur = search_route(&pb, vec![0, 3, 0], vec![0, 2, 0]);
    let mut rng = XorShift::new(42);
    let s = shake_with_bounds(&cur, 1, 2, &mut rng, &pb);
    assert_eq!(s.tour_nodes, vec![0, 3, 0]);
    assert_eq!(s.total_cost, 12);
    assert_eq!(rng.state, 42);
}

#[test]
fn tabu_step_takes_the_move_and_sets_the_tenure() {
    let pb = search_problem();
    let cur = search_route(&pb, vec![0, 3, 1, 0], vec![0, 2, 1, 0]);
    let mut st = TabuState {
        current: cur.clone(),
        best: cur.clone(),
        tabu_insert: vec![0; 4],
        tabu_remove: vec![0; 4],
        iter_without_improvement: 0,
        total_iters: 0,
        eval_count: 0,
        rng: XorShift::new(42),
    };
    tabu_step(&pb, &mut st, 2, 100, 1, 1);
    assert_eq!(st.total_iters, 1);
    assert_eq!(st.current.tour_nodes, vec![0, 4, 1, 0]);
    assert_eq!(st.current.tour_clusters, vec![0, 3, 1, 0]);
    assert_eq!(st.tabu_insert, vec![0, 0, 2, 0]);
    assert_eq!(st.tabu_remove, vec![0, 0, 0, 2]);
    assert_eq!(st.rng.state, 45454805674);
    assert_eq!(st.eval_count, 7);
    assert_eq!(st.iter_without_improvement, 1);
    assert_eq!(st.best.tour_nodes, vec![0, 3, 1, 0]);
    assert_eq!(st.best.total_profit, 30);
}

#[test]
fn annealing_neighbor_inserts_and_replaces() {
    let pb = search_problem();
    let cur = search_route(&pb, vec![0, 3, 1, 0], vec![0, 2, 1, 0]);
    let mut rng = EpochRng::from_seed(1);
    let n = annealing_neighbor(&pb, &cur, &mut rng).expect("an insertion");
    assert_eq!(n.tour_clusters, vec![0, 2, 1, 3, 0]);
    assert_eq!(n.tour_nodes, vec![0, 3, 1, 4, 0]);
    assert_eq!(n.total_cost, 26);
    assert_eq!(n.total_profit, 35);
    assert_eq!(rng.next_u64(), next_after(11960119808228829710));
    let mut rng4 = EpochRng::from_seed(4);
    let r = annealing_neighbor(&pb, &cur, &mut rng4).expect("a replacement");
    assert_eq!(r.tour_clusters, vec![0, 3, 1, 0]);
    assert_eq!(r.tour_nodes, vec![0, 4, 2, 0]);
    assert_eq!(r.total_cost, 16);
    assert_eq!(r.total_profit, 15);
    assert_eq!(rng4.next_u64(), next_after(14341745989969716461));
}

#[test]
fn annealing_neighbor_without_a_move() {
    let pb = search_problem();
    let cur = search_route(&pb, vec![0, 3, 1, 0], vec![0, 2, 1, 0]);
    let mut rng = EpochRng::from_seed(0);
    assert!(annealing_neighbor(&pb, &cur, &mut rng).is_none());
    assert_eq!(rng.next_u64(), next_after(11166244414315200793));
    let mut rng3 = EpochRng::from_seed(3);
    assert!(annealing_neighbor(&pb, &cur, &mut rng3).is_none());
}

#[test]
fn propose_lin_move_each_kind() {
    let pb = search_problem();
    let r5 = search_route(&pb, vec![0, 3, 1, 4, 0], vec![0, 2, 1, 3, 0]);
    let r4 = search_route(&pb, vec![0, 3, 1, 0], vec![0, 2, 1, 0]);

    let mut rng = EpochRng::from_seed(24);
    let (mv, dc, dp) = propose_lin_move(&pb, &r5, &mut rng).expect("a node change");
    assert!(matches!(mv, LinMove::NodeChange { pos: 2, node: 2 }));
    assert_eq!((dc, dp), (0, 0));
    assert_eq!(rng.next_u64(), 17722685152047557452);

    let mut rng = EpochRng::from_seed(52);
    let (mv, dc, dp) = propose_lin_move(&pb, &r5, &mut rng).expect("an inversion");
    assert!(matches!(mv, LinMove::Inversion { i: 1, j: 3 }));
    assert_eq!((dc, dp), (0, 0));
    assert_eq!(rng.next_u64(), 8243295011017274664);

    let mut rng = EpochRng::from_seed(81);
    let (mv, dc, dp) = propose_lin_move(&pb, &r5, &mut rng).expect("a swap");
    assert!(matches!(mv, LinMove::Swap { i: 1, j: 2 }));
    assert_eq!((dc, dp), (-2, 0));
    assert_eq!(rng.next_u64(), 16872099295802604821);

    let mut rng = EpochRng::from_seed(110);
    let (mv, dc, dp) = propose_lin_move(&pb, &r5, &mut rng).expect("a drop");
    assert!(matches!(mv, LinMove::Drop { pos: 2 }));
    assert_eq!((dc, dp), (-2, -10));
    assert_eq!(rng.next_u64(), 6258817376266623583);

    let mut rng = EpochRng::from_seed(0);
    assert!(propose_lin_move(&pb, &r5, &mut rng).is_none());
    assert_eq!(rng.next_u64(), 11166244414315200793);

    let mut rng = EpochRng::from_seed(1);
    let (mv, dc, dp) = propose_lin_move(&pb, &r4, &mut rng).expect("an insertion");
    assert!(matches!(mv, LinMove::Insert { pos: 3, node: 4, cluster: 3 }));
    assert_eq!((dc, dp), (14, 5));
    assert_eq!(rng.next_u64(), 14673421054488193520);

    let mut rng = EpochRng::from_seed(139);
    let (mv, dc, dp) = propose_lin_move(&pb, &r4, &mut rng).expect("a replacement");
    assert!(matches!(mv, LinMove::Replace { pos: 2, node: 4, cluster: 3 }));
    assert_eq!((dc, dp), (12, -5));
    assert_eq!(rng.next_u64(), 11563843508820908114);

    let mut rng = EpochRng::from_seed(23);
    let (mv, dc, dp) = propose_lin_move(&pb, &r4, &mut rng).expect("a node change");
    assert!(matches!(mv, LinMove::NodeChange { pos: 2, node: 2 }));
    assert_eq!((dc, dp), (6, 0));
    assert_eq!(rng.next_u64(), 15781756002892790190);
}

#[test]
fn proposed_lin_moves_keep_totals_exact() {
    let pb = search_problem();
    for seed in 0..300u64 {
        for (nodes, clusters) in [
            (vec![0, 3, 1, 4, 0], vec![0, 2, 1, 3, 0]),
            (vec![0, 3, 1, 0], vec![0, 2, 1, 0]),
            (vec![0, 2, 0], vec![0, 1, 0]),
            (vec![0, 0], vec![0, 0]),
        ] {
            let mut sol = search_route(&pb, nodes, clusters);
            let mut rng = EpochRng::from_seed(seed);
            if let Some((mv, dc, dp)) = propose_lin_move(&pb, &sol, &mut rng) {
                apply_lin_move(&mut sol, &mv, dc, dp);
                let mut check = sol.clone();
                check.recompute(&pb);
                assert_eq!(check.total_cost, sol.total_cost);
                assert_eq!(check.total_profit, sol.total_profit);
            }
        }
    }
}

#[test]
fn apply_lin_move_drop() {
    let pb = search_problem();
    let mut sol = search_route(&pb, vec![0, 3, 1, 4, 0], vec![0, 2, 1, 3, 0]);
    apply_lin_move(&mut sol, &LinMove::Drop { pos: 2 }, -2, -10);
    assert_eq!(sol.tour_nodes, vec![0, 3, 4, 0]);
    assert_eq!(sol.tour_clusters, vec![0, 2, 3, 0]);
    assert_eq!(sol.total_cost, 24);
    assert_eq!(sol.total_profit, 25);
    apply_lin_move(&mut sol, &LinMove::Inversion { i: 1, j: 2 }, 0, 0);
    assert_eq!(sol.tour_nodes, vec![0, 4, 3, 0]);
    assert_eq!(sol.tour_clusters, vec![0, 3, 2, 0]);
}

#[test]
fn grasp_candidates_lists_affordable_clusters() {
    let pb = search_problem();
    let start = Solution::new();
    assert_eq!(
        grasp_candidates(&pb, &start, &vec![1, 2, 3]),
        vec![(1, 1, 6), (2, 3, 12), (3, 4, 16)]
    );
    let mut one = Solution::new();
    append_candidate(&mut one, &pb, 2, 3, 12);
    assert_eq!(one.tour_nodes, vec![0, 3, 0]);
    assert_eq!(one.tour_clusters, vec![0, 2, 0]);
    assert_eq!(one.total_cost, 12);
    assert_eq!(one.total_profit, 20);
    assert_eq!(grasp_candidates(&pb, &one, &vec![1, 3]), vec![(1, 1, 0)]);
}

#[test]
fn remove_value_and_improves() {
    let mut v = vec![3, 1, 3, 2];
    remove_value(&mut v, 3);
    assert_eq!(v, vec![1, 2]);
    let pb = search_problem();
    let a = search_route(&pb, vec![0, 3, 1, 0], vec![0, 2, 1, 0]);
    let b = search_route(&pb, vec![0, 1, 3, 0], vec![0, 1, 2, 0]);
    let c = search_route(&pb, vec![0, 2, 3, 0], vec![0, 1, 2, 0]);
    assert!(!improves(&a, &b));
    assert!(improves(&b, &c));
    assert!(!improves(&c, &b));
    assert!(improves(&a, &Solution::new()));
}

#[test]
fn stop_rules() {
    let none = StopCriteria { max_time_secs: 0, max_evals: 0 };
    let evals = StopCriteria { max_time_secs: 0, max_evals: 10 };
    let time = StopCriteria { max_time_secs: 5, max_evals: 0 };
    let s9 = RunStats { eval_count: 9 };
    let s10 = RunStats { eval_count: 10 };
    assert!(!stop_reached(100, &none, &s10));
    assert!(!stop_reached(0, &evals, &s9));
    assert!(stop_reached(0, &evals, &s10));
    assert!(!stop_reached(4, &time, &s10));
    assert!(stop_reached(5, &time, &s9));
    let start = Instant::now();
    assert!(!should_stop(&start, &none, &s10));
    assert!(should_stop(&start, &evals, &s10));
    assert!(!should_stop(&start, &evals, &s9));
}

#[test]
fn penalised_objectives() {
    let pb = search_problem();
    let over = search_route(&pb, vec![0, 3, 1, 4, 0], vec![0, 2, 1, 3, 0]);
    let mut stats = RunStats { eval_count: 3 };
    assert_eq!(evaluate(&over, &pb, &mut stats), 35 - 100 * 6);
    assert_eq!(stats.eval_count, 4);
    let fine = search_route(&pb, vec![0, 3, 1, 0], vec![0, 2, 1, 0]);
    assert_eq!(evaluate(&fine, &pb, &mut stats), 30);
    assert_eq!(evaluate_raw(35, 26, 20), 35 - 600);
    assert_eq!(evaluate_raw(35, 20, 20), 35);
    assert_eq!(evaluate_raw(-5, -1, 0), -5);
}

#[test]
fn contains_value_scans() {
    assert!(contains_value(&vec![4, 5, 6], 5));
    assert!(!contains_value(&vec![4, 5, 6], 7));
    assert!(!contains_value(&vec![], 0));
}

#[test]
fn data_path_defaults() {
    let d = DataPath::default();
    assert_eq!(d.data_dir, "src/data");
    assert_eq!(d.output_dir, "/output");
    assert_eq!(d.instances_dir, "src/data/instances");
}

#[test]
fn tabu_steps_never_worsen_the_best() {
    let pb = search_problem();
    let start = search_route(&pb, vec![0, 4, 1, 0], vec![0, 3, 1, 0]);
    let mut st = TabuState {
        current: start.clone(),
        best: start,
        tabu_insert: vec![0; 4],
        tabu_remove: vec![0; 4],
        iter_without_improvement: 0,
        total_iters: 0,
        eval_count: 0,
        rng: XorShift::new(42),
    };
    for _ in 0..200 {
        let before = st.best.clone();
        tabu_step(&pb, &mut st, 2, 3, 1, 1);
        let same = st.best.tour_nodes == before.tour_nodes
            && st.best.total_profit == before.total_profit
            && st.best.total_cost == before.total_cost;
        assert!(same || improves(&st.best, &before));
        assert!(lib::feasibility::is_feasible(&pb, &st.best));
        let mut check = st.current.clone();
        check.recompute(&pb);
        assert_eq!(check.total_cost, st.current.total_cost);
        assert_eq!(check.total_profit, st.current.total_profit);
    }
    assert_eq!(st.total_iters, 200);
    assert_eq!(st.best.total_profit, 30);
    assert_eq!(st.best.total_cost, 12);
}

#[test]
fn appending_listed_candidates_stays_feasible() {
    let pb = search_problem();
    for seed in 0..100u64 {
        let mut rng = EpochRng::from_seed(seed);
        let mut sol = Solution::new();
        let mut unvisited: Vec<usize> = (1..pb.num_clusters).collect();
        loop {
            let cands = grasp_candidates(&pb, &sol, &unvisited);
            if cands.is_empty() {
                break;
            }
            let (c, v, add) = cands[(rng.next_u32() as usize) % cands.len()];
            append_candidate(&mut sol, &pb, c, v, add);
            remove_value(&mut unvisited, c);
            let mut check = sol.clone();
            check.recompute(&pb);
            assert_eq!(check.total_cost, sol.total_cost);
            assert!(sol.total_cost <= pb.t_max);
        }
        assert!(lib::feasibility::is_feasible(&pb, &sol));
    }
}

#[test]
fn annealing_neighbors_keep_clusters_distinct() {
    let pb = search_problem();
    let mut cur = search_route(&pb, vec![0, 3, 0], vec![0, 2, 0]);
    let mut rng = EpochRng::from_seed(99);
    for _ in 0..500 {
        if let Some(n) = annealing_neighbor(&pb, &cur, &mut rng) {
            let cl = &n.tour_clusters;
            assert_eq!(cl[0], 0);
            assert_eq!(cl[cl.len() - 1], 0);
            for a in 1..cl.len() - 1 {
                assert!(cl[a] != 0);
                for b in a + 1..cl.len() - 1 {
                    assert!(cl[a] != cl[b]);
                }
            }
            let mut check = n.clone();
            check.recompute(&pb);
            assert_eq!(check.total_cost, n.total_cost);
            cur = n;
        }
    }
}

#[test]
fn take_neighbor_tracks_the_best_within_budget() {
    let pb = search_problem();
    let start = search_route(&pb, vec![0, 1, 0], vec![0, 1, 0]);
    let mut st = AnnealState {
        current: start.clone(),
        current_eval: 10,
        best: start,
        best_eval: 10,
    };
    let over = search_route(&pb, vec![0, 3, 1, 4, 0], vec![0, 2, 1, 3, 0]);
    take_neighbor(&pb, &mut st, over.clone(), 35, false);
    assert_eq!(st.current.tour_nodes, vec![0, 1, 0]);
    assert_eq!(st.current_eval, 10);
    take_neighbor(&pb, &mut st, over, 35, true);
    assert_eq!(st.current.tour_nodes, vec![0, 3, 1, 4, 0]);
    assert_eq!(st.current_eval, 35);
    assert_eq!(st.best.tour_nodes, vec![0, 1, 0]);
    assert_eq!(st.best_eval, 10);
    let good = search_route(&pb, vec![0, 3, 1, 0], vec![0, 2, 1, 0]);
    take_neighbor(&pb, &mut st, good, 30, true);
    assert_eq!(st.best.tour_nodes, vec![0, 3, 1, 0]);
    assert_eq!(st.best_eval, 30);
}

#[test]
fn take_lin_move_applies_and_tracks_the_best() {
    let pb = search_problem();
    let start = search_route(&pb, vec![0, 3, 1, 4, 0], vec![0, 2, 1, 3, 0]);
    let mut st = LinState {
        current: start.clone(),
        best: start,
        best_eval: -1000,
    };
    take_lin_move(&pb, &mut st, &LinMove::Drop { pos: 2 }, -2, -10, false);
    assert_eq!(st.current.tour_nodes, vec![0, 3, 1, 4, 0]);
    take_lin_move(&pb, &mut st, &LinMove::Drop { pos: 2 }, -2, -10, true);
    assert_eq!(st.current.tour_nodes, vec![0, 3, 4, 0]);
    assert_eq!(st.current.total_cost, 24);
    assert_eq!(st.current.total_profit, 25);
    assert_eq!(st.best.tour_nodes, vec![0, 3, 1, 4, 0]);
    assert_eq!(st.best_eval, -1000);
    take_lin_move(&pb, &mut st, &LinMove::Drop { pos: 2 }, -12, -5, true);
    assert_eq!(st.current.tour_nodes, vec![0, 3, 0]);
    assert_eq!(st.current.total_cost, 12);
    assert_eq!(st.best.tour_nodes, vec![0, 3, 0]);
    assert_eq!(st.best_eval, 20);
}

#[test]
fn search_stop_tests_in_order() {
    assert_eq!(search_stop(10, 10, 5, 5, 0), Some(StopReason::TimeLimit));
    assert_eq!(search_stop(9, 10, 5, 5, 0), Some(StopReason::EvaluationLimit));
    assert_eq!(search_stop(9, 10, 5, 4, 99999), None);
    assert_eq!(search_stop(100, 0, 0, 100, MAX_CONVERGENCE_ITER - 1), None);
    assert_eq!(search_stop(100, 0, 0, 100, MAX_CONVERGENCE_ITER), Some(StopReason::Convergence));
    assert_eq!(search_stop(100, 0, 7, 3, MAX_CONVERGENCE_ITER), None);
}

#[test]
fn tabu_start_takes_routes_within_the_budget() {
    let pb = search_problem();
    let cur = search_route(&pb, vec![0, 3, 1, 0], vec![0, 2, 1, 0]);
    let st = tabu_start(&pb, cur).expect("a route the search can start from");
    assert_eq!(st.current.tour_nodes, vec![0, 3, 1, 0]);
    assert_eq!(st.best.tour_clusters, vec![0, 2, 1, 0]);
    assert_eq!(st.best.total_cost, 12);
    assert_eq!(st.tabu_insert, vec![0; 4]);
    assert_eq!(st.tabu_remove, vec![0; 4]);
    assert_eq!(st.total_iters, 0);
    assert_eq!(st.eval_count, 0);
    assert_eq!(st.rng.state, 42);
}

#[test]
fn tabu_start_recomputes_the_totals() {
    let pb = search_problem();
    let long = search_route(&pb, vec![0, 3, 1, 4, 0], vec![0, 2, 1, 3, 0]);
    assert_eq!(long.total_cost, 26);
    let st = tabu_start(&pb, long).expect("an over-budget start");
    assert_eq!(st.best.total_cost, 26);
    assert_eq!(st.best.total_profit, 35);
    let mut stale = search_route(&pb, vec![0, 3, 1, 0], vec![0, 2, 1, 0]);
    stale.total_cost = 11;
    stale.total_profit = 3;
    let st2 = tabu_start(&pb, stale).expect("a start with stale totals");
    assert_eq!(st2.current.total_cost, 12);
    assert_eq!(st2.current.total_profit, 30);
    assert_eq!(st2.best.total_cost, 12);
}

#[test]
fn tabu_start_refuses_other_routes() {
    let pb = search_problem();
    let twice = search_route(&pb, vec![0, 1, 2, 0], vec![0, 1, 1, 0]);
    assert!(tabu_start(&pb, twice).is_none());
    let stranger = search_route(&pb, vec![0, 1, 0], vec![0, 2, 0]);
    assert!(tabu_start(&pb, stranger).is_none());
}

#[test]
fn grasp_step_keeps_the_better_route() {
    let pb = search_problem();
    let mut st = GraspState { best: Solution::new(), eval_count: 0, iter_without_improvement: 3 };
    grasp_step(&pb, &mut st, search_route(&pb, vec![0, 3, 1, 0], vec![0, 2, 1, 0]));
    assert_eq!(st.eval_count, 1);
    assert_eq!(st.iter_without_improvement, 0);
    assert_eq!(st.best.tour_clusters, vec![0, 2, 1, 0]);
    assert_eq!(st.best.total_profit, 30);
    assert_eq!(st.best.total_cost, 12);
    grasp_step(&pb, &mut st, search_route(&pb, vec![0, 1, 0], vec![0, 1, 0]));
    assert_eq!(st.eval_count, 2);
    assert_eq!(st.iter_without_improvement, 1);
    assert_eq!(st.best.total_profit, 30);
    assert_eq!(st.best.total_cost, 12);
    assert!(lib::feasibility::is_feasible(&pb, &st.best));
}

#[test]
fn count_lin_evaluation_refreshes_the_totals() {
    let pb = search_problem();
    let mut stale = search_route(&pb, vec![0, 3, 1, 0], vec![0, 2, 1, 0]);
    stale.total_cost = 99;
    stale.total_profit = 7;
    let mut st = LinState { current: stale.clone(), best: stale, best_eval: 5 };
    let mut stats = RunStats { eval_count: 41 };
    count_lin_evaluation(&pb, &mut st, &mut stats);
    assert_eq!(stats.eval_count, 42);
    assert_eq!(st.current.total_cost, 99);
    let mut stats2 = RunStats { eval_count: 199_999 };
    count_lin_evaluation(&pb, &mut st, &mut stats2);
    assert_eq!(stats2.eval_count, 200_000);
    assert_eq!(st.current.tour_nodes, vec![0, 3, 1, 0]);
    assert_eq!(st.current.total_cost, 12);
    assert_eq!(st.current.total_profit, 30);
    assert_eq!(st.best.total_cost, 99);
    assert_eq!(st.best_eval, 5);
}

#[test]
fn seed_from_clock_keeps_the_low_bits() {
    assert_eq!(seed_from_clock(None), 0);
    assert_eq!(seed_from_clock(Some(42)), 42);
    assert_eq!(seed_from_clock(Some((1u128 << 64) + 7)), 7);
    assert_eq!(seed_from_clock(Some(u128::MAX)), u64::MAX);
}

#[test]
fn append_pick_takes_the_drawn_entry() {
    let pb = search_problem();
    let mut sol = Solution::new();
    let mut unvisited = vec![1, 2, 3];
    let rcl = grasp_candidates(&pb, &sol, &unvisited);
    assert_eq!(rcl, vec![(1, 1, 6), (2, 3, 12), (3, 4, 16)]);
    let pick = append_pick(&mut sol, &pb, &mut unvisited, &rcl, 4);
    assert_eq!(pick, (2, 3, 12));
    assert_eq!(sol.tour_nodes, vec![0, 3, 0]);
    assert_eq!(sol.tour_clusters, vec![0, 2, 0]);
    assert_eq!(sol.total_cost, 12);
    assert_eq!(sol.total_profit, 20);
    assert_eq!(unvisited, vec![1, 3]);
}
