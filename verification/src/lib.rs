//! Set Orienteering Problem: instance model, solution bookkeeping, feasibility,
//! constructive heuristics, local search and the neighbourhood moves of the
//! metaheuristics, with their contracts proved by Verus.
pub mod rng;
pub mod models;
pub mod feasibility;
pub mod phase1;
pub mod phase1_rand;
pub mod route_lemmas;
pub mod tabu;
pub mod tabu_best;
pub mod configs;
pub mod annealing;
pub mod sa_lin;
pub mod grasp;
pub mod parser;
pub mod output;
pub mod stopping;
