# Set Orienteering Problem metaheuristics, verified

A route starts and ends at the depot, visits clusters (sets) of nodes and
collects the profit of each cluster it visits, within a travel budget. This
crate holds the integer logic of several metaheuristics for that problem,
with contracts proved by Verus:

- `src/` — the verified library:
  - `models`: the instance (`Problem`, with a checked constructor) and a route
    (`Solution`) with its bookkept totals;
  - `parser`: the instance file format, read from its bytes;
  - `feasibility`: whether a route is feasible;
  - `phase1`, `phase1_rand`: greedy and random first routes, the best choice of
    members by dynamic programming and 2-opt;
  - `tabu`: the tabu neighbourhood (with aspiration), the shake, the start
    state and one tabu iteration, whose best route stays within the budget;
  - `tabu_best`: the best move of the neighbourhood stated directly, as a move
    on offer that no other move on offer beats;
  - `annealing`, `sa_lin`: the moves of the two annealing variants and their
    exact effect on the totals;
  - `grasp`: the candidates of the randomized greedy construction and one
    GRASP iteration after it;
  - `rng`: the generators; `output`: what a solution file lists.
- `app/` — the command-line program: file I/O, the clock, and the
  floating-point parts (distances, acceptance probabilities, cooling,
  candidate thresholds).
- `tests/` — tests of the library on small instances.

Distances are the CEIL_2D rounded Euclidean distances of the instance files;
the library holds them, the profits and the budget as whole numbers.
