//! What holds of every search, stated over [`crate::search::run`]. An
//! engine's state is always `run(problem, steps)`, so each statement here
//! is a statement about every engine at every moment.

use vstd::prelude::*;
use crate::diagonal::Diagonal;
use crate::guided::{lemma_estimate_is_lower_bound, lemma_guided_is_shortest, well_posed};
use crate::models::Coord;
use crate::open_grid::{
    aims_at, grid_distance, lemma_found_is_shortest, lemma_open_grid_guided,
    lemma_open_grid_reachable, matching_heuristic, open_uniform,
};
use crate::progress::{
    lemma_dry_frontier, lemma_path_to_levels, lemma_run_thorough, lemma_running_bounded,
};
use crate::search::{cells_of, run, selected, status_of, step, Outcome, Problem, SearchState};
use crate::shape::{lemma_close_sound, lemma_offer_all_sound, lemma_run_sound, one_node_per_cell};
use crate::uniform::{
    blind, lemma_blind_is_shortest, lemma_run_alike, same_but_weight, uniform_cost,
};

verus! {

/// A finished search is its own successor: once a path is found, or none
/// can be, a further step changes nothing, neither the outcome nor any node
/// or list.
pub proof fn law_finished_state_is_fixed(p: Problem, s: SearchState)
    requires
        !(s.outcome is Running),
    ensures
        step(p, s) == s,
{
}

/// Once the search has finished after `n` steps, it is in the same state
/// after any larger number of steps.
pub proof fn law_finished_run_is_fixed(p: Problem, n: nat, later: nat)
    requires
        !(run(p, n).outcome is Running),
        n <= later,
    ensures
        run(p, later) == run(p, n),
    decreases later,
{
    if later > n {
        law_finished_run_is_fixed(p, n, (later - 1) as nat);
    }
}

/// Every path that the search reports starts at the start, moves by legal
/// steps only, and ends on a goal.
pub proof fn law_found_path_is_solution(p: Problem, n: nat, path: Seq<Coord>)
    requires
        run(p, n).outcome == Outcome::Found(path),
    ensures
        p.is_solution(path),
        path[0] == p.start,
        (p.goal)(path.last()),
        forall|k: int| 0 <= k < path.len() - 1 ==> p.legal_step(#[trigger] path[k], path[k + 1]),
{
    lemma_run_thorough(p, n);
}

/// No path that the search reports visits a cell twice.
pub proof fn law_found_path_has_no_repeats(p: Problem, n: nat, path: Seq<Coord>)
    requires
        run(p, n).outcome == Outcome::Found(path),
    ensures
        path.no_duplicates(),
    decreases n,
{
    if n > 0 {
        let m = (n - 1) as nat;
        let s = run(p, m);
        if s.outcome is Running {
            lemma_run_sound(p, m);
            if s.open.len() > 0 {
                lemma_close_sound(p, s);
                let sel = selected(s.nodes, s.open);
                let cur = s.open[sel];
                if (p.goal)(s.nodes[cur].xy) {
                    assert forall|a: int, b: int|
                        0 <= a < path.len() && 0 <= b < path.len() && a != b implies path[a]
                        != path[b] by {
                        let ia = lemma_path_to_levels(p, s, cur, a);
                        let ib = lemma_path_to_levels(p, s, cur, b);
                        if ia < ib {
                            assert(s.nodes[ia].xy != s.nodes[ib].xy);
                        } else {
                            assert(s.nodes[ib].xy != s.nodes[ia].xy);
                        }
                    }
                } else {
                    let base = SearchState {
                        open: s.open.remove(sel),
                        closed: s.closed.push(cur),
                        ..s
                    };
                    let cands = p.diagonal.neighbours(p.cost, s.nodes[cur].xy);
                    lemma_offer_all_sound(p, base, cur, cands);
                }
            }
        } else {
            law_found_path_has_no_repeats(p, m, path);
        }
    }
}

/// No two nodes ever sit on the same cell: a cell that has a node is
/// never given a second one.
pub proof fn law_one_node_per_cell(p: Problem, n: nat)
    ensures
        one_node_per_cell(run(p, n).nodes),
{
    lemma_run_sound(p, n);
}

/// No cell shows twice in what a state reports as frontier and expanded
/// cells, neither within one list nor across the two.
pub proof fn law_snapshot_has_no_repeats(p: Problem, n: nat)
    ensures
        (cells_of(run(p, n).nodes, run(p, n).open) + cells_of(
            run(p, n).nodes,
            run(p, n).closed,
        )).no_duplicates(),
{
    let s = run(p, n);
    lemma_run_sound(p, n);
    let open = cells_of(s.nodes, s.open);
    let closed = cells_of(s.nodes, s.closed);
    let all = open + closed;
    assert forall|a: int, b: int| 0 <= a < all.len() && 0 <= b < all.len() && a != b implies all[a]
        != all[b] by {
        let ia = if a < open.len() {
            s.open[a]
        } else {
            s.closed[a - open.len()]
        };
        let ib = if b < open.len() {
            s.open[b]
        } else {
            s.closed[b - open.len()]
        };
        assert(all[a] == s.nodes[ia].xy);
        assert(all[b] == s.nodes[ib].xy);
        assert(ia != ib) by {
            if a < open.len() && b >= open.len() {
                assert(s.open[a] != s.closed[b - open.len()]);
            }
            if b < open.len() && a >= open.len() {
                assert(s.open[b] != s.closed[a - open.len()]);
            }
        }
        if ia < ib {
            assert(s.nodes[ia].xy != s.nodes[ib].xy);
        } else {
            assert(s.nodes[ib].xy != s.nodes[ia].xy);
        }
    }
}

/// The search reports that there is no path only when no sequence of
/// legal steps connects the start to a goal.
pub proof fn law_no_path_is_final(p: Problem, n: nat)
    requires
        run(p, n).outcome is NoPath,
    ensures
        !p.solvable(),
{
    lemma_run_thorough(p, n);
    lemma_dry_frontier(p, run(p, n));
}

/// The search reports a path only when a goal can be reached.
pub proof fn law_found_means_solvable(p: Problem, n: nat)
    requires
        run(p, n).outcome is Found,
    ensures
        p.solvable(),
{
    let path = run(p, n).outcome->Found_0;
    law_found_path_is_solution(p, n, path);
    assert(p.is_walk(path) && path.last() == path.last());
    assert(p.reachable(path.last()));
}

/// On a grid that holds the start, the search has finished after one
/// step more than the grid has cells.
pub proof fn law_search_ends(p: Problem, n: nat)
    requires
        p.start.in_bounds(p.width, p.height),
        n > p.width * p.height,
    ensures
        !(run(p, n).outcome is Running),
{
    if run(p, n).outcome is Running {
        lemma_running_bounded(p, n);
    }
}

/// The search ends without a path if and only if no sequence of legal
/// steps connects the start to a goal; otherwise it ends with a path.
pub proof fn law_no_path_iff_unsolvable(p: Problem, n: nat)
    requires
        p.start.in_bounds(p.width, p.height),
        n > p.width * p.height,
    ensures
        run(p, n).outcome is NoPath <==> !p.solvable(),
        run(p, n).outcome is Found <==> p.solvable(),
{
    law_search_ends(p, n);
    if run(p, n).outcome is NoPath {
        law_no_path_is_final(p, n);
    }
    if run(p, n).outcome is Found {
        law_found_means_solvable(p, n);
    }
}

/// The same map under a looser diagonal policy.
pub open spec fn with_policy(p: Problem, diagonal: Diagonal) -> Problem {
    Problem { diagonal, ..p }
}

/// A move that is legal under one diagonal policy is legal under every
/// looser one.
pub proof fn law_looser_policy_keeps_steps(p: Problem, looser: Diagonal, a: Coord, b: Coord)
    requires
        p.diagonal.rank() <= looser.rank(),
        p.legal_step(a, b),
    ensures
        with_policy(p, looser).legal_step(a, b),
{
    p.diagonal.lemma_neighbours_looser(looser, p.cost, a, b);
}

/// On a fixed map, what can be reached from the start under one diagonal
/// policy can be reached under every looser one: the reachable set grows
/// from `Never` over `NoWalls` and `OneWall` to `Always`.
pub proof fn law_looser_policy_reaches_more(p: Problem, looser: Diagonal, c: Coord)
    requires
        p.diagonal.rank() <= looser.rank(),
        p.reachable(c),
    ensures
        with_policy(p, looser).reachable(c),
{
    let q = with_policy(p, looser);
    let path = choose|path: Seq<Coord>| #[trigger] p.is_walk(path) && path.last() == c;
    assert forall|k: int| 0 <= k < path.len() - 1 implies q.legal_step(
        #[trigger] path[k],
        path[k + 1],
    ) by {
        law_looser_policy_keeps_steps(p, looser, path[k], path[k + 1]);
    }
    assert(q.is_walk(path));
}

/// Two problems that differ at most in their estimates.
pub open spec fn same_but_estimate(a: Problem, b: Problem) -> bool {
    &&& a.width == b.width
    &&& a.height == b.height
    &&& a.start == b.start
    &&& a.diagonal == b.diagonal
    &&& a.terrain_weight == b.terrain_weight
    &&& a.relax == b.relax
    &&& forall|c: Coord| #[trigger] (a.cost)(c) == (b.cost)(c)
    &&& forall|c: Coord| #[trigger] (a.goal)(c) == (b.goal)(c)
}

/// A* whose heuristic is always zero is Dijkstra: on the same map, with
/// the same goals and options, the two are in the same state after every
/// number of steps. They expand the same nodes in the same order.
pub proof fn law_zero_estimate_is_dijkstra(astar: Problem, dijkstra: Problem, n: nat)
    requires
        same_but_estimate(astar, dijkstra),
        forall|c: Coord| #[trigger] (astar.estimate)(c) == 0,
        forall|c: Coord| #[trigger] (dijkstra.estimate)(c) == 0,
    ensures
        run(astar, n) == run(dijkstra, n),
{
    assert(astar.cost =~= dijkstra.cost);
    assert(astar.goal =~= dijkstra.goal);
    assert(astar.estimate =~= dijkstra.estimate);
    assert(astar =~= dijkstra);
}

/// Where every cell that can be entered costs the same, the factor that
/// weighs the cost changes nothing that a search without estimates shows:
/// two such searches on the same map report the same status after every
/// number of steps, with the same cells on the frontier and the same cells
/// expanded, in the same order. So A* with the heuristic that is always
/// zero and Dijkstra expand the same nodes in the same order on a
/// uniform-cost grid even where they weigh the terrain differently.
pub proof fn law_weight_is_idle_on_uniform_costs(a: Problem, b: Problem, k: int, n: nat)
    requires
        same_but_weight(a, b),
        uniform_cost(a, k),
        blind(a),
    ensures
        status_of(run(a, n)) == status_of(run(b, n)),
        run(a, n).open == run(b, n).open,
        run(a, n).closed == run(b, n).closed,
        cells_of(run(a, n).nodes, run(a, n).closed) == cells_of(run(b, n).nodes, run(b, n).closed),
{
    lemma_run_alike(a, b, k, n);
    lemma_run_sound(a, n);
    let sa = run(a, n);
    let sb = run(b, n);
    assert(cells_of(sa.nodes, sa.closed) =~= cells_of(sb.nodes, sb.closed)) by {
        assert forall|m: int| 0 <= m < sa.closed.len() implies sa.nodes[sa.closed[m]].xy
            == sb.nodes[sb.closed[m]].xy by {
            assert(0 <= sa.closed[m] < sa.nodes.len());
        }
    }
    assert(cells_of(sa.nodes, sa.open) =~= cells_of(sb.nodes, sb.open)) by {
        assert forall|m: int| 0 <= m < sa.open.len() implies sa.nodes[sa.open[m]].xy
            == sb.nodes[sb.open[m]].xy by {
            assert(0 <= sa.open[m] < sa.nodes.len());
        }
    }
}

/// On a grid without walls, every search ends with a path as soon as
/// some cell of the grid is a goal, whatever it estimates.
pub proof fn law_open_grid_ends_found(p: Problem, k: int, goal: Coord, n: nat)
    requires
        open_uniform(p, k),
        p.start.in_bounds(p.width, p.height),
        goal.in_bounds(p.width, p.height),
        (p.goal)(goal),
        n > p.width * p.height,
    ensures
        run(p, n).outcome is Found,
{
    lemma_open_grid_reachable(p, k, goal);
    assert(p.reachable(goal) && (p.goal)(goal));
    law_no_path_iff_unsolvable(p, n);
}

/// On a grid without walls where every cell costs the same, a search that
/// estimates nothing (Dijkstra, or A* with the heuristic that is always
/// zero) reports a shortest path: it has as many steps as its end is
/// distant from the start, by the sum of the deltas where steps are
/// orthogonal only and by the larger delta where diagonal steps are allowed.
pub proof fn law_open_grid_path_is_shortest(p: Problem, k: int, n: nat, path: Seq<Coord>)
    requires
        open_uniform(p, k),
        blind(p),
        p.start.in_bounds(p.width, p.height),
        run(p, n).outcome == Outcome::Found(path),
    ensures
        path.len() - 1 == grid_distance(p.diagonal, p.start, path.last()),
{
    lemma_found_is_shortest(p, k, n, path);
}

/// Where every cell that can be entered costs the same, a search that
/// estimates nothing (Dijkstra, or A* with the heuristic that is always
/// zero) reports a path with the fewest steps: no walk from the start to
/// a goal is shorter, whatever walls stand on the grid.
pub proof fn law_blind_path_has_fewest_steps(
    p: Problem,
    k: int,
    n: nat,
    path: Seq<Coord>,
    other: Seq<Coord>,
)
    requires
        uniform_cost(p, k),
        blind(p),
        run(p, n).outcome == Outcome::Found(path),
        p.is_solution(other),
    ensures
        path.len() <= other.len(),
{
    lemma_blind_is_shortest(p, k, n, path, other);
}

/// A* whose estimate is the true number of steps that remain, over
/// uniform costs, reports a shortest path: it ends on a goal, it has as
/// many steps as the start was estimated to need, and no walk from the
/// start to a goal has fewer.
pub proof fn law_guided_path_is_shortest(
    p: Problem,
    k: int,
    n: nat,
    path: Seq<Coord>,
    other: Seq<Coord>,
)
    requires
        well_posed(p, k),
        run(p, n).outcome == Outcome::Found(path),
        p.is_solution(other),
    ensures
        (p.goal)(path.last()),
        path.len() - 1 == (p.estimate)(p.start),
        path.len() <= other.len(),
{
    lemma_guided_is_shortest(p, k, n, path);
    assert forall|j: int| 0 <= j < other.len() implies (#[trigger] other[j]).in_bounds(
        p.width,
        p.height,
    ) by {
        if j > 0 {
            assert(p.legal_step(other[j - 1], other[j]));
        }
    }
    lemma_estimate_is_lower_bound(p, other, 0);
}

/// For a single goal, the matching heuristic estimates a cell at its
/// distance from the goal, summed or by the nearest goal alike.
pub proof fn law_matching_heuristic_is_distance(diagonal: Diagonal, c: Coord, goal: Coord)
    ensures
        matching_heuristic(diagonal).total(c, seq![goal]) == grid_distance(diagonal, c, goal),
        matching_heuristic(diagonal).nearest(c, seq![goal]) == grid_distance(diagonal, c, goal),
{
    matching_heuristic(diagonal).lemma_single_goal(c, goal);
}

/// On a grid without walls where every cell costs the same, A* that
/// estimates by the matching heuristic to the nearest goal reports a
/// shortest path to a nearest goal: the path ends on a goal and has as
/// many steps as the nearest goal is distant from the start. With a
/// single goal this is A* with the matching heuristic as it is built by
/// default.
pub proof fn law_open_grid_guided_path_is_shortest(
    p: Problem,
    k: int,
    goals: Seq<Coord>,
    n: nat,
    path: Seq<Coord>,
)
    requires
        open_uniform(p, k),
        aims_at(p, goals),
        p.start.in_bounds(p.width, p.height),
        0 <= p.terrain_weight,
        run(p, n).outcome == Outcome::Found(path),
    ensures
        goals.contains(path.last()),
        path.len() - 1 == matching_heuristic(p.diagonal).nearest(p.start, goals),
        forall|j: int|
            0 <= j < goals.len() ==> path.len() - 1 <= grid_distance(
                p.diagonal,
                p.start,
                #[trigger] goals[j],
            ),
{
    lemma_open_grid_guided(p, k, goals);
    lemma_guided_is_shortest(p, k, n, path);
    law_found_path_is_solution(p, n, path);
    assert(path.last().in_bounds(p.width, p.height)) by {
        if path.len() > 1 {
            assert(p.legal_step(path[path.len() - 2], path[path.len() - 2 + 1]));
        }
    }
    let j0 = matching_heuristic(p.diagonal).lemma_nearest_is_least(p.start, goals);
}

} // verus!
