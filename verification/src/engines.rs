//! Either engine behind one type, and the way from a map and the
//! caller's choices to an engine that is ready to step.

use vstd::prelude::*;
use crate::algo::{Algo, AlgoStatus, Algorithm};
use crate::astar::Astar;
use crate::diagonal::Diagonal;
use crate::dijkstra::Dijkstra;
use crate::engine::{room_for, TERRAIN_WEIGHT};
use crate::heuristic::Heuristic;
use crate::maps::GridMap;
use crate::models::Coord;
use crate::search::{cells_of, run, Problem, SearchState};

verus! {

/// An engine of either kind.
pub enum Engine {
    AStar(Astar),
    Dijkstra(Dijkstra),
}

impl Algorithm for Engine {
    open spec fn problem(&self) -> Problem {
        match self {
            Engine::AStar(astar) => astar.problem(),
            Engine::Dijkstra(dijkstra) => dijkstra.problem(),
        }
    }

    open spec fn state(&self) -> SearchState {
        match self {
            Engine::AStar(astar) => astar.state(),
            Engine::Dijkstra(dijkstra) => dijkstra.state(),
        }
    }

    open spec fn wf(&self) -> bool {
        match self {
            Engine::AStar(astar) => astar.wf(),
            Engine::Dijkstra(dijkstra) => dijkstra.wf(),
        }
    }

    fn tick(&mut self)
        ensures
            final(self).steps() == old(self).steps() + 1,
    {
        match self {
            Engine::AStar(astar) => astar.tick(),
            Engine::Dijkstra(dijkstra) => dijkstra.tick(),
        }
    }

    fn get_data(&self) -> (status: &AlgoStatus) {
        match self {
            Engine::AStar(astar) => astar.get_data(),
            Engine::Dijkstra(dijkstra) => dijkstra.get_data(),
        }
    }
}

/// What the estimates of a variant can add up to at most: for A* the
/// number of goals times the heuristic's ceiling on the map, for Dijkstra
/// nothing.
pub open spec fn estimate_ceiling(map: GridMap, variant: int, algo: Algo, heuristic: Heuristic) -> int {
    if algo == Algo::AStar {
        map.variants@[variant].ends@.len() * heuristic.ceiling(map.columns(), map.rows())
    } else {
        0
    }
}

/// What is left of `i32::MAX` for the weighted cost of a cell once the
/// longest path and the largest estimate are taken off.
pub open spec fn cost_budget(map: GridMap, variant: int, algo: Algo, heuristic: Heuristic) -> int {
    i32::MAX - map.columns() * map.rows() - estimate_ceiling(map, variant, algo, heuristic)
}

/// A variant of a map can be searched: the table is rectangular, the
/// variant exists, its start and goals lie on the map, and every cell's
/// weighted cost stays within the [`cost_budget`].
pub open spec fn playable(map: GridMap, variant: int, algo: Algo, heuristic: Heuristic) -> bool {
    &&& map.rectangular()
    &&& 0 <= variant < map.variants@.len()
    &&& map.variants@[variant].start.in_bounds(map.columns(), map.rows())
    &&& forall|k: int|
        0 <= k < map.variants@[variant].ends@.len() ==> (#[trigger] map.variants@[variant].ends@[k]).in_bounds(
            map.columns(),
            map.rows(),
        )
    &&& forall|x: int, y: int|
        0 <= x < map.columns() && 0 <= y < map.rows() ==> TERRAIN_WEIGHT * (#[trigger] map.cost@[x]@[y])
            <= cost_budget(map, variant, algo, heuristic)
    &&& 0 <= cost_budget(map, variant, algo, heuristic)
}

/// The problem of searching a variant of a map: the map's extents and
/// costs, the variant's start and goals, the default options, and for A*
/// the sum of the heuristic over the goals as the estimate.
pub open spec fn poses(
    p: Problem,
    map: GridMap,
    variant: int,
    algo: Algo,
    diagonal: Diagonal,
    heuristic: Heuristic,
) -> bool {
    let ends = map.variants@[variant].ends@;
    &&& p.width == map.columns()
    &&& p.height == map.rows()
    &&& p.start == map.variants@[variant].start
    &&& p.diagonal == diagonal
    &&& p.terrain_weight == TERRAIN_WEIGHT
    &&& !p.relax
    &&& forall|c: Coord| #[trigger] (p.cost)(c) == map.cost_of(c)
    &&& forall|c: Coord|
        #[trigger] (p.goal)(c) == (c.in_bounds(map.columns(), map.rows()) && ends.contains(c))
    &&& forall|c: Coord|
        #[trigger] (p.estimate)(c) == (if algo == Algo::AStar && c.in_bounds(
            map.columns(),
            map.rows(),
        ) {
            heuristic.total(c, ends)
        } else {
            0
        })
}

/// Whether every entry of `list` lies on the grid.
fn all_in_bounds(list: &Vec<Coord>, columns: i32, rows: i32) -> (yes: bool)
    ensures
        yes == forall|k: int| 0 <= k < list@.len() ==> (#[trigger] list@[k]).in_bounds(columns as int, rows as int),
{
    let mut i: usize = 0;
    while i < list.len()
        invariant
            i <= list@.len(),
            forall|k: int| 0 <= k < i ==> (#[trigger] list@[k]).in_bounds(columns as int, rows as int),
        decreases list@.len() - i,
    {
        if list[i].is_out_of_bounds(columns, rows) {
            return false;
        }
        i += 1;
    }
    true
}

/// Whether five times every cost of the table stays within `budget`.
fn costs_within(map: &GridMap, budget: i64) -> (yes: bool)
    requires
        map.rectangular(),
    ensures
        yes == forall|x: int, y: int|
            0 <= x < map.columns() && 0 <= y < map.rows() ==> TERRAIN_WEIGHT * (#[trigger] map.cost@[x]@[y])
                <= budget,
{
    let mut x: usize = 0;
    while x < map.cost.len()
        invariant
            map.rectangular(),
            x <= map.cost@.len(),
            forall|i: int, j: int|
                0 <= i < x && 0 <= j < map.rows() ==> TERRAIN_WEIGHT * (#[trigger] map.cost@[i]@[j])
                    <= budget,
        decreases map.cost@.len() - x,
    {
        let mut y: usize = 0;
        while y < map.cost[x].len()
            invariant
                map.rectangular(),
                x < map.cost@.len(),
                y <= map.cost@[x as int]@.len(),
                forall|i: int, j: int|
                    0 <= i < x && 0 <= j < map.rows() ==> TERRAIN_WEIGHT * (#[trigger] map.cost@[i]@[j])
                        <= budget,
                forall|j: int| 0 <= j < y ==> TERRAIN_WEIGHT * (#[trigger] map.cost@[x as int]@[j]) <= budget,
            decreases map.cost@[x as int]@.len() - y,
        {
            if (TERRAIN_WEIGHT as i64) * (map.cost[x][y] as i64) > budget {
                return false;
            }
            y += 1;
        }
        x += 1;
    }
    true
}

impl Engine {
    /// How many steps have been taken.
    pub open spec fn steps(&self) -> nat {
        match self {
            Engine::AStar(astar) => astar.steps(),
            Engine::Dijkstra(dijkstra) => dijkstra.steps(),
        }
    }

    /// The state of a well-formed engine is the one that [`run`] gives for
    /// the steps taken, on a grid that holds the start and has at most
    /// `i32::MAX` cells.
    pub proof fn lemma_state(&self)
        requires
            self.wf(),
        ensures
            self.state() == run(self.problem(), self.steps()),
            self.problem().start.in_bounds(self.problem().width, self.problem().height),
            self.problem().width * self.problem().height <= i32::MAX,
    {
        match self {
            Engine::AStar(astar) => astar.lemma_state(),
            Engine::Dijkstra(dijkstra) => dijkstra.lemma_state(),
        }
    }

    /// The cells expanded so far, oldest first.
    pub fn closed_cells(&self) -> (out: Vec<Coord>)
        requires
            self.wf(),
        ensures
            out@ == cells_of(self.state().nodes, self.state().closed),
    {
        match self {
            Engine::AStar(astar) => astar.closed_cells(),
            Engine::Dijkstra(dijkstra) => dijkstra.closed_cells(),
        }
    }

    /// The engine of kind `algo` for a variant of `map`, with the default
    /// options; A* estimates by the sum of `heuristic` over the goals.
    /// There is an engine exactly for the variants that are [`playable`].
    pub fn for_map(
        map: &GridMap,
        variant: usize,
        algo: Algo,
        diagonal: Diagonal,
        heuristic: Heuristic,
    ) -> (engine: Option<Engine>)
        ensures
            engine is Some <==> playable(*map, variant as int, algo, heuristic),
            match engine {
                Some(e) => e.wf() && e.steps() == 0 && e.state() == crate::search::initial(
                    e.problem(),
                ) && poses(
                    e.problem(),
                    *map,
                    variant as int,
                    algo,
                    diagonal,
                    heuristic,
                ),
                None => true,
            },
    {
        if !map.is_rectangular() || variant >= map.variants.len() {
            return None;
        }
        let columns = map.get_column_count() as i32;
        let rows = map.get_row_count() as i32;
        let start = map.variants[variant].start;
        if start.is_out_of_bounds(columns, rows) {
            return None;
        }
        if !all_in_bounds(&map.variants[variant].ends, columns, rows) {
            return None;
        }
        let count = map.variants[variant].ends.len();
        let ghost ends = map.variants@[variant as int].ends@;
        let ghost ceiling = heuristic.ceiling(columns as int, rows as int);
        assert(0 <= columns * rows <= 0x4000_0000_0000_0000) by (nonlinear_arith)
            requires
                0 <= columns <= 0x8000_0000,
                0 <= rows <= 0x8000_0000,
        ;
        assert(0 <= columns * columns <= 0x4000_0000_0000_0000) by (nonlinear_arith)
            requires
                0 <= columns <= 0x8000_0000,
        ;
        assert(0 <= rows * rows <= 0x4000_0000_0000_0000) by (nonlinear_arith)
            requires
                0 <= rows <= 0x8000_0000,
        ;
        let cells: i128 = (columns as i128) * (rows as i128);
        let one: i128 = match heuristic {
            Heuristic::Zero => 0,
            Heuristic::Mine => (columns as i128) * (columns as i128) + (rows as i128) * (rows as i128),
            _ => columns as i128 + rows as i128,
        };
        assert(one == ceiling);
        let is_astar = match algo {
            Algo::AStar => true,
            Algo::Dijkstra => false,
        };
        let most: i128 = if is_astar && one > 0 {
            if count > 0x7fff_ffff {
                proof {
                    assert(count * ceiling > i32::MAX) by (nonlinear_arith)
                        requires
                            count > 0x7fff_ffff,
                            ceiling >= 1,
                    ;
                }
                return None;
            }
            assert(0 <= count * one <= 0x7fff_ffff * 0x8000_0000_0000_0000) by (nonlinear_arith)
                requires
                    0 <= count <= 0x7fff_ffff,
                    0 <= one <= 0x8000_0000_0000_0000,
            ;
            (count as i128) * one
        } else {
            proof {
                if is_astar {
                    assert(count * ceiling == 0) by (nonlinear_arith)
                        requires
                            ceiling == 0,
                    ;
                }
            }
            0
        };
        assert(most == estimate_ceiling(*map, variant as int, algo, heuristic));
        let budget: i128 = 0x7fff_ffff - cells - most;
        if budget < 0 {
            return None;
        }
        assert(budget == cost_budget(*map, variant as int, algo, heuristic));
        if !costs_within(map, budget as i64) {
            return None;
        }
        assert(playable(*map, variant as int, algo, heuristic));
        let ends_copy = map.variants[variant].ends.clone();
        assert(ends_copy@ =~= ends);
        let cost_calc = |c: Coord| -> (cost: i32)
            ensures
                cost == map.cost_of(c),
            { map.cost_at(c) };
        proof {
            assert forall|c: Coord| #[trigger]
                c.in_bounds(columns as int, rows as int) implies room_for(
                cost_calc,
                columns as int,
                rows as int,
                TERRAIN_WEIGHT as int,
                c,
                if is_astar {
                    heuristic.total(c, ends)
                } else {
                    0
                },
            ) && 0 <= heuristic.total(c, ends) && (is_astar ==> heuristic.total(c, ends)
                <= i32::MAX) by {
                heuristic.lemma_total_ceiling(c, ends, columns as int, rows as int);
                assert(TERRAIN_WEIGHT * map.cost@[c.x as int]@[c.y as int] <= budget);
            }
        }
        if is_astar {
            let astar = Astar::new_fixed_target(
                start,
                ends_copy,
                cost_calc,
                columns,
                rows,
                diagonal,
                heuristic,
            );
            proof {
                astar.lemma_state();
                let p = astar.problem();
                assert forall|c: Coord| #[trigger] (p.cost)(c) == map.cost_of(c) by {
                    if c.in_bounds(columns as int, rows as int) {
                        assert(call_ensures(cost_calc, (c,), (p.cost)(c)));
                    }
                }
                assert forall|c: Coord|
                    #[trigger] (p.goal)(c) == (c.in_bounds(map.columns(), map.rows())
                        && ends.contains(c)) by {}
                assert forall|c: Coord|
                    #[trigger] (p.estimate)(c) == (if c.in_bounds(map.columns(), map.rows()) {
                        heuristic.total(c, ends)
                    } else {
                        0
                    }) by {}
            }
            Some(Engine::AStar(astar))
        } else {
            let dijkstra = Dijkstra::new_fixed_target(
                start,
                ends_copy,
                cost_calc,
                columns,
                rows,
                diagonal,
            );
            proof {
                dijkstra.lemma_state();
                let p = dijkstra.problem();
                assert forall|c: Coord| #[trigger] (p.cost)(c) == map.cost_of(c) by {
                    if c.in_bounds(columns as int, rows as int) {
                        assert(call_ensures(cost_calc, (c,), (p.cost)(c)));
                    }
                }
                assert forall|c: Coord|
                    #[trigger] (p.goal)(c) == (c.in_bounds(map.columns(), map.rows())
                        && ends.contains(c)) by {}
            }
            Some(Engine::Dijkstra(dijkstra))
        }
    }
}

} // verus!
