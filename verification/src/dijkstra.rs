//! Dijkstra: the frontier is ordered by path length alone.

use vstd::prelude::*;
use crate::algo::{AlgoStatus, Algorithm};
use crate::diagonal::Diagonal;
use crate::engine::{built_on, room_for, Search, SearchOptions, TERRAIN_WEIGHT};
use crate::models::{contains_coord, Coord};
use crate::search::{cells_of, run, step, Problem, SearchState};

verus! {

/// The priorities all fit `i32`: the grid has at most `i32::MAX` cells,
/// and every cell of it leaves [`room_for`] path length and weighted cost.
pub open spec fn costs_fit<C: Fn(Coord) -> i32>(
    cost_calc: C,
    width: int,
    height: int,
    weight: int,
) -> bool {
    &&& width * height <= i32::MAX
    &&& forall|c: Coord| #[trigger]
        c.in_bounds(width, height) ==> room_for(cost_calc, width, height, weight, c, 0)
}

/// The Dijkstra engine. It is [`crate::astar::Astar`] with every estimate
/// at zero.
pub struct Dijkstra {
    search: Search,
}

impl Dijkstra {
    /// How many steps have been taken.
    pub closed spec fn steps(&self) -> nat {
        self.search.steps()
    }

    /// The state of a well-formed engine is the one that [`run`] gives for
    /// the steps taken.
    pub proof fn lemma_state(&self)
        requires
            self.wf(),
        ensures
            self.state() == run(self.problem(), self.steps()),
            self.problem().start.in_bounds(self.problem().width, self.problem().height),
            self.problem().width * self.problem().height <= i32::MAX,
    {
        self.search.lemma_wf();
    }

    /// An engine for the goals `ends`, with the default options.
    pub fn new_fixed_target<C: Fn(Coord) -> i32>(
        start: Coord,
        ends: Vec<Coord>,
        cost_calc: C,
        width: i32,
        height: i32,
        diagonal: Diagonal,
    ) -> (dijkstra: Dijkstra)
        requires
            start.in_bounds(width as int, height as int),
            forall|c: Coord| c.in_bounds(width as int, height as int) ==> call_requires(cost_calc, (c,)),
            costs_fit(cost_calc, width as int, height as int, TERRAIN_WEIGHT as int),
        ensures
            dijkstra.wf(),
            dijkstra.steps() == 0,
            built_on(
                dijkstra.problem(),
                start,
                cost_calc,
                width as int,
                height as int,
                diagonal,
                SearchOptions { terrain_weight: TERRAIN_WEIGHT, relax: false, nearest_goal: false },
            ),
            forall|c: Coord|
                c.in_bounds(width as int, height as int) ==> #[trigger] (dijkstra.problem().goal)(c)
                    == ends@.contains(c),
            forall|c: Coord| #[trigger] (dijkstra.problem().estimate)(c) == 0,
    {
        let options = SearchOptions {
            terrain_weight: TERRAIN_WEIGHT,
            relax: false,
            nearest_goal: false,
        };
        Dijkstra::new_fixed_target_with(start, ends, cost_calc, width, height, diagonal, options)
    }

    /// An engine for the goals `ends`, with options of the caller's.
    pub fn new_fixed_target_with<C: Fn(Coord) -> i32>(
        start: Coord,
        ends: Vec<Coord>,
        cost_calc: C,
        width: i32,
        height: i32,
        diagonal: Diagonal,
        options: SearchOptions,
    ) -> (dijkstra: Dijkstra)
        requires
            start.in_bounds(width as int, height as int),
            forall|c: Coord| c.in_bounds(width as int, height as int) ==> call_requires(cost_calc, (c,)),
            costs_fit(cost_calc, width as int, height as int, options.terrain_weight as int),
        ensures
            dijkstra.wf(),
            dijkstra.steps() == 0,
            built_on(dijkstra.problem(), start, cost_calc, width as int, height as int, diagonal, options),
            forall|c: Coord|
                c.in_bounds(width as int, height as int) ==> #[trigger] (dijkstra.problem().goal)(c)
                    == ends@.contains(c),
            forall|c: Coord| #[trigger] (dijkstra.problem().estimate)(c) == 0,
    {
        let is_goal = |c: Coord| -> (yes: bool)
            ensures
                yes == ends@.contains(c),
            { contains_coord(&ends, c) };
        let zero = |c: Coord| -> (r: i32)
            ensures
                r == 0,
            { 0 };
        let search = Search::new(start, width, height, diagonal, options, &cost_calc, &is_goal, &zero);
        proof {
            assert forall|c: Coord| #[trigger] (search.problem().estimate)(c) == 0 by {
                if c.in_bounds(width as int, height as int) {
                } else {
                }
            }
        }
        Dijkstra { search }
    }

    /// An engine for an open-ended goal: `is_valid_end` says which cells
    /// end the search.
    pub fn new_open_target<G, C>(
        start: Coord,
        is_valid_end: G,
        cost_calc: C,
        width: i32,
        height: i32,
        diagonal: Diagonal,
    ) -> (dijkstra: Dijkstra) where G: Fn(Coord) -> bool, C: Fn(Coord) -> i32
        requires
            start.in_bounds(width as int, height as int),
            forall|c: Coord|
                c.in_bounds(width as int, height as int) ==> {
                    &&& call_requires(cost_calc, (c,))
                    &&& call_requires(is_valid_end, (c,))
                },
            costs_fit(cost_calc, width as int, height as int, TERRAIN_WEIGHT as int),
        ensures
            dijkstra.wf(),
            dijkstra.steps() == 0,
            built_on(
                dijkstra.problem(),
                start,
                cost_calc,
                width as int,
                height as int,
                diagonal,
                SearchOptions { terrain_weight: TERRAIN_WEIGHT, relax: false, nearest_goal: false },
            ),
            forall|c: Coord|
                c.in_bounds(width as int, height as int) ==> call_ensures(
                    is_valid_end,
                    (c,),
                    #[trigger] (dijkstra.problem().goal)(c),
                ),
            forall|c: Coord| #[trigger] (dijkstra.problem().estimate)(c) == 0,
    {
        let options = SearchOptions {
            terrain_weight: TERRAIN_WEIGHT,
            relax: false,
            nearest_goal: false,
        };
        let zero = |c: Coord| -> (r: i32)
            ensures
                r == 0,
            { 0 };
        let search = Search::new(
            start,
            width,
            height,
            diagonal,
            options,
            &cost_calc,
            &is_valid_end,
            &zero,
        );
        proof {
            assert forall|c: Coord| #[trigger] (search.problem().estimate)(c) == 0 by {
                if c.in_bounds(width as int, height as int) {
                } else {
                }
            }
        }
        Dijkstra { search }
    }

    /// The cells expanded so far, oldest first.
    pub fn closed_cells(&self) -> (out: Vec<Coord>)
        requires
            self.wf(),
        ensures
            out@ == cells_of(self.state().nodes, self.state().closed),
    {
        self.search.expanded_cells()
    }

    /// Takes one step: see [`step`].
    pub fn process_once(&mut self)
        requires
            old(self).wf(),
        ensures
            final(self).wf(),
            final(self).problem() == old(self).problem(),
            final(self).steps() == old(self).steps() + 1,
            final(self).state() == step(old(self).problem(), old(self).state()),
    {
        self.search.advance();
    }
}

impl Algorithm for Dijkstra {
    closed spec fn problem(&self) -> Problem {
        self.search.problem()
    }

    closed spec fn state(&self) -> SearchState {
        self.search.state()
    }

    closed spec fn wf(&self) -> bool {
        self.search.wf()
    }

    fn tick(&mut self)
        ensures
            final(self).steps() == old(self).steps() + 1,
    {
        self.process_once();
    }

    fn get_data(&self) -> (status: &AlgoStatus) {
        self.search.status()
    }
}

} // verus!
