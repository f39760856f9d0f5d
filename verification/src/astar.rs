//! A*: the frontier is ordered by path length plus an estimate of what
//! remains.

use vstd::prelude::*;
use crate::algo::{AlgoStatus, Algorithm};
use crate::diagonal::Diagonal;
use crate::engine::{built_on, returns_int, room_for, Search, SearchOptions, TERRAIN_WEIGHT};
use crate::heuristic::Heuristic;
use crate::models::{contains_coord, Coord};
use crate::search::{cells_of, run, step, Problem, SearchState};

verus! {

/// What a set of goals adds up to for the cell `c`: the sum of the
/// estimates to every goal, or the estimate to the nearest one.
pub open spec fn goal_estimate(heuristic: Heuristic, nearest: bool, c: Coord, ends: Seq<Coord>) -> int {
    if nearest {
        heuristic.nearest(c, ends)
    } else {
        heuristic.total(c, ends)
    }
}

/// The estimates for the goals `ends` and the priorities built on them
/// all fit `i32`: the grid has at most `i32::MAX` cells, and for every
/// cell of it the estimate fits and leaves [`room_for`] path length and
/// weighted cost.
pub open spec fn estimates_fit<C: Fn(Coord) -> i32>(
    cost_calc: C,
    width: int,
    height: int,
    weight: int,
    heuristic: Heuristic,
    nearest: bool,
    ends: Seq<Coord>,
) -> bool {
    &&& width * height <= i32::MAX
    &&& forall|c: Coord| #[trigger]
        c.in_bounds(width, height) ==> {
            &&& heuristic.total(c, ends) <= i32::MAX || nearest
            &&& nearest ==> forall|k: int|
                0 <= k < ends.len() ==> heuristic.between(c, #[trigger] ends[k]) <= i32::MAX
            &&& room_for(
                cost_calc,
                width,
                height,
                weight,
                c,
                goal_estimate(heuristic, nearest, c, ends),
            )
        }
}

/// The A* engine.
pub struct Astar {
    search: Search,
}

impl Astar {
    /// How many steps have been taken.
    pub closed spec fn steps(&self) -> nat {
        self.search.steps()
    }

    /// The state of a well-formed engine is the one that [`run`] gives for
    /// the steps taken.
    pub proof fn lemma_state(&self)
        requires
            self.wf(),
        ensures
            self.state() == run(self.problem(), self.steps()),
            self.problem().start.in_bounds(self.problem().width, self.problem().height),
            self.problem().width * self.problem().height <= i32::MAX,
    {
        self.search.lemma_wf();
    }

    /// An engine for the goals `ends`, with the default options. Its
    /// estimate for a cell is the sum of `heuristic` over all goals.
    pub fn new_fixed_target<C: Fn(Coord) -> i32>(
        start: Coord,
        ends: Vec<Coord>,
        cost_calc: C,
        width: i32,
        height: i32,
        diagonal: Diagonal,
        heuristic: Heuristic,
    ) -> (astar: Astar)
        requires
            start.in_bounds(width as int, height as int),
            forall|c: Coord| c.in_bounds(width as int, height as int) ==> call_requires(cost_calc, (c,)),
            estimates_fit(
                cost_calc,
                width as int,
                height as int,
                TERRAIN_WEIGHT as int,
                heuristic,
                false,
                ends@,
            ),
        ensures
            astar.wf(),
            astar.steps() == 0,
            built_on(
                astar.problem(),
                start,
                cost_calc,
                width as int,
                height as int,
                diagonal,
                SearchOptions { terrain_weight: TERRAIN_WEIGHT, relax: false, nearest_goal: false },
            ),
            forall|c: Coord|
                c.in_bounds(width as int, height as int) ==> #[trigger] (astar.problem().goal)(c)
                    == ends@.contains(c),
            forall|c: Coord|
                c.in_bounds(width as int, height as int) ==> #[trigger] (astar.problem().estimate)(
                    c,
                ) == heuristic.total(c, ends@),
            heuristic == Heuristic::Zero ==> forall|c: Coord| #[trigger]
                (astar.problem().estimate)(c) == 0,
    {
        let options = SearchOptions {
            terrain_weight: TERRAIN_WEIGHT,
            relax: false,
            nearest_goal: false,
        };
        Astar::new_fixed_target_with(start, ends, cost_calc, width, height, diagonal, heuristic, options)
    }

    /// An engine for the goals `ends`, with options of the caller's.
    pub fn new_fixed_target_with<C: Fn(Coord) -> i32>(
        start: Coord,
        ends: Vec<Coord>,
        cost_calc: C,
        width: i32,
        height: i32,
        diagonal: Diagonal,
        heuristic: Heuristic,
        options: SearchOptions,
    ) -> (astar: Astar)
        requires
            start.in_bounds(width as int, height as int),
            forall|c: Coord| c.in_bounds(width as int, height as int) ==> call_requires(cost_calc, (c,)),
            estimates_fit(
                cost_calc,
                width as int,
                height as int,
                options.terrain_weight as int,
                heuristic,
                options.nearest_goal,
                ends@,
            ),
        ensures
            astar.wf(),
            astar.steps() == 0,
            built_on(astar.problem(), start, cost_calc, width as int, height as int, diagonal, options),
            forall|c: Coord|
                c.in_bounds(width as int, height as int) ==> #[trigger] (astar.problem().goal)(c)
                    == ends@.contains(c),
            forall|c: Coord|
                c.in_bounds(width as int, height as int) ==> #[trigger] (astar.problem().estimate)(
                    c,
                ) == goal_estimate(heuristic, options.nearest_goal, c, ends@),
            heuristic == Heuristic::Zero ==> forall|c: Coord| #[trigger]
                (astar.problem().estimate)(c) == 0,
    {
        let is_goal = |c: Coord| -> (yes: bool)
            ensures
                yes == ends@.contains(c),
            { contains_coord(&ends, c) };
        let search = if options.nearest_goal {
            let nearest = |c: Coord| -> (r: i32)
                requires
                    forall|k: int|
                        0 <= k < ends@.len() ==> heuristic.between(c, #[trigger] ends@[k]) <= i32::MAX,
                ensures
                    r == heuristic.nearest(c, ends@),
                { heuristic.calc_nearest(&c, &ends) };
            Search::new(start, width, height, diagonal, options, &cost_calc, &is_goal, &nearest)
        } else {
            let sum = |c: Coord| -> (r: i32)
                requires
                    heuristic.total(c, ends@) <= i32::MAX,
                ensures
                    r == heuristic.total(c, ends@),
                { heuristic.calc_multiple(&c, &ends) };
            Search::new(start, width, height, diagonal, options, &cost_calc, &is_goal, &sum)
        };
        proof {
            if heuristic == Heuristic::Zero {
                assert forall|c: Coord| #[trigger] (search.problem().estimate)(c) == 0 by {
                    Heuristic::lemma_zero_estimates(c, ends@);
                }
            }
        }
        Astar { search }
    }

    /// An engine for an open-ended goal: `is_valid_end` says which cells
    /// end the search and `heuristic_calc` estimates what remains.
    pub fn new_open_target<G, H, C>(
        start: Coord,
        is_valid_end: G,
        heuristic_calc: H,
        cost_calc: C,
        width: i32,
        height: i32,
        diagonal: Diagonal,
    ) -> (astar: Astar) where G: Fn(Coord) -> bool, H: Fn(Coord) -> i32, C: Fn(Coord) -> i32
        requires
            start.in_bounds(width as int, height as int),
            width * height <= i32::MAX,
            forall|c: Coord|
                c.in_bounds(width as int, height as int) ==> {
                    &&& call_requires(cost_calc, (c,))
                    &&& call_requires(is_valid_end, (c,))
                    &&& call_requires(heuristic_calc, (c,))
                },
            forall|c: Coord, est: i32|
                c.in_bounds(width as int, height as int) && #[trigger] call_ensures(
                    heuristic_calc,
                    (c,),
                    est,
                ) ==> room_for(
                    cost_calc,
                    width as int,
                    height as int,
                    TERRAIN_WEIGHT as int,
                    c,
                    est as int,
                ),
        ensures
            astar.wf(),
            astar.steps() == 0,
            built_on(
                astar.problem(),
                start,
                cost_calc,
                width as int,
                height as int,
                diagonal,
                SearchOptions { terrain_weight: TERRAIN_WEIGHT, relax: false, nearest_goal: false },
            ),
            forall|c: Coord|
                c.in_bounds(width as int, height as int) ==> call_ensures(
                    is_valid_end,
                    (c,),
                    #[trigger] (astar.problem().goal)(c),
                ),
            forall|c: Coord|
                c.in_bounds(width as int, height as int) ==> returns_int(
                    heuristic_calc,
                    c,
                    #[trigger] (astar.problem().estimate)(c),
                ),
    {
        let options = SearchOptions {
            terrain_weight: TERRAIN_WEIGHT,
            relax: false,
            nearest_goal: false,
        };
        let search = Search::new(
            start,
            width,
            height,
            diagonal,
            options,
            &cost_calc,
            &is_valid_end,
            &heuristic_calc,
        );
        Astar { search }
    }

    /// The cells expanded so far, oldest first.
    pub fn closed_cells(&self) -> (out: Vec<Coord>)
        requires
            self.wf(),
        ensures
            out@ == cells_of(self.state().nodes, self.state().closed),
    {
        self.search.expanded_cells()
    }

    /// Takes one step: see [`step`].
    pub fn process_once(&mut self)
        requires
            old(self).wf(),
        ensures
            final(self).wf(),
            final(self).problem() == old(self).problem(),
            final(self).steps() == old(self).steps() + 1,
            final(self).state() == step(old(self).problem(), old(self).state()),
    {
        self.search.advance();
    }
}

impl Algorithm for Astar {
    closed spec fn problem(&self) -> Problem {
        self.search.problem()
    }

    closed spec fn state(&self) -> SearchState {
        self.search.state()
    }

    closed spec fn wf(&self) -> bool {
        self.search.wf()
    }

    fn tick(&mut self)
        ensures
            final(self).steps() == old(self).steps() + 1,
    {
        self.process_once();
    }

    fn get_data(&self) -> (status: &AlgoStatus) {
        self.search.status()
    }
}

} // verus!
