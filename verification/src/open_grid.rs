//! The grid without walls where every cell costs the same: distances are
//! what the deltas say, every cell can be reached, and the searches that
//! find shortest paths find paths of exactly that length.

use vstd::prelude::*;
use crate::diagonal::{Diagonal, Direction};
use crate::guided::{downhill, guided};
use crate::heuristic::{abs_of, larger_of, Heuristic};
use crate::models::Coord;
use crate::progress::lemma_run_thorough;
use crate::search::{run, Outcome, Problem};
use crate::uniform::{blind, lemma_blind_is_shortest, uniform_cost};

verus! {

/// The number of steps between two cells when nothing is in the way: the
/// sum of the two deltas where steps are orthogonal only, the larger of
/// them where diagonal steps are allowed.
pub open spec fn grid_distance(diagonal: Diagonal, a: Coord, b: Coord) -> int {
    let dx = abs_of(a.x - b.x);
    let dy = abs_of(a.y - b.y);
    if diagonal == Diagonal::Never {
        dx + dy
    } else {
        larger_of(dx, dy)
    }
}

/// Every cell of the grid costs `k`, which is no wall, and the grid's
/// extents are machine integers.
pub open spec fn open_uniform(p: Problem, k: int) -> bool {
    &&& 0 <= k
    &&& p.width <= i32::MAX
    &&& p.height <= i32::MAX
    &&& forall|c: Coord| c.in_bounds(p.width, p.height) ==> #[trigger] (p.cost)(c) == k
}

/// The distance of a cell from the start of `p`.
pub open spec fn from_start(p: Problem, c: Coord) -> int {
    grid_distance(p.diagonal, p.start, c)
}

/// A candidate around a cell of the grid is at most one step nearer to
/// any cell `t`, and at most one step further from it.
pub proof fn lemma_step_shifts_by_one(p: Problem, a: Coord, b: Coord, t: Coord)
    requires
        p.width <= i32::MAX,
        p.height <= i32::MAX,
        a.in_bounds(p.width, p.height),
        p.diagonal.neighbours(p.cost, a).contains(b),
    ensures
        grid_distance(p.diagonal, a, t) - 1 <= grid_distance(p.diagonal, b, t) <= grid_distance(
            p.diagonal,
            a,
            t,
        ) + 1,
{
    p.diagonal.lemma_neighbours_contains(p.cost, a, b);
    let dir = choose|dir: Direction| #[trigger]
        p.diagonal.admits(p.cost, a, dir) && dir.target(a) == b;
    assert(b.x == a.x + dir.dx());
    assert(b.y == a.y + dir.dy());
}

/// From a cell of an open grid that is not `t`, a legal step leads to a
/// cell one step nearer to `t`.
pub proof fn lemma_step_toward(p: Problem, k: int, c: Coord, t: Coord) -> (b: Coord)
    requires
        open_uniform(p, k),
        c.in_bounds(p.width, p.height),
        t.in_bounds(p.width, p.height),
        c != t,
    ensures
        b.in_bounds(p.width, p.height),
        grid_distance(p.diagonal, b, t) == grid_distance(p.diagonal, c, t) - 1,
        p.legal_step(c, b),
{
    let ddx = t.x - c.x;
    let ddy = t.y - c.y;
    let sx: int = if ddx > 0 { 1 } else if ddx < 0 { -1 } else { 0 };
    let sy: int = if ddy > 0 { 1 } else if ddy < 0 { -1 } else { 0 };
    let (mx, my): (int, int) = if p.diagonal == Diagonal::Never {
        if sx != 0 {
            (sx, 0int)
        } else {
            (0int, sy)
        }
    } else {
        if abs_of(ddx) > abs_of(ddy) {
            (sx, 0int)
        } else if abs_of(ddx) < abs_of(ddy) {
            (0int, sy)
        } else {
            (sx, sy)
        }
    };
    let dir = if mx == 1 && my == 0 {
        Direction::Right
    } else if mx == -1 && my == 0 {
        Direction::Left
    } else if mx == 0 && my == 1 {
        Direction::Bottom
    } else if mx == 0 && my == -1 {
        Direction::Top
    } else if mx == 1 && my == 1 {
        Direction::BottomRight
    } else if mx == 1 && my == -1 {
        Direction::TopRight
    } else if mx == -1 && my == 1 {
        Direction::BottomLeft
    } else {
        Direction::TopLeft
    };
    assert(dir.dx() == mx && dir.dy() == my);
    let b = dir.target(c);
    assert(b.x == c.x + mx && b.y == c.y + my);
    lemma_open_step(p, k, c, dir);
    b
}

/// The step from `a` in direction `dir` is legal on an open grid when
/// both ends lie on the grid and the policy allows the direction.
pub proof fn lemma_open_step(p: Problem, k: int, a: Coord, dir: Direction)
    requires
        open_uniform(p, k),
        a.in_bounds(p.width, p.height),
        dir.target(a).in_bounds(p.width, p.height),
        dir.is_diagonal() ==> p.diagonal != Diagonal::Never,
        a.x + dir.dx() == dir.target(a).x,
        a.y + dir.dy() == dir.target(a).y,
    ensures
        p.legal_step(a, dir.target(a)),
{
    let b = dir.target(a);
    if dir.is_diagonal() {
        let first = dir.flanks(a).0;
        let second = dir.flanks(a).1;
        assert(first.in_bounds(p.width, p.height));
        assert(second.in_bounds(p.width, p.height));
        assert((p.cost)(first) == k);
        assert((p.cost)(second) == k);
    }
    assert((p.cost)(b) == k);
    assert(p.diagonal.admits(p.cost, a, dir));
    p.diagonal.lemma_neighbours_contains(p.cost, a, b);
}

/// From a cell of an open grid to any other, a sequence of legal steps
/// leads that has as many steps as the two cells are distant.
pub proof fn lemma_straight_walk(p: Problem, k: int, from: Coord, t: Coord) -> (walk: Seq<Coord>)
    requires
        open_uniform(p, k),
        from.in_bounds(p.width, p.height),
        t.in_bounds(p.width, p.height),
    ensures
        walk.len() == grid_distance(p.diagonal, from, t) + 1,
        walk[0] == from,
        walk.last() == t,
        forall|j: int| 0 <= j < walk.len() - 1 ==> p.legal_step(#[trigger] walk[j], walk[j + 1]),
    decreases grid_distance(p.diagonal, from, t),
{
    if from == t {
        seq![from]
    } else {
        let b = lemma_step_toward(p, k, from, t);
        let rest = lemma_straight_walk(p, k, b, t);
        let walk = seq![from] + rest;
        assert forall|j: int| 0 <= j < walk.len() - 1 implies p.legal_step(
            #[trigger] walk[j],
            walk[j + 1],
        ) by {
            if j > 0 {
                assert(walk[j] == rest[j - 1]);
                assert(walk[j + 1] == rest[j - 1 + 1]);
                assert(p.legal_step(rest[j - 1], rest[j - 1 + 1]));
            } else {
                assert(walk[1] == rest[0]);
            }
        }
        assert(walk.last() == rest.last());
        walk
    }
}

/// On an open grid every cell can be reached from the start.
pub proof fn lemma_open_grid_reachable(p: Problem, k: int, c: Coord)
    requires
        open_uniform(p, k),
        p.start.in_bounds(p.width, p.height),
        c.in_bounds(p.width, p.height),
    ensures
        p.reachable(c),
{
    let walk = lemma_straight_walk(p, k, p.start, c);
    assert(p.is_walk(walk) && walk.last() == c);
}

/// Along a walk no cell is further from the start than its place.
pub proof fn lemma_walk_is_no_shortcut(p: Problem, walk: Seq<Coord>, j: int)
    requires
        p.width <= i32::MAX,
        p.height <= i32::MAX,
        p.start.in_bounds(p.width, p.height),
        p.is_walk(walk),
        0 <= j < walk.len(),
    ensures
        walk[j].in_bounds(p.width, p.height),
        from_start(p, walk[j]) <= j,
    decreases j,
{
    if j > 0 {
        lemma_walk_is_no_shortcut(p, walk, j - 1);
        assert(p.legal_step(walk[j - 1], walk[j - 1 + 1]));
        lemma_step_shifts_by_one(p, walk[j - 1], walk[j], p.start);
    }
}

/// The heuristic that measures what the diagonal policy lets a step
/// cover: the sum of the deltas where steps are orthogonal only, the
/// larger delta where diagonal steps are allowed.
pub open spec fn matching_heuristic(diagonal: Diagonal) -> Heuristic {
    if diagonal == Diagonal::Never {
        Heuristic::Manhattan
    } else {
        Heuristic::Chebyshev
    }
}

/// Inside the grid, the cells of `goals` are the goals, and the estimate
/// of a cell is its distance from the nearest of them.
pub open spec fn aims_at(p: Problem, goals: Seq<Coord>) -> bool {
    &&& goals.len() >= 1
    &&& forall|j: int| 0 <= j < goals.len() ==> (#[trigger] goals[j]).in_bounds(p.width, p.height)
    &&& forall|c: Coord|
        c.in_bounds(p.width, p.height) ==> #[trigger] (p.goal)(c) == goals.contains(c)
    &&& forall|c: Coord|
        c.in_bounds(p.width, p.height) ==> #[trigger] (p.estimate)(c) == matching_heuristic(
            p.diagonal,
        ).nearest(c, goals)
}

/// On an open grid, a search that estimates by the distance from the
/// nearest goal is guided.
pub proof fn lemma_open_grid_guided(p: Problem, k: int, goals: Seq<Coord>)
    requires
        open_uniform(p, k),
        aims_at(p, goals),
    ensures
        guided(p),
        uniform_cost(p, k),
{
    let h = matching_heuristic(p.diagonal);
    assert forall|c: Coord| c.in_bounds(p.width, p.height) implies 0 <= #[trigger] (p.estimate)(
        c,
    ) && ((p.goal)(c) <==> (p.estimate)(c) == 0) by {
        let j = h.lemma_nearest_is_least(c, goals);
        assert(h.between(c, goals[j]) == grid_distance(p.diagonal, c, goals[j]));
        if goals.contains(c) {
            let i = choose|i: int| 0 <= i < goals.len() && goals[i] == c;
            assert(h.nearest(c, goals) <= h.between(c, goals[i]));
        }
        if (p.estimate)(c) == 0 {
            assert(goals[j] == c);
        }
    }
    assert forall|a: Coord, b: Coord|
        a.in_bounds(p.width, p.height) && #[trigger] p.legal_step(a, b) implies (p.estimate)(a) <= (
    p.estimate)(b) + 1 by {
        let j = h.lemma_nearest_is_least(b, goals);
        let i = h.lemma_nearest_is_least(a, goals);
        lemma_step_shifts_by_one(p, a, b, goals[j]);
        assert(h.nearest(a, goals) <= h.between(a, goals[j]));
    }
    assert forall|c: Coord|
        c.in_bounds(p.width, p.height) && #[trigger] (p.estimate)(c) > 0 implies p.legal_step(
        c,
        downhill(p, c),
    ) && (p.estimate)(downhill(p, c)) == (p.estimate)(c) - 1 by {
        let j = h.lemma_nearest_is_least(c, goals);
        let b = lemma_step_toward(p, k, c, goals[j]);
        let i = h.lemma_nearest_is_least(b, goals);
        assert(h.nearest(b, goals) <= h.between(b, goals[j]));
        lemma_step_shifts_by_one(p, c, b, goals[i]);
        assert(h.nearest(c, goals) <= h.between(c, goals[i]));
        assert(p.legal_step(c, b) && (p.estimate)(b) == (p.estimate)(c) - 1);
    }
}

/// The path that a blind search on an open grid reports has as many steps
/// as its end is distant from the start.
pub proof fn lemma_found_is_shortest(p: Problem, k: int, n: nat, path: Seq<Coord>)
    requires
        open_uniform(p, k),
        blind(p),
        p.start.in_bounds(p.width, p.height),
        run(p, n).outcome == Outcome::Found(path),
    ensures
        path.len() - 1 == from_start(p, path.last()),
{
    lemma_run_thorough(p, n);
    lemma_walk_is_no_shortcut(p, path, path.len() - 1);
    let straight = lemma_straight_walk(p, k, p.start, path.last());
    assert(p.is_solution(straight));
    lemma_blind_is_shortest(p, k, n, path, straight);
}

} // verus!
