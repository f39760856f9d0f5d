//! The engine that both algorithms share: the arena of nodes, the two
//! lists, and the step that refines [`crate::search::step`].

use vstd::prelude::*;
use crate::algo::{AlgoStatus, StatusView, NODE_WALL};
use crate::diagonal::{computes, has_surroundings, total, Diagonal};
use crate::grid::Grid;
use crate::models::{Coord, Node, NodeView};
use crate::search::{
    cells_of, child, initial, is_first_at, is_selected, lemma_first_at_unique,
    lemma_selected_unique, listed, offer, offer_all, path_to, run, sits_at, status_of, step,
    Outcome, Problem, SearchState,
};
use crate::shape::{
    lemma_arena_fits_grid, lemma_initial_sound, lemma_offer_all_sound, lemma_offer_sound,
    lemma_step_sound, linked, sound,
};

verus! {

/// The factor that the cost of a cell has in its priority unless the
/// caller chooses another.
pub const TERRAIN_WEIGHT: i32 = 5;

/// The choices that an engine is built with, beyond the problem itself.
#[derive(Debug, Clone, Copy, PartialEq, Eq, Structural)]
pub struct SearchOptions {
    /// Factor by which the cost of a cell enters its priority.
    pub terrain_weight: i32,
    /// Whether a strictly shorter route to a frontier cell replaces the
    /// route by which the cell was found first.
    pub relax: bool,
    /// Whether a set of goals is estimated by the nearest goal instead of
    /// by the sum over all goals.
    pub nearest_goal: bool,
}

impl Default for SearchOptions {
    /// Terrain weighted by [`TERRAIN_WEIGHT`], first route wins, goals
    /// summed.
    fn default() -> (options: SearchOptions)
        ensures
            options == (SearchOptions {
                terrain_weight: TERRAIN_WEIGHT,
                relax: false,
                nearest_goal: false,
            }),
    {
        SearchOptions { terrain_weight: TERRAIN_WEIGHT, relax: false, nearest_goal: false }
    }
}

/// The arena as the model sees it.
pub open spec fn nodes_view(nodes: Seq<Node>) -> Seq<NodeView> {
    Seq::new(nodes.len(), |i: int| nodes[i]@)
}

/// A list of arena indices as the model sees it.
pub open spec fn list_view(list: Seq<usize>) -> Seq<int> {
    Seq::new(list.len(), |k: int| list[k] as int)
}

/// The outcome that a status stands for.
pub open spec fn outcome_of(status: StatusView) -> Outcome {
    match status {
        StatusView::InProgress(_, _) => Outcome::Running,
        StatusView::Found(path) => Outcome::Found(path),
        StatusView::NoPath => Outcome::NoPath,
    }
}

/// The cost function that a table stands for.
pub open spec fn grid_cost(grid: Grid) -> spec_fn(Coord) -> i32 {
    |c: Coord| grid.cost(c)
}

/// The goal test that a table stands for.
pub open spec fn grid_goal(grid: Grid) -> spec_fn(Coord) -> bool {
    |c: Coord| grid.goal(c)
}

/// The estimate function that a table stands for.
pub open spec fn grid_estimate(grid: Grid) -> spec_fn(Coord) -> int {
    |c: Coord| grid.estimate(c)
}

/// The problem that a table and the fixed choices of an engine stand for.
pub open spec fn problem_of(
    grid: Grid,
    start: Coord,
    diagonal: Diagonal,
    terrain_weight: i32,
    relax: bool,
) -> Problem {
    Problem {
        width: grid.width(),
        height: grid.height(),
        start,
        diagonal,
        terrain_weight: terrain_weight as int,
        relax,
        cost: grid_cost(grid),
        goal: grid_goal(grid),
        estimate: grid_estimate(grid),
    }
}

/// `f` may return `v` for the cell `c`.
pub open spec fn returns_int<H: Fn(Coord) -> i32>(f: H, c: Coord, v: int) -> bool {
    i32::MIN <= v <= i32::MAX && call_ensures(f, (c,), v as i32)
}

/// What every constructor says of the problem it builds, apart from the
/// goals and the estimate: the fixed choices are the caller's, the cost of
/// a cell inside the rectangle is a value that `cost_calc` returns for it,
/// and outside the rectangle every cell is a wall, no goal, and estimated
/// at zero.
pub open spec fn built_on<C: Fn(Coord) -> i32>(
    p: Problem,
    start: Coord,
    cost_calc: C,
    width: int,
    height: int,
    diagonal: Diagonal,
    options: SearchOptions,
) -> bool {
    &&& p.width == width
    &&& p.height == height
    &&& p.start == start
    &&& p.diagonal == diagonal
    &&& p.terrain_weight == options.terrain_weight
    &&& p.relax == options.relax
    &&& forall|c: Coord|
        c.in_bounds(width, height) ==> call_ensures(cost_calc, (c,), #[trigger] (p.cost)(c))
    &&& forall|c: Coord| !c.in_bounds(width, height) ==> #[trigger] (p.cost)(c) == NODE_WALL
    &&& forall|c: Coord| !c.in_bounds(width, height) ==> !#[trigger] (p.goal)(c)
    &&& forall|c: Coord| !c.in_bounds(width, height) ==> #[trigger] (p.estimate)(c) == 0
}

/// For every cost that `cost_calc` may return for the cell `c`, the
/// priority of a node on `c` fits `i32` wherever in the grid the node
/// hangs: the number of cells bounds the path length.
pub open spec fn room_for<C: Fn(Coord) -> i32>(
    cost_calc: C,
    width: int,
    height: int,
    weight: int,
    c: Coord,
    est: int,
) -> bool {
    forall|cost: i32|
        cost >= 0 && #[trigger] call_ensures(cost_calc, (c,), cost) ==> {
            &&& i32::MIN <= est + weight * cost
            &&& width * height + est + weight * cost <= i32::MAX
        }
}

/// The priorities that can come up all fit the machine's integers: the
/// grid has at most `i32::MAX` cells, and for every cell that can be
/// entered the longest possible path plus estimate plus weighted cost stays
/// in range.
pub open spec fn fits(p: Problem) -> bool {
    &&& p.width * p.height <= i32::MAX
    &&& forall|c: Coord| #[trigger]
        p.enterable(c) ==> {
            &&& i32::MIN <= (p.estimate)(c) + p.terrain_weight * (p.cost)(c)
            &&& p.width * p.height + (p.estimate)(c) + p.terrain_weight * (p.cost)(c) <= i32::MAX
        }
}

/// Every node with a parent has it inside the arena and nearer to the
/// root.
pub open spec fn chained(nodes: Seq<NodeView>) -> bool {
    forall|i: int|
        0 <= i < nodes.len() ==> match (#[trigger] nodes[i]).parent {
            Some(q) => 0 <= q < nodes.len() && 0 <= nodes[q].g < nodes[i].g,
            None => true,
        }
}

/// A list whose view names nodes holds indices below the arena's length.
proof fn lemma_indices(list: Seq<usize>, len: int)
    requires
        crate::shape::names_nodes(list_view(list), len),
    ensures
        forall|j: int| 0 <= j < list.len() ==> #[trigger] list[j] < len,
{
    assert forall|j: int| 0 <= j < list.len() implies #[trigger] list[j] < len by {
        assert(list_view(list)[j] == list[j]);
    }
}

/// The position in `open` of the entry to expand next.
fn select(nodes: &Vec<Node>, open: &Vec<usize>) -> (k: usize)
    requires
        open@.len() > 0,
        forall|j: int| 0 <= j < open@.len() ==> #[trigger] open@[j] < nodes@.len(),
    ensures
        is_selected(nodes_view(nodes@), list_view(open@), k as int),
{
    let mut best: usize = 0;
    let mut i: usize = 1;
    while i < open.len()
        invariant
            0 <= best < i <= open@.len(),
            forall|j: int| 0 <= j < open@.len() ==> #[trigger] open@[j] < nodes@.len(),
            forall|j: int| 0 <= j < i ==> nodes@[open@[best as int] as int].f <= nodes@[#[trigger] open@[j] as int].f,
            forall|j: int| 0 <= j < best ==> nodes@[open@[best as int] as int].f < nodes@[#[trigger] open@[j] as int].f,
        decreases open@.len() - i,
    {
        if nodes[open[i]].f < nodes[open[best]].f {
            best = i;
        }
        i += 1;
    }
    proof {
        let nv = nodes_view(nodes@);
        let lv = list_view(open@);
        assert forall|j: int| 0 <= j < lv.len() implies nv[lv[best as int]].f <= nv[#[trigger] lv[j]].f by {
            assert(nodes@[open@[best as int] as int].f <= nodes@[open@[j] as int].f);
        }
        assert forall|j: int| 0 <= j < best implies nv[lv[best as int]].f < nv[#[trigger] lv[j]].f by {
            assert(nodes@[open@[best as int] as int].f < nodes@[open@[j] as int].f);
        }
    }
    best
}

/// The first position in `list` whose node sits on `c`, if there is one.
fn find_cell(nodes: &Vec<Node>, list: &Vec<usize>, c: Coord) -> (found: Option<usize>)
    requires
        forall|j: int| 0 <= j < list@.len() ==> #[trigger] list@[j] < nodes@.len(),
    ensures
        match found {
            Some(k) => is_first_at(nodes_view(nodes@), list_view(list@), c, k as int),
            None => !listed(nodes_view(nodes@), list_view(list@), c),
        },
{
    let mut i: usize = 0;
    while i < list.len()
        invariant
            i <= list@.len(),
            forall|j: int| 0 <= j < list@.len() ==> #[trigger] list@[j] < nodes@.len(),
            forall|j: int| 0 <= j < i ==> nodes@[#[trigger] list@[j] as int].xy != c,
        decreases list@.len() - i,
    {
        let at = nodes[list[i]].xy;
        if at.x == c.x && at.y == c.y {
            proof {
                let nv = nodes_view(nodes@);
                let lv = list_view(list@);
                assert forall|j: int| 0 <= j < i implies nv[#[trigger] lv[j]].xy != c by {
                    assert(nodes@[list@[j] as int].xy != c);
                }
            }
            return Some(i);
        }
        i += 1;
    }
    proof {
        let nv = nodes_view(nodes@);
        let lv = list_view(list@);
        assert forall|k: int| !sits_at(nv, lv, c, k) by {
            if 0 <= k < lv.len() {
                assert(nodes@[list@[k] as int].xy != c);
            }
        }
    }
    None
}

/// The cells of the nodes that `list` names, in order.
fn cells(nodes: &Vec<Node>, list: &Vec<usize>) -> (out: Vec<Coord>)
    requires
        forall|j: int| 0 <= j < list@.len() ==> #[trigger] list@[j] < nodes@.len(),
    ensures
        out@ == cells_of(nodes_view(nodes@), list_view(list@)),
{
    let mut out: Vec<Coord> = Vec::new();
    let mut i: usize = 0;
    while i < list.len()
        invariant
            i <= list@.len(),
            out@.len() == i,
            forall|j: int| 0 <= j < list@.len() ==> #[trigger] list@[j] < nodes@.len(),
            forall|j: int| 0 <= j < i ==> out@[j] == nodes@[#[trigger] list@[j] as int].xy,
        decreases list@.len() - i,
    {
        out.push(nodes[list[i]].xy);
        i += 1;
    }
    assert(out@ =~= cells_of(nodes_view(nodes@), list_view(list@)));
    out
}

/// The cells from the root down to node `from`.
fn trace(nodes: &Vec<Node>, from: usize) -> (path: Vec<Coord>)
    requires
        from < nodes@.len(),
        chained(nodes_view(nodes@)),
    ensures
        path@ == path_to(nodes_view(nodes@), from as int),
{
    let ghost nv = nodes_view(nodes@);
    let mut upward: Vec<Coord> = Vec::new();
    let mut cur: usize = from;
    loop
        invariant_except_break
            cur < nodes@.len(),
            nv == nodes_view(nodes@),
            chained(nv),
            path_to(nv, from as int) =~= path_to(nv, cur as int) + Seq::new(
                upward@.len(),
                |i: int| upward@[upward@.len() - 1 - i],
            ),
        ensures
            path_to(nv, from as int) =~= Seq::new(
                upward@.len(),
                |i: int| upward@[upward@.len() - 1 - i],
            ),
        decreases nodes@[cur as int].g,
    {
        let node = nodes[cur];
        proof {
            assert(nv[cur as int] == node@);
        }
        match node.parent {
            Some(q) => {
                let ghost before = upward@;
                upward.push(node.xy);
                proof {
                    let tail_before = Seq::new(before.len(), |i: int| before[before.len() - 1 - i]);
                    let tail_after = Seq::new(
                        upward@.len(),
                        |i: int| upward@[upward@.len() - 1 - i],
                    );
                    assert(nv[q as int] == nodes@[q as int]@);
                    assert(path_to(nv, cur as int) == path_to(nv, q as int).push(node.xy));
                    assert(tail_after =~= seq![node.xy] + tail_before);
                    assert(path_to(nv, q as int).push(node.xy) + tail_before =~= path_to(
                        nv,
                        q as int,
                    ) + tail_after);
                }
                cur = q;
            },
            None => {
                let ghost before = upward@;
                upward.push(node.xy);
                proof {
                    let tail_before = Seq::new(before.len(), |i: int| before[before.len() - 1 - i]);
                    let tail_after = Seq::new(
                        upward@.len(),
                        |i: int| upward@[upward@.len() - 1 - i],
                    );
                    assert(path_to(nv, cur as int) =~= seq![node.xy]);
                    assert(tail_after =~= seq![node.xy] + tail_before);
                }
                break ;
            },
        }
    }
    let mut path: Vec<Coord> = Vec::new();
    let mut left: usize = upward.len();
    while left > 0
        invariant
            left <= upward@.len(),
            path@.len() == upward@.len() - left,
            forall|i: int| 0 <= i < path@.len() ==> path@[i] == upward@[upward@.len() - 1 - i],
        decreases left,
    {
        left -= 1;
        path.push(upward[left]);
    }
    assert(path@ =~= path_to(nv, from as int));
    path
}

/// The candidates around `xy` on the table, under `diagonal`.
fn neighbours_of(grid: &Grid, diagonal: Diagonal, xy: Coord) -> (out: Vec<Coord>)
    requires
        grid.wf(),
        has_surroundings(xy),
    ensures
        out@ == diagonal.neighbours(grid_cost(*grid), xy),
{
    let lookup = |c: Coord| -> (cost: i32)
        ensures
            cost == grid.cost(c),
        { grid.cost_at(c) };
    assert(total(lookup));
    assert(computes(lookup, grid_cost(*grid)));
    diagonal.get_neighbours(&lookup, xy)
}

/// A search in progress: the table of cells, the fixed choices, and the
/// state that each step moves on.
pub struct Search {
    grid: Grid,
    start: Coord,
    diagonal: Diagonal,
    terrain_weight: i32,
    relax: bool,
    nodes: Vec<Node>,
    open: Vec<usize>,
    closed: Vec<usize>,
    status: AlgoStatus,
    steps: Ghost<nat>,
}

impl Search {
    /// The problem that this search works on; it never changes.
    pub closed spec fn problem(&self) -> Problem {
        problem_of(self.grid, self.start, self.diagonal, self.terrain_weight, self.relax)
    }

    /// The state that the search is in.
    pub closed spec fn state(&self) -> SearchState {
        SearchState {
            nodes: nodes_view(self.nodes@),
            open: list_view(self.open@),
            closed: list_view(self.closed@),
            outcome: outcome_of(self.status@),
        }
    }

    /// How many steps have been taken.
    pub closed spec fn steps(&self) -> nat {
        self.steps@
    }

    /// The table is whole, the start lies inside it, priorities fit, and
    /// the state is sound.
    pub closed spec fn coherent(&self) -> bool {
        &&& self.grid.wf()
        &&& self.start.in_bounds(self.grid.width(), self.grid.height())
        &&& fits(self.problem())
        &&& sound(self.problem(), self.state())
    }

    /// The search is coherent, its state is the one that [`run`] gives for
    /// the steps taken, and the status shows that state.
    pub closed spec fn wf(&self) -> bool {
        &&& self.coherent()
        &&& self.state() == run(self.problem(), self.steps@)
        &&& self.status@ == status_of(self.state())
    }

    /// A well-formed search is in a state that [`run`] reaches.
    pub proof fn lemma_wf(&self)
        requires
            self.wf(),
        ensures
            self.state() == run(self.problem(), self.steps()),
            sound(self.problem(), self.state()),
            self.problem().start.in_bounds(self.problem().width, self.problem().height),
            fits(self.problem()),
    {
    }

    /// A search over the rectangle `[0, width) x [0, height)` that starts
    /// at `start`. The three functions are asked once about every cell.
    pub fn new<C, G, H>(
        start: Coord,
        width: i32,
        height: i32,
        diagonal: Diagonal,
        options: SearchOptions,
        cost_calc: &C,
        is_goal: &G,
        estimate: &H,
    ) -> (search: Search) where C: Fn(Coord) -> i32, G: Fn(Coord) -> bool, H: Fn(Coord) -> i32
        requires
            start.in_bounds(width as int, height as int),
            width * height <= i32::MAX,
            forall|c: Coord|
                c.in_bounds(width as int, height as int) ==> {
                    &&& call_requires(*cost_calc, (c,))
                    &&& call_requires(*is_goal, (c,))
                    &&& call_requires(*estimate, (c,))
                },
            forall|c: Coord, est: i32|
                c.in_bounds(width as int, height as int) && #[trigger] call_ensures(
                    *estimate,
                    (c,),
                    est,
                ) ==> room_for(
                    *cost_calc,
                    width as int,
                    height as int,
                    options.terrain_weight as int,
                    c,
                    est as int,
                ),
        ensures
            search.wf(),
            search.steps() == 0,
            built_on(search.problem(), start, *cost_calc, width as int, height as int, diagonal, options),
            forall|c: Coord|
                c.in_bounds(width as int, height as int) ==> call_ensures(
                    *is_goal,
                    (c,),
                    #[trigger] (search.problem().goal)(c),
                ),
            forall|c: Coord|
                c.in_bounds(width as int, height as int) ==> returns_int(
                    *estimate,
                    c,
                    #[trigger] (search.problem().estimate)(c),
                ),
    {
        let grid = Grid::sample(width, height, cost_calc, is_goal, estimate);
        let first = grid.lookup(start);
        let root = Node { xy: start, g: 0, h: first.estimate, f: first.estimate, parent: None };
        let mut nodes: Vec<Node> = Vec::new();
        nodes.push(root);
        let mut open: Vec<usize> = Vec::new();
        open.push(0);
        let closed: Vec<usize> = Vec::new();
        let mut frontier: Vec<Coord> = Vec::new();
        frontier.push(start);
        let status = AlgoStatus::InProgress((frontier, Vec::new()));
        let search = Search {
            grid,
            start,
            diagonal,
            terrain_weight: options.terrain_weight,
            relax: options.relax,
            nodes,
            open,
            closed,
            status,
            steps: Ghost(0),
        };
        proof {
            let p = search.problem();
            let s = search.state();
            assert(s.nodes =~= initial(p).nodes);
            assert(s.open =~= initial(p).open);
            assert(s.closed =~= initial(p).closed);
            assert(s == initial(p));
            lemma_initial_sound(p);
            assert(cells_of(s.nodes, s.open) =~= seq![start]);
            assert(cells_of(s.nodes, s.closed) =~= Seq::<Coord>::empty());
            assert forall|c: Coord| #[trigger] p.enterable(c) implies {
                &&& i32::MIN <= (p.estimate)(c) + p.terrain_weight * (p.cost)(c)
                &&& p.width * p.height + (p.estimate)(c) + p.terrain_weight * (p.cost)(c)
                    <= i32::MAX
            } by {
                let cell = search.grid.cell(c);
                assert(call_ensures(*cost_calc, (c,), cell.cost));
                assert(call_ensures(*estimate, (c,), cell.estimate));
                assert(room_for(
                    *cost_calc,
                    width as int,
                    height as int,
                    options.terrain_weight as int,
                    c,
                    cell.estimate as int,
                ));
            }
            assert forall|c: Coord| c.in_bounds(width as int, height as int) implies call_ensures(
                *cost_calc,
                (c,),
                #[trigger] (p.cost)(c),
            ) by {
                let cell = search.grid.cell(c);
            }
            assert forall|c: Coord| c.in_bounds(width as int, height as int) implies call_ensures(
                *is_goal,
                (c,),
                #[trigger] (p.goal)(c),
            ) by {
                let cell = search.grid.cell(c);
            }
            assert forall|c: Coord| c.in_bounds(width as int, height as int) implies returns_int(
                *estimate,
                c,
                #[trigger] (p.estimate)(c),
            ) by {
                let cell = search.grid.cell(c);
            }
        }
        search
    }

    /// The status after the steps taken so far.
    pub fn status(&self) -> (status: &AlgoStatus)
        requires
            self.wf(),
        ensures
            status@ == status_of(self.state()),
    {
        &self.status
    }

    /// The cells expanded so far, oldest first. While the search runs the
    /// status shows them too; this also tells them once a path is found.
    pub fn expanded_cells(&self) -> (out: Vec<Coord>)
        requires
            self.wf(),
        ensures
            out@ == cells_of(self.state().nodes, self.state().closed),
    {
        proof {
            lemma_indices(self.closed@, self.nodes@.len() as int);
        }
        cells(&self.nodes, &self.closed)
    }

    /// Offers the candidate `c`, found from node `cur`.
    fn offer(&mut self, cur: usize, c: Coord)
        requires
            old(self).coherent(),
            old(self).state().outcome is Running,
            old(self).state().closed.contains(cur as int),
            old(self).problem().diagonal.neighbours(
                old(self).problem().cost,
                old(self).state().nodes[cur as int].xy,
            ).contains(c),
        ensures
            final(self).coherent(),
            final(self).problem() == old(self).problem(),
            final(self).steps() == old(self).steps(),
            final(self).status == old(self).status,
            final(self).state() == offer(old(self).problem(), old(self).state(), cur as int, c),
    {
        let ghost p = self.problem();
        let ghost s = self.state();
        proof {
            lemma_arena_fits_grid(p, s);
            lemma_offer_sound(p, s, cur as int, c);
            assert(0 <= s.nodes[cur as int].g <= cur);
            lemma_indices(self.open@, self.nodes@.len() as int);
            lemma_indices(self.closed@, self.nodes@.len() as int);
        }
        let cell = self.grid.lookup(c);
        if c.is_out_of_bounds(self.grid.column_count(), self.grid.row_count()) || cell.cost < 0 {
            return ;
        }
        assert(p.enterable(c));
        let g: i32 = self.nodes[cur].g + 1;
        assert(-0x4000_0000_0000_0000 <= (self.terrain_weight as int) * (cell.cost as int)
            <= 0x4000_0000_0000_0000) by (nonlinear_arith)
            requires
                -0x8000_0000 <= self.terrain_weight as int <= 0x8000_0000,
                -0x8000_0000 <= cell.cost as int <= 0x8000_0000,
        ;
        let wide: i64 = g as i64 + cell.estimate as i64 + (self.terrain_weight as i64) * (
        cell.cost as i64);
        let fresh = Node { xy: c, g, h: cell.estimate, f: wide as i32, parent: Some(cur) };
        assert(fresh@ == child(p, s.nodes, cur as int, c));
        match find_cell(&self.nodes, &self.open, c) {
            Some(k) => {
                proof {
                    lemma_first_at_unique(s.nodes, s.open, c, k as int);
                }
                let j = self.open[k];
                if self.relax && g < self.nodes[j].g {
                    self.nodes.set(j, fresh);
                    proof {
                        assert(self.state().nodes =~= s.nodes.update(j as int, fresh@));
                    }
                }
            },
            None => {
                match find_cell(&self.nodes, &self.closed, c) {
                    Some(m) => {
                        proof {
                            lemma_first_at_unique(s.nodes, s.closed, c, m as int);
                        }
                    },
                    None => {
                        let at = self.nodes.len();
                        self.nodes.push(fresh);
                        self.open.push(at);
                        proof {
                            assert(self.state().nodes =~= s.nodes.push(fresh@));
                            assert(self.state().open =~= s.open.push(s.nodes.len() as int));
                        }
                    },
                }
            },
        }
    }

    /// Takes one step: see [`step`].
    pub fn advance(&mut self)
        requires
            old(self).wf(),
        ensures
            final(self).wf(),
            final(self).problem() == old(self).problem(),
            final(self).steps() == old(self).steps() + 1,
            final(self).state() == step(old(self).problem(), old(self).state()),
    {
        let ghost p = self.problem();
        let ghost s = self.state();
        proof {
            lemma_step_sound(p, s);
            lemma_arena_fits_grid(p, s);
            lemma_indices(self.open@, self.nodes@.len() as int);
            lemma_indices(self.closed@, self.nodes@.len() as int);
        }
        if self.status.is_terminal() {
            self.steps = Ghost((self.steps@ + 1) as nat);
            return ;
        }
        if self.open.len() == 0 {
            self.status = AlgoStatus::NoPath;
            self.steps = Ghost((self.steps@ + 1) as nat);
            proof {
                assert(self.state() == step(p, s));
            }
            return ;
        }
        let k = select(&self.nodes, &self.open);
        proof {
            lemma_selected_unique(s.nodes, s.open, k as int);
        }
        let cur = self.open.remove(k);
        let node = self.nodes[cur];
        let ghost rest = s.open.remove(k as int);
        assert(list_view(self.open@) =~= rest);
        assert(node@ == s.nodes[cur as int]);
        proof {
            crate::shape::lemma_nodes_in_grid(p, s, cur as int);
        }
        let cell = self.grid.lookup(node.xy);
        if cell.goal {
            proof {
                assert(chained(s.nodes)) by {
                    assert forall|i: int| 0 <= i < s.nodes.len() implies match (#[trigger] s.nodes[i]).parent {
                        Some(q) => 0 <= q < s.nodes.len() && 0 <= s.nodes[q].g < s.nodes[i].g,
                        None => true,
                    } by {
                        if i >= 1 {
                            assert(linked(p, s, i));
                        }
                    }
                }
            }
            let path = trace(&self.nodes, cur);
            self.status = AlgoStatus::Found(path);
            self.steps = Ghost((self.steps@ + 1) as nat);
            proof {
                assert(self.state() == step(p, s));
            }
            return ;
        }
        self.closed.push(cur);
        let ghost base = SearchState { open: rest, closed: s.closed.push(cur as int), ..s };
        assert(list_view(self.closed@) =~= base.closed);
        assert(self.state() == base);
        proof {
            crate::shape::lemma_close_sound(p, s);
            self.grid.lemma_extent();
        }
        let cands = neighbours_of(&self.grid, self.diagonal, node.xy);
        let mut i: usize = 0;
        while i < cands.len()
            invariant
                i <= cands@.len(),
                self.coherent(),
                self.problem() == p,
                self.steps() == old(self).steps(),
                sound(p, base),
                base.outcome is Running,
                base.closed.contains(cur as int),
                base.nodes[cur as int].xy == node.xy,
                cands@ == p.diagonal.neighbours(p.cost, node.xy),
                self.state() == offer_all(p, base, cur as int, cands@.take(i as int)),
                self.state().outcome is Running,
            decreases cands@.len() - i,
        {
            proof {
                let done = cands@.take(i as int);
                assert forall|k: int| 0 <= k < done.len() implies p.diagonal.neighbours(
                    p.cost,
                    base.nodes[cur as int].xy,
                ).contains(#[trigger] done[k]) by {
                    assert(done[k] == cands@[k]);
                }
                lemma_offer_all_sound(p, base, cur as int, done);
                let m = choose|m: int| 0 <= m < base.closed.len() && base.closed[m] == cur as int;
                assert(self.state().nodes[base.closed[m]] == base.nodes[base.closed[m]]);
                assert(cands@.contains(cands@[i as int]));
                assert(cands@.take(i + 1).drop_last() =~= done);
            }
            self.offer(cur, cands[i]);
            i += 1;
        }
        let ghost after = self.state();
        proof {
            assert(cands@.take(i as int) =~= cands@);
            assert(after == step(p, s));
            lemma_indices(self.open@, self.nodes@.len() as int);
            lemma_indices(self.closed@, self.nodes@.len() as int);
        }
        let frontier = cells(&self.nodes, &self.open);
        let expanded = cells(&self.nodes, &self.closed);
        self.status = AlgoStatus::InProgress((frontier, expanded));
        self.steps = Ghost((self.steps@ + 1) as nat);
        proof {
            assert(self.state() == after);
        }
    }
}

} // verus!
