//! The facts about each cell that a search needs, looked up once per cell
//! when an engine is built and kept as a table.

use vstd::prelude::*;
use crate::algo::NODE_WALL;
use crate::models::Coord;

verus! {

/// What is known about one cell.
#[derive(Debug, Clone, Copy, PartialEq, Eq, Structural)]
pub struct Cell {
    /// Cost of entering the cell; negative where it is blocked.
    pub cost: i32,
    /// Whether reaching the cell ends the search.
    pub goal: bool,
    /// Estimated remaining cost from the cell.
    pub estimate: i32,
}

/// A table of [`Cell`]s for the rectangle `[0, width) x [0, height)`,
/// stored column by column.
pub struct Grid {
    width: i32,
    height: i32,
    cells: Vec<Vec<Cell>>,
}

impl Grid {
    pub closed spec fn width(&self) -> int {
        self.width as int
    }

    pub closed spec fn height(&self) -> int {
        self.height as int
    }

    /// The table has one column per `x` and one entry per `y` in it.
    pub closed spec fn wf(&self) -> bool {
        &&& self.cells@.len() == (if self.width > 0 {
            self.width as int
        } else {
            0
        })
        &&& forall|x: int|
            0 <= x < self.cells@.len() ==> (#[trigger] self.cells@[x])@.len() == (if self.height
                > 0 {
                self.height as int
            } else {
                0
            })
    }

    /// Both extents are machine integers.
    pub proof fn lemma_extent(&self)
        ensures
            i32::MIN <= self.width() <= i32::MAX,
            i32::MIN <= self.height() <= i32::MAX,
    {
    }

    /// The entry for a cell inside the rectangle.
    pub closed spec fn cell(&self, c: Coord) -> Cell {
        self.cells@[c.x as int]@[c.y as int]
    }

    /// Cost of a cell: its entry inside the rectangle, a wall outside.
    pub open spec fn cost(&self, c: Coord) -> i32 {
        if c.in_bounds(self.width(), self.height()) {
            self.cell(c).cost
        } else {
            NODE_WALL
        }
    }

    /// Whether a cell is a goal; no cell outside the rectangle is.
    pub open spec fn goal(&self, c: Coord) -> bool {
        c.in_bounds(self.width(), self.height()) && self.cell(c).goal
    }

    /// Estimate for a cell: its entry inside the rectangle, zero outside.
    pub open spec fn estimate(&self, c: Coord) -> int {
        if c.in_bounds(self.width(), self.height()) {
            self.cell(c).estimate as int
        } else {
            0
        }
    }

    /// Every entry is a value that the three functions return for its cell.
    pub open spec fn agrees<C, G, H>(&self, cost_calc: C, is_goal: G, estimate: H) -> bool where
        C: Fn(Coord) -> i32,
        G: Fn(Coord) -> bool,
        H: Fn(Coord) -> i32,
     {
        forall|c: Coord|
            c.in_bounds(self.width(), self.height()) ==> {
                &&& call_ensures(cost_calc, (c,), (#[trigger] self.cell(c)).cost)
                &&& call_ensures(is_goal, (c,), self.cell(c).goal)
                &&& call_ensures(estimate, (c,), self.cell(c).estimate)
            }
    }

    /// Asks the three functions once about every cell of the rectangle,
    /// column by column, and keeps the answers.
    pub fn sample<C, G, H>(
        width: i32,
        height: i32,
        cost_calc: &C,
        is_goal: &G,
        estimate: &H,
    ) -> (grid: Grid) where C: Fn(Coord) -> i32, G: Fn(Coord) -> bool, H: Fn(Coord) -> i32
        requires
            forall|c: Coord|
                c.in_bounds(width as int, height as int) ==> {
                    &&& call_requires(*cost_calc, (c,))
                    &&& call_requires(*is_goal, (c,))
                    &&& call_requires(*estimate, (c,))
                },
        ensures
            grid.wf(),
            grid.width() == width,
            grid.height() == height,
            grid.agrees(*cost_calc, *is_goal, *estimate),
    {
        let mut cells: Vec<Vec<Cell>> = Vec::new();
        let mut x: i32 = 0;
        while x < width
            invariant
                0 <= x,
                x <= width || x == 0,
                cells@.len() == x,
                forall|i: int|
                    0 <= i < x ==> (#[trigger] cells@[i])@.len() == (if height > 0 {
                        height as int
                    } else {
                        0
                    }),
                forall|i: int, j: int|
                    0 <= i < x && 0 <= j < height ==> {
                        let c = Coord { x: i as i32, y: j as i32 };
                        &&& call_ensures(*cost_calc, (c,), (#[trigger] cells@[i]@[j]).cost)
                        &&& call_ensures(*is_goal, (c,), cells@[i]@[j].goal)
                        &&& call_ensures(*estimate, (c,), cells@[i]@[j].estimate)
                    },
                forall|c: Coord|
                    c.in_bounds(width as int, height as int) ==> {
                        &&& call_requires(*cost_calc, (c,))
                        &&& call_requires(*is_goal, (c,))
                        &&& call_requires(*estimate, (c,))
                    },
            decreases width - x,
        {
            let mut column: Vec<Cell> = Vec::new();
            let mut y: i32 = 0;
            while y < height
                invariant
                    0 <= x < width,
                    0 <= y,
                    y <= height || y == 0,
                    column@.len() == y,
                    forall|j: int|
                        0 <= j < y ==> {
                            let c = Coord { x: x, y: j as i32 };
                            &&& call_ensures(*cost_calc, (c,), (#[trigger] column@[j]).cost)
                            &&& call_ensures(*is_goal, (c,), column@[j].goal)
                            &&& call_ensures(*estimate, (c,), column@[j].estimate)
                        },
                    forall|c: Coord|
                        c.in_bounds(width as int, height as int) ==> {
                            &&& call_requires(*cost_calc, (c,))
                            &&& call_requires(*is_goal, (c,))
                            &&& call_requires(*estimate, (c,))
                        },
                decreases height - y,
            {
                let c = Coord { x, y };
                assert(c.in_bounds(width as int, height as int));
                let cell = Cell { cost: cost_calc(c), goal: is_goal(c), estimate: estimate(c) };
                column.push(cell);
                y += 1;
            }
            cells.push(column);
            x += 1;
        }
        let grid = Grid { width, height, cells };
        assert forall|c: Coord| c.in_bounds(grid.width(), grid.height()) implies {
            &&& call_ensures(*cost_calc, (c,), (#[trigger] grid.cell(c)).cost)
            &&& call_ensures(*is_goal, (c,), grid.cell(c).goal)
            &&& call_ensures(*estimate, (c,), grid.cell(c).estimate)
        } by {
            let probe = Coord { x: c.x as int as i32, y: c.y as int as i32 };
            assert(probe == c);
            assert(call_ensures(*cost_calc, (probe,), grid.cells@[c.x as int]@[c.y as int].cost));
        }
        grid
    }

    /// What the table holds for `c`: its entry inside the rectangle; a
    /// wall that is no goal, with estimate zero, outside.
    pub fn lookup(&self, c: Coord) -> (cell: Cell)
        requires
            self.wf(),
        ensures
            cell.cost == self.cost(c),
            cell.goal == self.goal(c),
            cell.estimate == self.estimate(c),
    {
        if c.is_out_of_bounds(self.width, self.height) {
            Cell { cost: NODE_WALL, goal: false, estimate: 0 }
        } else {
            self.cells[c.x as usize][c.y as usize]
        }
    }

    /// Cost of `c`, with every cell outside the rectangle a wall.
    pub fn cost_at(&self, c: Coord) -> (cost: i32)
        requires
            self.wf(),
        ensures
            cost == self.cost(c),
    {
        self.lookup(c).cost
    }

    pub fn column_count(&self) -> (n: i32)
        ensures
            n == self.width(),
    {
        self.width
    }

    pub fn row_count(&self) -> (n: i32)
        ensures
            n == self.height(),
    {
        self.height
    }
}

} // verus!
