//! Maps: a table of costs by column, and the starts and goals that can be
//! played on it.

use vstd::prelude::*;
use crate::algo::NODE_WALL;
use crate::models::Coord;

verus! {

/// One way to play a map: where to start and where to arrive.
#[derive(Debug, PartialEq, Eq)]
pub struct Variant {
    pub start: Coord,
    pub ends: Vec<Coord>,
}

/// A map: `cost[x][y]` is the cost of the cell in column `x` and row `y`,
/// negative where the cell is a wall.
#[derive(Debug, PartialEq, Eq)]
pub struct GridMap {
    pub variants: Vec<Variant>,
    pub cost: Vec<Vec<i32>>,
}

/// Mathematical value of a [`Variant`].
pub struct VariantView {
    pub start: Coord,
    pub ends: Seq<Coord>,
}

/// Mathematical value of a [`GridMap`].
pub struct MapView {
    pub variants: Seq<VariantView>,
    pub cost: Seq<Seq<i32>>,
}

impl View for Variant {
    type V = VariantView;

    open spec fn view(&self) -> VariantView {
        VariantView { start: self.start, ends: self.ends@ }
    }
}

impl View for GridMap {
    type V = MapView;

    open spec fn view(&self) -> MapView {
        MapView {
            variants: Seq::new(self.variants@.len(), |i: int| self.variants@[i]@),
            cost: Seq::new(self.cost@.len(), |x: int| self.cost@[x]@),
        }
    }
}

impl GridMap {
    /// Number of columns.
    pub open spec fn columns(&self) -> int {
        self.cost@.len() as int
    }

    /// Number of rows: the length of the first column, zero without one.
    pub open spec fn rows(&self) -> int {
        if self.cost@.len() > 0 {
            self.cost@[0]@.len() as int
        } else {
            0
        }
    }

    /// There is at least one column, all columns are as long as the first,
    /// and both extents fit `i32`.
    pub open spec fn rectangular(&self) -> bool {
        &&& 0 < self.cost@.len() <= i32::MAX
        &&& self.cost@[0]@.len() <= i32::MAX
        &&& forall|x: int| 0 <= x < self.cost@.len() ==> (#[trigger] self.cost@[x])@.len() == self.cost@[0]@.len()
    }

    /// Cost of the cell `c`: its entry in the table, a wall outside it.
    pub open spec fn cost_of(&self, c: Coord) -> i32 {
        if c.in_bounds(self.columns(), self.rows()) {
            self.cost@[c.x as int]@[c.y as int]
        } else {
            NODE_WALL
        }
    }

    pub fn get_column_count(&self) -> (n: usize)
        ensures
            n == self.columns(),
    {
        self.cost.len()
    }

    pub fn get_row_count(&self) -> (n: usize)
        requires
            self.cost@.len() > 0,
        ensures
            n == self.rows(),
    {
        self.cost[0].len()
    }

    /// Whether the table is [`GridMap::rectangular`].
    pub fn is_rectangular(&self) -> (yes: bool)
        ensures
            yes == self.rectangular(),
    {
        if self.cost.len() == 0 || self.cost.len() > i32::MAX as usize {
            return false;
        }
        let rows = self.cost[0].len();
        if rows > i32::MAX as usize {
            return false;
        }
        let mut x: usize = 0;
        while x < self.cost.len()
            invariant
                x <= self.cost@.len(),
                self.cost@.len() > 0,
                rows == self.cost@[0]@.len(),
                forall|i: int| 0 <= i < x ==> (#[trigger] self.cost@[i])@.len() == rows,
            decreases self.cost@.len() - x,
        {
            if self.cost[x].len() != rows {
                return false;
            }
            x += 1;
        }
        true
    }

    /// The cost function of the map: the table inside, walls all around.
    pub fn cost_at(&self, c: Coord) -> (cost: i32)
        requires
            self.rectangular(),
        ensures
            cost == self.cost_of(c),
    {
        let columns = self.cost.len();
        let rows = self.cost[0].len();
        if c.is_out_of_bounds(columns as i32, rows as i32) {
            NODE_WALL
        } else {
            self.cost[c.x as usize][c.y as usize]
        }
    }
}

} // verus!
