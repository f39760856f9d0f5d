//! Coordinates and search-tree nodes.

use vstd::prelude::*;

verus! {

/// A cell position. Two coordinates are the same cell exactly when both
/// components agree; nothing else identifies a cell.
#[derive(Debug, Clone, Copy, PartialEq, Eq, Structural, Hash, PartialOrd, Ord)]
pub struct Coord {
    pub x: i32,
    pub y: i32,
}

impl Coord {
    pub fn new(x: i32, y: i32) -> (c: Coord)
        ensures
            c == (Coord { x, y }),
    {
        Coord { x, y }
    }

    /// Whether the cell lies inside the rectangle `[0, max_x) x [0, max_y)`.
    pub open spec fn in_bounds(self, max_x: int, max_y: int) -> bool {
        0 <= self.x < max_x && 0 <= self.y < max_y
    }

    /// The cell reached by moving `dx` columns and `dy` rows.
    pub open spec fn shifted(self, dx: int, dy: int) -> Coord
        recommends
            i32::MIN <= self.x + dx <= i32::MAX,
            i32::MIN <= self.y + dy <= i32::MAX,
    {
        Coord { x: (self.x + dx) as i32, y: (self.y + dy) as i32 }
    }

    pub fn is_out_of_bounds(&self, max_x: i32, max_y: i32) -> (out: bool)
        ensures
            out == !self.in_bounds(max_x as int, max_y as int),
    {
        if self.x < 0 || self.x >= max_x {
            return true;
        }
        if self.y < 0 || self.y >= max_y {
            return true;
        }
        false
    }
}

impl core::ops::Add<Coord> for Coord {
    type Output = Coord;

    /// Component-wise sum.
    fn add(self, rhs: Coord) -> (c: Coord) {
        Coord { x: self.x + rhs.x, y: self.y + rhs.y }
    }
}

impl vstd::std_specs::ops::AddSpecImpl<Coord> for Coord {
    open spec fn obeys_add_spec() -> bool {
        true
    }

    /// Both sums have to fit `i32`.
    open spec fn add_req(self, rhs: Coord) -> bool {
        &&& i32::MIN <= self.x + rhs.x <= i32::MAX
        &&& i32::MIN <= self.y + rhs.y <= i32::MAX
    }

    open spec fn add_spec(self, rhs: Coord) -> Coord {
        Coord { x: (self.x + rhs.x) as i32, y: (self.y + rhs.y) as i32 }
    }
}

impl core::ops::Add<(i32, i32)> for Coord {
    type Output = Coord;

    /// The cell `rhs.0` columns and `rhs.1` rows further.
    fn add(self, rhs: (i32, i32)) -> (c: Coord) {
        Coord { x: self.x + rhs.0, y: self.y + rhs.1 }
    }
}

impl vstd::std_specs::ops::AddSpecImpl<(i32, i32)> for Coord {
    open spec fn obeys_add_spec() -> bool {
        true
    }

    /// Both sums have to fit `i32`.
    open spec fn add_req(self, rhs: (i32, i32)) -> bool {
        &&& i32::MIN <= self.x + rhs.0 <= i32::MAX
        &&& i32::MIN <= self.y + rhs.1 <= i32::MAX
    }

    open spec fn add_spec(self, rhs: (i32, i32)) -> Coord {
        Coord { x: (self.x + rhs.0) as i32, y: (self.y + rhs.1) as i32 }
    }
}

impl core::ops::Sub<Coord> for Coord {
    type Output = Coord;

    /// Component-wise difference.
    fn sub(self, rhs: Coord) -> (c: Coord) {
        Coord { x: self.x - rhs.x, y: self.y - rhs.y }
    }
}

impl vstd::std_specs::ops::SubSpecImpl<Coord> for Coord {
    open spec fn obeys_sub_spec() -> bool {
        true
    }

    /// Both differences have to fit `i32`.
    open spec fn sub_req(self, rhs: Coord) -> bool {
        &&& i32::MIN <= self.x - rhs.x <= i32::MAX
        &&& i32::MIN <= self.y - rhs.y <= i32::MAX
    }

    open spec fn sub_spec(self, rhs: Coord) -> Coord {
        Coord { x: (self.x - rhs.x) as i32, y: (self.y - rhs.y) as i32 }
    }
}

impl From<(i32, i32)> for Coord {
    fn from(pair: (i32, i32)) -> (c: Coord) {
        Coord { x: pair.0, y: pair.1 }
    }
}

impl vstd::std_specs::convert::FromSpecImpl<(i32, i32)> for Coord {
    open spec fn obeys_from_spec() -> bool {
        true
    }

    open spec fn from_spec(pair: (i32, i32)) -> Coord {
        Coord { x: pair.0, y: pair.1 }
    }
}

impl From<Coord> for (i32, i32) {
    fn from(c: Coord) -> (pair: (i32, i32)) {
        (c.x, c.y)
    }
}

impl vstd::std_specs::convert::FromSpecImpl<Coord> for (i32, i32) {
    open spec fn obeys_from_spec() -> bool {
        true
    }

    open spec fn from_spec(c: Coord) -> (i32, i32) {
        (c.x, c.y)
    }
}

impl Default for Coord {
    fn default() -> (c: Coord)
        ensures
            c == (Coord { x: 0, y: 0 }),
    {
        Coord { x: 0, y: 0 }
    }
}

/// Whether `list` holds the cell `c`.
pub fn contains_coord(list: &Vec<Coord>, c: Coord) -> (found: bool)
    ensures
        found == list@.contains(c),
{
    let mut i: usize = 0;
    while i < list.len()
        invariant
            i <= list@.len(),
            forall|j: int| 0 <= j < i ==> list@[j] != c,
        decreases list@.len() - i,
    {
        if list[i].x == c.x && list[i].y == c.y {
            return true;
        }
        i += 1;
    }
    false
}

/// One node of the search tree, stored in the engine's arena.
///
/// `parent` is the arena index of the node this one was expanded from; the
/// root is the only node without one.
#[derive(Debug, Clone, Copy, PartialEq, Eq, Structural)]
pub struct Node {
    pub xy: Coord,
    /// Steps from the start.
    pub g: i32,
    /// Estimated remaining cost.
    pub h: i32,
    /// Priority by which the frontier is ordered.
    pub f: i32,
    pub parent: Option<usize>,
}

/// Mathematical value of a [`Node`]: the same fields as unbounded integers.
pub struct NodeView {
    pub xy: Coord,
    pub g: int,
    pub h: int,
    pub f: int,
    pub parent: Option<int>,
}

impl View for Node {
    type V = NodeView;

    open spec fn view(&self) -> NodeView {
        NodeView {
            xy: self.xy,
            g: self.g as int,
            h: self.h as int,
            f: self.f as int,
            parent: match self.parent {
                Some(i) => Some(i as int),
                None => None,
            },
        }
    }
}

impl Node {
    pub fn new(xy: Coord, parent: Option<usize>) -> (n: Node)
        ensures
            n == (Node { xy, g: 0, h: 0, f: 0, parent }),
    {
        Node { xy, g: 0, h: 0, f: 0, parent }
    }

    /// Nodes stand for cells: two nodes match when they sit on the same cell.
    pub fn same_cell(&self, other: &Node) -> (same: bool)
        ensures
            same == (self.xy == other.xy),
    {
        self.xy.x == other.xy.x && self.xy.y == other.xy.y
    }
}

impl From<Coord> for Node {
    /// A parentless node at `coord`.
    fn from(coord: Coord) -> (n: Node) {
        Node::new(coord, None)
    }
}

impl vstd::std_specs::convert::FromSpecImpl<Coord> for Node {
    open spec fn obeys_from_spec() -> bool {
        true
    }

    open spec fn from_spec(coord: Coord) -> Node {
        Node { xy: coord, g: 0, h: 0, f: 0, parent: None }
    }
}

} // verus!
