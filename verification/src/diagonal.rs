//! Which of the eight adjacent cells can be stepped to, depending on how
//! strictly diagonal moves must keep clear of walls.

use vstd::prelude::*;
use crate::algo::NODE_WALL;
use crate::models::Coord;

verus! {

/// How many of the two cells that flank a diagonal move may be walls.
#[derive(Debug, Clone, Copy, PartialEq, Eq, Structural)]
pub enum Diagonal {
    /// No diagonal moves at all.
    Never,
    /// Diagonal moves only between two free flanking cells.
    NoWalls,
    /// Diagonal moves past at most one wall.
    OneWall,
    /// Diagonal moves even between two walls.
    Always,
}

/// The eight directions of a step.
#[derive(Debug, Clone, Copy, PartialEq, Eq, Structural)]
pub enum Direction {
    TopLeft,
    Top,
    TopRight,
    Right,
    BottomRight,
    Bottom,
    BottomLeft,
    Left,
}

/// `cost` is the function that every call of `f` computes.
pub open spec fn computes<C: Fn(Coord) -> i32>(f: C, cost: spec_fn(Coord) -> i32) -> bool {
    forall|c: Coord, r: i32| call_ensures(f, (c,), r) ==> r == cost(c)
}

/// `f` may be called on every coordinate.
pub open spec fn total<C: Fn(Coord) -> i32>(f: C) -> bool {
    forall|c: Coord| call_requires(f, (c,))
}

/// The cells around `xy` are all representable.
pub open spec fn has_surroundings(xy: Coord) -> bool {
    i32::MIN < xy.x < i32::MAX && i32::MIN < xy.y < i32::MAX
}

impl Direction {
    pub open spec fn dx(self) -> int {
        match self {
            Direction::TopLeft | Direction::Left | Direction::BottomLeft => -1,
            Direction::Top | Direction::Bottom => 0,
            Direction::TopRight | Direction::Right | Direction::BottomRight => 1,
        }
    }

    pub open spec fn dy(self) -> int {
        match self {
            Direction::TopLeft | Direction::Top | Direction::TopRight => -1,
            Direction::Left | Direction::Right => 0,
            Direction::BottomLeft | Direction::Bottom | Direction::BottomRight => 1,
        }
    }

    pub open spec fn is_diagonal(self) -> bool {
        self.dx() != 0 && self.dy() != 0
    }

    /// The cell one step from `xy` in this direction.
    pub open spec fn target(self, xy: Coord) -> Coord {
        xy.shifted(self.dx(), self.dy())
    }

    /// The two cells next to both `xy` and the target. For a diagonal step
    /// they are the two orthogonal cells that the step passes between; for
    /// an orthogonal step they are the targets of the two diagonals beside it.
    pub open spec fn flanks(self, xy: Coord) -> (Coord, Coord) {
        match self {
            Direction::Top => (xy.shifted(-1, -1), xy.shifted(1, -1)),
            Direction::Right => (xy.shifted(1, -1), xy.shifted(1, 1)),
            Direction::Left => (xy.shifted(-1, -1), xy.shifted(-1, 1)),
            Direction::Bottom => (xy.shifted(-1, 1), xy.shifted(1, 1)),
            Direction::TopRight => (xy.shifted(0, -1), xy.shifted(1, 0)),
            Direction::TopLeft => (xy.shifted(-1, 0), xy.shifted(0, -1)),
            Direction::BottomRight => (xy.shifted(0, 1), xy.shifted(1, 0)),
            Direction::BottomLeft => (xy.shifted(-1, 0), xy.shifted(0, 1)),
        }
    }

    pub fn convert_to_coord(&self, xy: Coord) -> (c: Coord)
        requires
            has_surroundings(xy),
        ensures
            c == self.target(xy),
    {
        match self {
            Direction::Top => Coord::new(xy.x, xy.y - 1),
            Direction::Right => Coord::new(xy.x + 1, xy.y),
            Direction::Left => Coord::new(xy.x - 1, xy.y),
            Direction::Bottom => Coord::new(xy.x, xy.y + 1),
            Direction::TopRight => Coord::new(xy.x + 1, xy.y - 1),
            Direction::TopLeft => Coord::new(xy.x - 1, xy.y - 1),
            Direction::BottomRight => Coord::new(xy.x + 1, xy.y + 1),
            Direction::BottomLeft => Coord::new(xy.x - 1, xy.y + 1),
        }
    }

    pub fn convert_direction_to_neighbours(&self, xy: Coord) -> (cells: Vec<Coord>)
        requires
            has_surroundings(xy),
        ensures
            cells@ == seq![self.flanks(xy).0, self.flanks(xy).1],
    {
        let (first, second) = match self {
            Direction::Top => (Coord::new(xy.x - 1, xy.y - 1), Coord::new(xy.x + 1, xy.y - 1)),
            Direction::Right => (Coord::new(xy.x + 1, xy.y - 1), Coord::new(xy.x + 1, xy.y + 1)),
            Direction::Left => (Coord::new(xy.x - 1, xy.y - 1), Coord::new(xy.x - 1, xy.y + 1)),
            Direction::Bottom => (Coord::new(xy.x - 1, xy.y + 1), Coord::new(xy.x + 1, xy.y + 1)),
            Direction::TopRight => (Coord::new(xy.x, xy.y - 1), Coord::new(xy.x + 1, xy.y)),
            Direction::TopLeft => (Coord::new(xy.x - 1, xy.y), Coord::new(xy.x, xy.y - 1)),
            Direction::BottomRight => (Coord::new(xy.x, xy.y + 1), Coord::new(xy.x + 1, xy.y)),
            Direction::BottomLeft => (Coord::new(xy.x - 1, xy.y), Coord::new(xy.x, xy.y + 1)),
        };
        let mut cells: Vec<Coord> = Vec::new();
        cells.push(first);
        cells.push(second);
        assert(cells@ =~= seq![self.flanks(xy).0, self.flanks(xy).1]);
        cells
    }
}

impl Diagonal {
    pub open spec fn label(self) -> Seq<char> {
        match self {
            Diagonal::Never => "Never"@,
            Diagonal::NoWalls => "No walls"@,
            Diagonal::OneWall => "Only one wall"@,
            Diagonal::Always => "Always"@,
        }
    }

    pub fn name(&self) -> (s: String)
        ensures
            s@ == self.label(),
    {
        match self {
            Diagonal::Never => "Never".to_owned(),
            Diagonal::NoWalls => "No walls".to_owned(),
            Diagonal::OneWall => "Only one wall".to_owned(),
            Diagonal::Always => "Always".to_owned(),
        }
    }

    pub fn len() -> (n: usize)
        ensures
            n == 4,
    {
        4
    }

    pub open spec fn at(idx: int) -> Diagonal {
        if idx == 0 {
            Diagonal::Never
        } else if idx == 1 {
            Diagonal::NoWalls
        } else if idx == 2 {
            Diagonal::OneWall
        } else {
            Diagonal::Always
        }
    }

    /// The policy listed at position `idx`; positions run from 0 below
    /// [`Diagonal::len`].
    pub fn from_index(idx: usize) -> (d: Diagonal)
        requires
            idx < 4,
        ensures
            d == Diagonal::at(idx as int),
    {
        if idx == 0 {
            Diagonal::Never
        } else if idx == 1 {
            Diagonal::NoWalls
        } else if idx == 2 {
            Diagonal::OneWall
        } else {
            Diagonal::Always
        }
    }

    /// The largest number of walled flanking cells that still lets a
    /// diagonal step through.
    pub open spec fn tolerance(self) -> int {
        match self {
            Diagonal::Never => 0,
            Diagonal::NoWalls => 0,
            Diagonal::OneWall => 1,
            Diagonal::Always => 2,
        }
    }

    pub fn max_walls(&self) -> (n: usize)
        ensures
            n == self.tolerance(),
    {
        match self {
            Diagonal::Never => 0,
            Diagonal::NoWalls => 0,
            Diagonal::OneWall => 1,
            Diagonal::Always => 2,
        }
    }

    /// Whether a diagonal step flanked by `walls` walls is let through.
    pub open spec fn passes(self, walls: int) -> bool {
        self != Diagonal::Never && walls <= self.tolerance()
    }

    pub fn allows(&self, walls: usize) -> (yes: bool)
        ensures
            yes == self.passes(walls as int),
    {
        !matches!(self, Diagonal::Never) && walls <= self.max_walls()
    }

    /// How many of the two cells flanking the step from `xy` in direction
    /// `dir` are walls.
    pub open spec fn walls_beside(cost: spec_fn(Coord) -> i32, xy: Coord, dir: Direction) -> int {
        (if cost(dir.flanks(xy).0) == NODE_WALL { 1int } else { 0 })
            + (if cost(dir.flanks(xy).1) == NODE_WALL { 1int } else { 0 })
    }

    /// Whether the step from `xy` in direction `dir` is among the
    /// candidates: the target is no wall and, for a diagonal step, the
    /// policy allows diagonals and tolerates the walls beside it.
    pub open spec fn admits(self, cost: spec_fn(Coord) -> i32, xy: Coord, dir: Direction) -> bool {
        &&& cost(dir.target(xy)) != NODE_WALL
        &&& dir.is_diagonal() ==> self.passes(Self::walls_beside(cost, xy, dir))
    }

    /// The target of the step in direction `dir` if it is a candidate,
    /// nothing otherwise.
    pub open spec fn candidate(self, cost: spec_fn(Coord) -> i32, xy: Coord, dir: Direction) -> Seq<
        Coord,
    > {
        if self.admits(cost, xy, dir) {
            seq![dir.target(xy)]
        } else {
            Seq::empty()
        }
    }

    /// The candidates around `xy`, orthogonal ones first: up, down, left,
    /// right, then up-right, down-right, up-left, down-left.
    pub open spec fn neighbours(self, cost: spec_fn(Coord) -> i32, xy: Coord) -> Seq<Coord> {
        self.candidate(cost, xy, Direction::Top) + self.candidate(cost, xy, Direction::Bottom)
            + self.candidate(cost, xy, Direction::Left) + self.candidate(
            cost,
            xy,
            Direction::Right,
        ) + self.candidate(cost, xy, Direction::TopRight) + self.candidate(
            cost,
            xy,
            Direction::BottomRight,
        ) + self.candidate(cost, xy, Direction::TopLeft) + self.candidate(
            cost,
            xy,
            Direction::BottomLeft,
        )
    }

    /// Whether the policy looks at the cell in direction `dir` at all: at
    /// the orthogonal cells always, at the diagonal ones unless diagonal
    /// steps are ruled out.
    pub open spec fn consults(self, dir: Direction) -> bool {
        !dir.is_diagonal() || self != Diagonal::Never
    }

    /// For every cell around `xy` that the policy looks at, `around` gives
    /// a cost that `cost_calc` returns for it.
    pub open spec fn sampled<C: Fn(Coord) -> i32>(
        self,
        cost_calc: C,
        around: spec_fn(Coord) -> i32,
        xy: Coord,
    ) -> bool {
        forall|dir: Direction|
            self.consults(dir) ==> call_ensures(
                cost_calc,
                (dir.target(xy),),
                #[trigger] around(dir.target(xy)),
            )
    }

    /// The candidates around `xy` under this policy, in the order of
    /// [`Diagonal::neighbours`]. `cost_calc` is asked once about each cell
    /// that the policy [`consults`](Diagonal::consults), and the candidates
    /// are those that follow from its answers.
    pub fn get_neighbours<C: Fn(Coord) -> i32>(&self, cost_calc: &C, xy: Coord) -> (results: Vec<
        Coord,
    >)
        requires
            total(*cost_calc),
            has_surroundings(xy),
        ensures
            exists|around: spec_fn(Coord) -> i32| #[trigger]
                self.sampled(*cost_calc, around, xy) && results@ == self.neighbours(around, xy),
            forall|cost: spec_fn(Coord) -> i32| #[trigger]
                computes(*cost_calc, cost) ==> results@ == self.neighbours(cost, xy),
    {
        let mut results: Vec<Coord> = Vec::new();
        let top = cost_calc(Direction::Top.convert_to_coord(xy));
        let bottom = cost_calc(Direction::Bottom.convert_to_coord(xy));
        let left = cost_calc(Direction::Left.convert_to_coord(xy));
        let right = cost_calc(Direction::Right.convert_to_coord(xy));
        self.add_cardinal(Direction::Top, top, xy, &mut results);
        self.add_cardinal(Direction::Bottom, bottom, xy, &mut results);
        self.add_cardinal(Direction::Left, left, xy, &mut results);
        self.add_cardinal(Direction::Right, right, xy, &mut results);
        let ghost straight = results@;
        let ghost mut corners = (0i32, 0i32, 0i32, 0i32);
        if !matches!(self, Diagonal::Never) {
            let top_right = cost_calc(Direction::TopRight.convert_to_coord(xy));
            let bottom_right = cost_calc(Direction::BottomRight.convert_to_coord(xy));
            let top_left = cost_calc(Direction::TopLeft.convert_to_coord(xy));
            let bottom_left = cost_calc(Direction::BottomLeft.convert_to_coord(xy));
            self.add_diagonal(Direction::TopRight, top_right, top, right, xy, &mut results);
            self.add_diagonal(Direction::BottomRight, bottom_right, bottom, right, xy, &mut results);
            self.add_diagonal(Direction::TopLeft, top_left, left, top, xy, &mut results);
            self.add_diagonal(Direction::BottomLeft, bottom_left, left, bottom, xy, &mut results);
            proof {
                corners = (top_right, bottom_right, top_left, bottom_left);
            }
        }
        proof {
            let around = |c: Coord|
                if c == Direction::Top.target(xy) {
                    top
                } else if c == Direction::Bottom.target(xy) {
                    bottom
                } else if c == Direction::Left.target(xy) {
                    left
                } else if c == Direction::Right.target(xy) {
                    right
                } else if c == Direction::TopRight.target(xy) {
                    corners.0
                } else if c == Direction::BottomRight.target(xy) {
                    corners.1
                } else if c == Direction::TopLeft.target(xy) {
                    corners.2
                } else {
                    corners.3
                };
            assert(self.sampled(*cost_calc, around, xy)) by {
                assert forall|dir: Direction| self.consults(dir) implies call_ensures(
                    *cost_calc,
                    (dir.target(xy),),
                    #[trigger] around(dir.target(xy)),
                ) by {
                    match dir {
                        Direction::Top => {},
                        Direction::Bottom => {},
                        Direction::Left => {},
                        Direction::Right => {},
                        Direction::TopRight => {},
                        Direction::BottomRight => {},
                        Direction::TopLeft => {},
                        Direction::BottomLeft => {},
                    }
                }
            }
            Self::lemma_built(*self, around, xy, straight, results@);
            assert forall|cost: spec_fn(Coord) -> i32| #[trigger]
                computes(*cost_calc, cost) implies results@ == self.neighbours(cost, xy) by {
                assert forall|dir: Direction| self.consults(dir) implies around(dir.target(xy))
                    == cost(dir.target(xy)) by {
                    assert(call_ensures(*cost_calc, (dir.target(xy),), around(dir.target(xy))));
                }
                self.lemma_neighbours_local(around, cost, xy);
            }
        }
        results
    }

    /// The candidates depend on the cost of the consulted cells only.
    pub proof fn lemma_neighbours_local(
        self,
        a: spec_fn(Coord) -> i32,
        b: spec_fn(Coord) -> i32,
        xy: Coord,
    )
        requires
            has_surroundings(xy),
            forall|dir: Direction| self.consults(dir) ==> a(dir.target(xy)) == b(dir.target(xy)),
        ensures
            self.neighbours(a, xy) == self.neighbours(b, xy),
    {
        assert forall|dir: Direction| self.candidate(a, xy, dir) == self.candidate(b, xy, dir) by {
            assert(self.consults(Direction::Top) && self.consults(Direction::Bottom)
                && self.consults(Direction::Left) && self.consults(Direction::Right));
            assert(a(Direction::Top.target(xy)) == b(Direction::Top.target(xy)));
            assert(a(Direction::Bottom.target(xy)) == b(Direction::Bottom.target(xy)));
            assert(a(Direction::Left.target(xy)) == b(Direction::Left.target(xy)));
            assert(a(Direction::Right.target(xy)) == b(Direction::Right.target(xy)));
            if self.consults(dir) {
                assert(a(dir.target(xy)) == b(dir.target(xy)));
                if dir.is_diagonal() {
                    assert(dir.flanks(xy).0 == Direction::Top.target(xy) || dir.flanks(xy).0
                        == Direction::Bottom.target(xy) || dir.flanks(xy).0
                        == Direction::Left.target(xy));
                    assert(dir.flanks(xy).1 == Direction::Top.target(xy) || dir.flanks(xy).1
                        == Direction::Bottom.target(xy) || dir.flanks(xy).1
                        == Direction::Right.target(xy));
                }
            }
        }
    }

    /// What the eight additions of [`Diagonal::get_neighbours`] build is
    /// the list of candidates.
    proof fn lemma_built(
        policy: Diagonal,
        around: spec_fn(Coord) -> i32,
        xy: Coord,
        straight: Seq<Coord>,
        all: Seq<Coord>,
    )
        requires
            straight == Seq::<Coord>::empty() + policy.candidate(around, xy, Direction::Top)
                + policy.candidate(around, xy, Direction::Bottom) + policy.candidate(
                around,
                xy,
                Direction::Left,
            ) + policy.candidate(around, xy, Direction::Right),
            all == (if policy == Diagonal::Never {
                straight
            } else {
                straight + policy.candidate(around, xy, Direction::TopRight) + policy.candidate(
                    around,
                    xy,
                    Direction::BottomRight,
                ) + policy.candidate(around, xy, Direction::TopLeft) + policy.candidate(
                    around,
                    xy,
                    Direction::BottomLeft,
                )
            }),
        ensures
            all == policy.neighbours(around, xy),
    {
        let c1 = policy.candidate(around, xy, Direction::Top);
        let c2 = policy.candidate(around, xy, Direction::Bottom);
        let c3 = policy.candidate(around, xy, Direction::Left);
        let c4 = policy.candidate(around, xy, Direction::Right);
        assert(straight =~= c1 + c2 + c3 + c4);
        assert(all =~= policy.neighbours(around, xy));
    }

    /// Adds the target of an orthogonal step if its cost is no wall.
    fn add_cardinal(&self, direction: Direction, cell_cost: i32, xy: Coord, results: &mut Vec<Coord>)
        requires
            has_surroundings(xy),
            !direction.is_diagonal(),
        ensures
            forall|around: spec_fn(Coord) -> i32|
                #[trigger] around(direction.target(xy)) == cell_cost ==> final(results)@ == old(
                    results,
                )@ + self.candidate(around, xy, direction),
    {
        let new_cell = direction.convert_to_coord(xy);
        if cell_cost != NODE_WALL {
            results.push(new_cell);
        }
        assert forall|around: spec_fn(Coord) -> i32| #[trigger]
            around(direction.target(xy)) == cell_cost implies results@ == old(results)@
            + self.candidate(around, xy, direction) by {
            assert(results@ =~= old(results)@ + self.candidate(around, xy, direction));
        }
    }

    /// Adds the target of a diagonal step if its cost is no wall and the
    /// policy lets the step pass between the two cells beside it, whose
    /// costs are `first` and `second`.
    fn add_diagonal(
        &self,
        direction: Direction,
        cell_cost: i32,
        first: i32,
        second: i32,
        xy: Coord,
        results: &mut Vec<Coord>,
    )
        requires
            has_surroundings(xy),
            direction.is_diagonal(),
            *self != Diagonal::Never,
        ensures
            forall|around: spec_fn(Coord) -> i32|
                #[trigger] around(direction.target(xy)) == cell_cost && around(
                    direction.flanks(xy).0,
                ) == first && around(direction.flanks(xy).1) == second ==> final(results)@ == old(
                    results,
                )@ + self.candidate(around, xy, direction),
    {
        let new_cell = direction.convert_to_coord(xy);
        if cell_cost != NODE_WALL {
            let mut wall_count: usize = 0;
            if first == NODE_WALL {
                wall_count += 1;
            }
            if second == NODE_WALL {
                wall_count += 1;
            }
            if self.allows(wall_count) {
                results.push(new_cell);
            }
        }
        assert forall|around: spec_fn(Coord) -> i32|
            #[trigger] around(direction.target(xy)) == cell_cost && around(direction.flanks(xy).0)
                == first && around(direction.flanks(xy).1) == second implies results@ == old(
            results,
        )@ + self.candidate(around, xy, direction) by {
            assert(results@ =~= old(results)@ + self.candidate(around, xy, direction));
        }
    }
}

/// A concatenation holds what either part holds.
proof fn lemma_concat_contains(a: Seq<Coord>, b: Seq<Coord>, x: Coord)
    ensures
        (a + b).contains(x) <==> a.contains(x) || b.contains(x),
{
    if a.contains(x) {
        let i = choose|i: int| 0 <= i < a.len() && a[i] == x;
        assert((a + b)[i] == x);
    }
    if b.contains(x) {
        let i = choose|i: int| 0 <= i < b.len() && b[i] == x;
        assert((a + b)[a.len() + i] == x);
    }
    if (a + b).contains(x) {
        let i = choose|i: int| 0 <= i < (a + b).len() && (a + b)[i] == x;
        if i < a.len() {
            assert(a[i] == x);
        } else {
            assert(b[i - a.len()] == x);
        }
    }
}

impl Diagonal {
    /// The policies from the strictest to the loosest.
    pub open spec fn rank(self) -> int {
        match self {
            Diagonal::Never => 0,
            Diagonal::NoWalls => 1,
            Diagonal::OneWall => 2,
            Diagonal::Always => 3,
        }
    }

    proof fn lemma_candidate_contains(
        self,
        cost: spec_fn(Coord) -> i32,
        xy: Coord,
        dir: Direction,
        b: Coord,
    )
        ensures
            self.candidate(cost, xy, dir).contains(b) <==> self.admits(cost, xy, dir) && dir.target(
                xy,
            ) == b,
    {
        if self.admits(cost, xy, dir) {
            assert(self.candidate(cost, xy, dir)[0] == dir.target(xy));
        }
    }

    /// A cell is among the candidates around `xy` exactly when it is the
    /// target of a step that the policy admits.
    pub proof fn lemma_neighbours_contains(self, cost: spec_fn(Coord) -> i32, xy: Coord, b: Coord)
        ensures
            self.neighbours(cost, xy).contains(b) <==> exists|dir: Direction| #[trigger]
                self.admits(cost, xy, dir) && dir.target(xy) == b,
    {
        let c1 = self.candidate(cost, xy, Direction::Top);
        let c2 = self.candidate(cost, xy, Direction::Bottom);
        let c3 = self.candidate(cost, xy, Direction::Left);
        let c4 = self.candidate(cost, xy, Direction::Right);
        let c5 = self.candidate(cost, xy, Direction::TopRight);
        let c6 = self.candidate(cost, xy, Direction::BottomRight);
        let c7 = self.candidate(cost, xy, Direction::TopLeft);
        let c8 = self.candidate(cost, xy, Direction::BottomLeft);
        lemma_concat_contains(c1, c2, b);
        lemma_concat_contains(c1 + c2, c3, b);
        lemma_concat_contains(c1 + c2 + c3, c4, b);
        lemma_concat_contains(c1 + c2 + c3 + c4, c5, b);
        lemma_concat_contains(c1 + c2 + c3 + c4 + c5, c6, b);
        lemma_concat_contains(c1 + c2 + c3 + c4 + c5 + c6, c7, b);
        lemma_concat_contains(c1 + c2 + c3 + c4 + c5 + c6 + c7, c8, b);
        self.lemma_candidate_contains(cost, xy, Direction::Top, b);
        self.lemma_candidate_contains(cost, xy, Direction::Bottom, b);
        self.lemma_candidate_contains(cost, xy, Direction::Left, b);
        self.lemma_candidate_contains(cost, xy, Direction::Right, b);
        self.lemma_candidate_contains(cost, xy, Direction::TopRight, b);
        self.lemma_candidate_contains(cost, xy, Direction::BottomRight, b);
        self.lemma_candidate_contains(cost, xy, Direction::TopLeft, b);
        self.lemma_candidate_contains(cost, xy, Direction::BottomLeft, b);
        if exists|dir: Direction| #[trigger] self.admits(cost, xy, dir) && dir.target(xy) == b {
            let dir = choose|dir: Direction| #[trigger]
                self.admits(cost, xy, dir) && dir.target(xy) == b;
            assert(self.candidate(cost, xy, dir).contains(b));
        }
    }

    /// A step that one policy admits is admitted by every looser policy.
    pub proof fn lemma_admits_looser(
        self,
        looser: Diagonal,
        cost: spec_fn(Coord) -> i32,
        xy: Coord,
        dir: Direction,
    )
        requires
            self.rank() <= looser.rank(),
            self.admits(cost, xy, dir),
        ensures
            looser.admits(cost, xy, dir),
    {
    }

    /// The candidates of one policy are candidates of every looser policy.
    pub proof fn lemma_neighbours_looser(
        self,
        looser: Diagonal,
        cost: spec_fn(Coord) -> i32,
        xy: Coord,
        b: Coord,
    )
        requires
            self.rank() <= looser.rank(),
            self.neighbours(cost, xy).contains(b),
        ensures
            looser.neighbours(cost, xy).contains(b),
    {
        self.lemma_neighbours_contains(cost, xy, b);
        looser.lemma_neighbours_contains(cost, xy, b);
        let dir = choose|dir: Direction| #[trigger]
            self.admits(cost, xy, dir) && dir.target(xy) == b;
        self.lemma_admits_looser(looser, cost, xy, dir);
    }
}

} // verus!
