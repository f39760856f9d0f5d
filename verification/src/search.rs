//! The search as mathematics: a problem, a state, and the function that
//! takes one state to the next. The engines compute this function; the
//! theorems of the crate are stated over it.

use vstd::prelude::*;
use crate::algo::StatusView;
use crate::diagonal::Diagonal;
use crate::models::{Coord, NodeView};

verus! {

/// Everything that is fixed when an engine is built.
#[verifier::ext_equal]
pub struct Problem {
    pub width: int,
    pub height: int,
    pub start: Coord,
    pub diagonal: Diagonal,
    /// Factor by which the cost of a cell enters its priority.
    pub terrain_weight: int,
    /// Whether a cheaper route to a frontier cell replaces the known one.
    pub relax: bool,
    /// Cost of entering a cell; negative where the cell is blocked.
    pub cost: spec_fn(Coord) -> i32,
    /// Which cells end the search.
    pub goal: spec_fn(Coord) -> bool,
    /// Estimated remaining cost from a cell.
    pub estimate: spec_fn(Coord) -> int,
}

/// How far the search has come.
#[verifier::ext_equal]
pub enum Outcome {
    Running,
    Found(Seq<Coord>),
    NoPath,
}

/// The arena of nodes with the frontier (`open`) and the expanded nodes
/// (`closed`), both as arena indices, oldest entry first.
#[verifier::ext_equal]
pub struct SearchState {
    pub nodes: Seq<NodeView>,
    pub open: Seq<int>,
    pub closed: Seq<int>,
    pub outcome: Outcome,
}

impl Problem {
    /// A cell that a step may end on: inside the grid and not blocked.
    pub open spec fn enterable(self, c: Coord) -> bool {
        c.in_bounds(self.width, self.height) && (self.cost)(c) >= 0
    }

    /// One move of the search: `b` is a candidate around `a` under the
    /// diagonal policy, and `b` may be entered.
    pub open spec fn legal_step(self, a: Coord, b: Coord) -> bool {
        self.diagonal.neighbours(self.cost, a).contains(b) && self.enterable(b)
    }

    /// `path` leads from the start along legal steps.
    pub open spec fn is_walk(self, path: Seq<Coord>) -> bool {
        &&& path.len() >= 1
        &&& path[0] == self.start
        &&& forall|k: int| 0 <= k < path.len() - 1 ==> self.legal_step(#[trigger] path[k], path[k + 1])
    }

    /// Some sequence of legal steps connects the start to `c`.
    pub open spec fn reachable(self, c: Coord) -> bool {
        exists|path: Seq<Coord>| #[trigger] self.is_walk(path) && path.last() == c
    }

    /// Some goal can be reached from the start.
    pub open spec fn solvable(self) -> bool {
        exists|c: Coord| #[trigger] self.reachable(c) && (self.goal)(c)
    }

    /// `path` is an answer: a walk from the start that ends on a goal.
    pub open spec fn is_solution(self, path: Seq<Coord>) -> bool {
        self.is_walk(path) && (self.goal)(path.last())
    }
}

/// `k` is the position in `open` of the entry to expand next: no entry has
/// a smaller priority, and every earlier entry has a larger one. Among
/// entries of equal priority the one that entered the frontier first wins.
pub open spec fn is_selected(nodes: Seq<NodeView>, open: Seq<int>, k: int) -> bool {
    &&& 0 <= k < open.len()
    &&& forall|j: int| 0 <= j < open.len() ==> nodes[open[k]].f <= nodes[#[trigger] open[j]].f
    &&& forall|j: int| 0 <= j < k ==> nodes[open[k]].f < nodes[#[trigger] open[j]].f
}

/// The position picked by [`is_selected`].
pub open spec fn selected(nodes: Seq<NodeView>, open: Seq<int>) -> int {
    choose|k: int| is_selected(nodes, open, k)
}

/// Entry `k` of `list` is a node on cell `c`.
pub open spec fn sits_at(nodes: Seq<NodeView>, list: Seq<int>, c: Coord, k: int) -> bool {
    0 <= k < list.len() && nodes[list[k]].xy == c
}

/// Some entry of `list` is a node on cell `c`.
pub open spec fn listed(nodes: Seq<NodeView>, list: Seq<int>, c: Coord) -> bool {
    exists|k: int| sits_at(nodes, list, c, k)
}

/// `k` is the first entry of `list` that is a node on cell `c`.
pub open spec fn is_first_at(nodes: Seq<NodeView>, list: Seq<int>, c: Coord, k: int) -> bool {
    &&& sits_at(nodes, list, c, k)
    &&& forall|j: int| 0 <= j < k ==> nodes[#[trigger] list[j]].xy != c
}

/// The position picked by [`is_first_at`].
pub open spec fn first_at(nodes: Seq<NodeView>, list: Seq<int>, c: Coord) -> int {
    choose|k: int| is_first_at(nodes, list, c, k)
}

/// The cells of the nodes that `list` names, in order.
pub open spec fn cells_of(nodes: Seq<NodeView>, list: Seq<int>) -> Seq<Coord> {
    Seq::new(list.len(), |k: int| nodes[list[k]].xy)
}

/// The cells from the root down to node `i`, following parent links.
pub open spec fn path_to(nodes: Seq<NodeView>, i: int) -> Seq<Coord>
    decreases
            (if 0 <= i < nodes.len() {
                nodes[i].g
            } else {
                0
            }),
{
    if 0 <= i < nodes.len() {
        match nodes[i].parent {
            Some(q) => if 0 <= q < nodes.len() && 0 <= nodes[q].g < nodes[i].g {
                path_to(nodes, q).push(nodes[i].xy)
            } else {
                seq![nodes[i].xy]
            },
            None => seq![nodes[i].xy],
        }
    } else {
        Seq::empty()
    }
}

/// The node that is made for cell `c` when it is found from node `cur`.
pub open spec fn child(p: Problem, nodes: Seq<NodeView>, cur: int, c: Coord) -> NodeView {
    let g = nodes[cur].g + 1;
    let h = (p.estimate)(c);
    NodeView { xy: c, g, h, f: g + h + p.terrain_weight * (p.cost)(c), parent: Some(cur) }
}

/// What one candidate `c`, found from node `cur`, does to the state.
///
/// A cell that cannot be entered is dropped. A cell that already has a
/// node keeps it; only where the problem asks for relaxation, and the node
/// is still on the frontier, and the new route is strictly shorter, the
/// node takes the new route. Any other cell gets a node at the end of the
/// arena and of the frontier.
pub open spec fn offer(p: Problem, s: SearchState, cur: int, c: Coord) -> SearchState {
    if !p.enterable(c) {
        s
    } else if listed(s.nodes, s.open, c) {
        let j = s.open[first_at(s.nodes, s.open, c)];
        if p.relax && s.nodes[cur].g + 1 < s.nodes[j].g {
            SearchState { nodes: s.nodes.update(j, child(p, s.nodes, cur, c)), ..s }
        } else {
            s
        }
    } else if listed(s.nodes, s.closed, c) {
        s
    } else {
        SearchState {
            nodes: s.nodes.push(child(p, s.nodes, cur, c)),
            open: s.open.push(s.nodes.len() as int),
            ..s
        }
    }
}

/// [`offer`] for each of `cands` in turn.
pub open spec fn offer_all(p: Problem, s: SearchState, cur: int, cands: Seq<Coord>) -> SearchState
    decreases cands.len(),
{
    if cands.len() == 0 {
        s
    } else {
        offer(p, offer_all(p, s, cur, cands.drop_last()), cur, cands.last())
    }
}

/// The state before the first step: the start alone on the frontier.
pub open spec fn initial(p: Problem) -> SearchState {
    let h = (p.estimate)(p.start);
    SearchState {
        nodes: seq![NodeView { xy: p.start, g: 0, h, f: h, parent: None }],
        open: seq![0int],
        closed: Seq::empty(),
        outcome: Outcome::Running,
    }
}

/// One step of the search.
///
/// A finished search stays as it is. An empty frontier ends the search
/// without a path. Otherwise the selected entry leaves the frontier: if
/// its cell is a goal the search ends with the path to it; if not, the
/// node is expanded and its candidates are offered in the order of
/// [`Diagonal::neighbours`].
pub open spec fn step(p: Problem, s: SearchState) -> SearchState {
    if !(s.outcome is Running) {
        s
    } else if s.open.len() == 0 {
        SearchState { outcome: Outcome::NoPath, ..s }
    } else {
        let k = selected(s.nodes, s.open);
        let cur = s.open[k];
        let rest = s.open.remove(k);
        if (p.goal)(s.nodes[cur].xy) {
            SearchState { open: rest, outcome: Outcome::Found(path_to(s.nodes, cur)), ..s }
        } else {
            offer_all(
                p,
                SearchState { open: rest, closed: s.closed.push(cur), ..s },
                cur,
                p.diagonal.neighbours(p.cost, s.nodes[cur].xy),
            )
        }
    }
}

/// The state after `n` steps.
pub open spec fn run(p: Problem, n: nat) -> SearchState
    decreases n,
{
    if n == 0 {
        initial(p)
    } else {
        step(p, run(p, (n - 1) as nat))
    }
}

/// The snapshot that a state shows to the outside.
pub open spec fn status_of(s: SearchState) -> StatusView {
    match s.outcome {
        Outcome::Running => StatusView::InProgress(
            cells_of(s.nodes, s.open),
            cells_of(s.nodes, s.closed),
        ),
        Outcome::Found(path) => StatusView::Found(path),
        Outcome::NoPath => StatusView::NoPath,
    }
}

/// At most one position is selected.
pub proof fn lemma_selected_unique(nodes: Seq<NodeView>, open: Seq<int>, k: int)
    requires
        is_selected(nodes, open, k),
    ensures
        selected(nodes, open) == k,
{
    let m = selected(nodes, open);
    assert(is_selected(nodes, open, m));
    if m < k {
        assert(nodes[open[k]].f < nodes[open[m]].f);
        assert(nodes[open[m]].f <= nodes[open[k]].f);
    }
    if k < m {
        assert(nodes[open[m]].f < nodes[open[k]].f);
        assert(nodes[open[k]].f <= nodes[open[m]].f);
    }
}

/// At most one position is the first on a cell.
pub proof fn lemma_first_at_unique(nodes: Seq<NodeView>, list: Seq<int>, c: Coord, k: int)
    requires
        is_first_at(nodes, list, c, k),
    ensures
        first_at(nodes, list, c) == k,
        listed(nodes, list, c),
{
    assert(sits_at(nodes, list, c, k));
    let m = first_at(nodes, list, c);
    assert(is_first_at(nodes, list, c, m));
    if m < k {
        assert(nodes[list[m]].xy != c);
    }
    if k < m {
        assert(nodes[list[k]].xy != c);
    }
}

} // verus!
