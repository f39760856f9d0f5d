//! What every engine has in common: the cost sentinels, the status snapshot
//! and the stepping interface.

use vstd::prelude::*;
use crate::models::Coord;
use crate::search::{status_of, step, Problem, SearchState};

verus! {

/// Cost of a cell that can be entered without penalty.
pub const NODE_FREE: i32 = 0;

/// Cost that the neighbour policy reads as a blocked cell.
pub const NODE_WALL: i32 = -1;

/// What an engine reports after each step.
#[derive(Debug, PartialEq, Eq)]
pub enum AlgoStatus {
    /// Still searching: the frontier cells and the expanded cells, each in
    /// the order in which they entered their set.
    InProgress((Vec<Coord>, Vec<Coord>)),
    /// The cells from the start to the goal that was reached, both included.
    Found(Vec<Coord>),
    /// The frontier ran dry before any goal was selected.
    NoPath,
}

/// Mathematical value of an [`AlgoStatus`].
#[verifier::ext_equal]
pub enum StatusView {
    InProgress(Seq<Coord>, Seq<Coord>),
    Found(Seq<Coord>),
    NoPath,
}

impl View for AlgoStatus {
    type V = StatusView;

    open spec fn view(&self) -> StatusView {
        match *self {
            AlgoStatus::InProgress(pair) => StatusView::InProgress(pair.0@, pair.1@),
            AlgoStatus::Found(path) => StatusView::Found(path@),
            AlgoStatus::NoPath => StatusView::NoPath,
        }
    }
}

impl AlgoStatus {
    /// Whether the search has ended, one way or the other.
    pub fn is_terminal(&self) -> (done: bool)
        ensures
            done == !(self@ is InProgress),
    {
        match self {
            AlgoStatus::InProgress(_) => false,
            _ => true,
        }
    }
}

/// What a driver needs of an engine: take one step, look at the status.
///
/// An engine is a problem that never changes and a state that each call of
/// `tick` replaces by its successor under [`step`]; a finished search is
/// its own successor.
pub trait Algorithm {
    /// The problem that the engine was built for.
    spec fn problem(&self) -> Problem;

    /// The state that the engine is in.
    spec fn state(&self) -> SearchState;

    /// What the engine needs to hold between calls.
    spec fn wf(&self) -> bool;

    /// Takes at most one expansion step.
    fn tick(&mut self)
        requires
            old(self).wf(),
        ensures
            final(self).wf(),
            final(self).problem() == old(self).problem(),
            final(self).state() == step(old(self).problem(), old(self).state()),
    ;

    /// The status after the steps taken so far.
    fn get_data(&self) -> (status: &AlgoStatus)
        requires
            self.wf(),
        ensures
            status@ == status_of(self.state()),
    ;
}

/// The engines a caller can choose from.
#[derive(Debug, Clone, Copy, PartialEq, Eq, Structural)]
pub enum Algo {
    AStar,
    Dijkstra,
}

impl Algo {
    pub open spec fn label(self) -> Seq<char> {
        match self {
            Algo::AStar => "A*"@,
            Algo::Dijkstra => "Dijkstra"@,
        }
    }

    pub fn name(&self) -> (s: String)
        ensures
            s@ == self.label(),
    {
        match self {
            Algo::AStar => "A*".to_owned(),
            Algo::Dijkstra => "Dijkstra".to_owned(),
        }
    }

    pub fn len() -> (n: usize)
        ensures
            n == 2,
    {
        2
    }

    pub open spec fn at(idx: int) -> Algo {
        if idx == 0 {
            Algo::AStar
        } else {
            Algo::Dijkstra
        }
    }

    /// The engine listed at position `idx`; positions run from 0 below
    /// [`Algo::len`].
    pub fn from_index(idx: usize) -> (a: Algo)
        requires
            idx < 2,
        ensures
            a == Algo::at(idx as int),
    {
        if idx == 0 {
            Algo::AStar
        } else {
            Algo::Dijkstra
        }
    }

    /// Whether the engine takes a heuristic at all.
    pub fn supported_heuristics(&self) -> (yes: bool)
        ensures
            yes == (*self == Algo::AStar),
    {
        match self {
            Algo::AStar => true,
            Algo::Dijkstra => false,
        }
    }
}

} // verus!
