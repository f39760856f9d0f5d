//! Step-driven shortest-path search on integer grids.
//!
//! The crate offers two engines, [`astar::Astar`] and [`dijkstra::Dijkstra`],
//! that expand one node per call so that a caller can draw every frontier.
//! Both refine the same mathematical transition function, [`search::step`],
//! and the theorems in [`laws`] are stated over that function.
//!
//! * [`models`], [`algo`], [`heuristic`] and [`diagonal`] hold the
//!   vocabulary: cells, nodes, statuses, estimates and the neighbour policy.
//! * [`search`] is the search as mathematics. [`shape`], [`progress`],
//!   [`uniform`], [`open_grid`] and [`guided`] prove what every state looks
//!   like; [`laws`] collects what follows for a caller.
//! * [`grid`], [`engine`], [`astar`], [`dijkstra`] and [`engines`] are the
//!   executable engines.
//! * [`maps`], [`map_format`], [`picker`] and [`executor`] read maps, walk
//!   a user through the choices that lead to a run, and pace the run.
//!
//! Ties between equal priorities go to the entry that has been on the
//! frontier longest. The cost of a cell enters its priority five-fold
//! unless the caller chooses another weight; a cell keeps the route by
//! which it was found first unless the caller asks for relaxation; and
//! several goals are estimated by the sum of their estimates unless the
//! caller asks for the nearest.

pub mod algo;
pub mod astar;
pub mod diagonal;
pub mod dijkstra;
pub mod engine;
pub mod engines;
pub mod executor;
pub mod grid;
pub mod guided;
pub mod heuristic;
pub mod laws;
pub mod map_format;
pub mod maps;
pub mod models;
pub mod open_grid;
pub mod picker;
pub mod progress;
pub mod search;
pub mod shape;
pub mod uniform;
