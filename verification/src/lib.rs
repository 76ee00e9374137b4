//! Bounded multi-source breadth-first search over finite 2D grids.
//!
//! The engine in [`engine`] explores a rectangular grid from a set of seed
//! coordinates, layer by layer, under a configurable movement table and a
//! termination policy: either a fixed number of layers, or an unbounded run
//! gated by a non-increasing-elevation rule. [`puzzles`] instantiates the
//! engine for knight-move reachability and monotone flood fill; [`util`]
//! holds the small input-shaping helpers, and [`wheel`] the textual
//! name-wheel rotation rules.

pub mod engine;
pub mod grid;
pub mod puzzles;
pub mod util;
pub mod wheel;
