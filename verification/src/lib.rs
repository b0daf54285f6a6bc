//! Decision engine for a turn-based territory game on a toroidal grid.
//!
//! Each participant occupies a cell, leaves a permanent trail, and must
//! choose one of four cardinal moves per tick.  This crate holds the
//! verified core: the grid/state model, the breadth-first territory
//! evaluator, the per-tick decision controller, and the command
//! dispatcher that keeps the state in sync with server events.
use vstd::prelude::*;

pub mod decide;
pub mod flood;
pub mod grid_store;
pub mod receive;
pub mod send;
pub mod state;
pub mod util;

verus! {

} // verus!
