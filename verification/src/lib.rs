//! A Petri-net execution engine.
//!
//! A net is a bipartite graph of places (holding integer token counts) and
//! transitions, joined by weighted, typed connections. The engine repeatedly
//! evaluates which transitions are enabled, arbitrates contention between
//! transitions that compete for the same place's tokens, fires the survivors
//! against the pre-cycle marking, and records one trace row per cycle until a
//! cycle fires nothing.

use vstd::prelude::*;

pub mod connection;
pub mod laws;
pub mod net;
pub mod place;
pub mod simulation;
pub mod transition;

verus! {

/// A node of the graph that can stand at the end of a connection and label
/// itself in a rendering of the net.
pub trait Connectable {
    fn connection_title(&self) -> &str;
}

} // verus!
