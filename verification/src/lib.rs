//! Verified core of a falling-sand style pixel simulation: shared pixel
//! handles with reference counts, screen-grid indexing, rigid pixel
//! structures and the per-frame decisions that do not involve physics.
use vstd::prelude::*;

pub mod sr;
pub mod grid;
pub mod map;
pub mod structure;
pub mod priority;
pub mod sim;

verus! {

/// Opens the game window. There is no window backend yet, so this does nothing.
pub fn open_window() {
}

} // verus!
