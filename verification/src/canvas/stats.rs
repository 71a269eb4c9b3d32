//! What one frame of the canvas cost.

use vstd::prelude::*;

verus! {

/// Enough to see what a frame cost. Meant to be shown in a debug overlay.
#[derive(Clone, Copy, Debug)]
pub struct CanvasStats {
    pub nodes: usize,
    /// Nodes whose content was not built because they were off-screen.
    pub culled: usize,
    pub wires: usize,
}

impl Default for CanvasStats {
    fn default() -> (stats: Self)
        ensures
            stats.nodes == 0,
            stats.culled == 0,
            stats.wires == 0,
    {
        CanvasStats { nodes: 0, culled: 0, wires: 0 }
    }
}

} // verus!
