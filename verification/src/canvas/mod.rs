//! The rules a node-graph canvas applies on top of the graph: what is
//! selected, what the user asked for, and what a gesture turns into.

mod events;
mod gestures;
mod order;
mod room;
mod selection;
mod stats;
mod style;

pub use events::{
    CanvasEvent, NodeMove, after_moves, bridged, clear_of_all, deletion_bump, kept_ids,
    lemma_moves_undone, moves_from, survives_deletion, surviving, undoing, unlisted,
};
pub use gestures::{
    Hovered, InsertTarget, can_connect, compatible, delete_request, drag_moves, insert_target,
    lemma_removal_map_lists_all, release_nodes, release_wire, removal_map,
};
pub use order::{raise, sync_draw_order};
pub use room::{in_cone, slide_side, sliding_sides};
pub use selection::{
    Selection, WireKey, key_of, key_wire, lemma_toggle_twice, lemma_wire_keys_distinct, toggled,
    wire_key, wire_of,
};
pub use stats::CanvasStats;
pub use style::PinShape;
