//! A node graph the application owns - nodes with a position and an opaque
//! payload, and the wires between their pins - and the rules a node-graph
//! canvas applies to it: what is selected, what a gesture asks for, and what
//! a deletion bridges over. The canvas reports; the application decides.

mod canvas;
mod model;

pub use canvas::{
    CanvasEvent, CanvasStats, Hovered, InsertTarget, NodeMove, PinShape, Selection, WireKey,
    can_connect, compatible, delete_request, insert_target, key_of, raise, release_nodes,
    release_wire, sliding_sides, sync_draw_order, wire_of,
};
pub use canvas::{
    after_moves, bridged, clear_of_all, deletion_bump, drag_moves, in_cone, kept_ids, key_wire,
    moves_from, removal_map, slide_side, survives_deletion, surviving, toggled, undoing, unlisted,
    wire_key,
};
pub use canvas::{
    lemma_moves_undone, lemma_removal_map_lists_all, lemma_toggle_twice, lemma_wire_keys_distinct,
};
pub use model::{
    AnyPin, ConnectionPolicy, Connected, Graph, IdInUse, InPin, InputId, Inserted, Node, NodeId,
    OutPin, OutputId, RemovedNode, UnknownNode, Wire,
};
pub use model::{
    bridge_list, fed_from, feeding, in_increasing_order, pair_row, pair_up, search_sources,
    search_targets,
};
pub use model::{
    bridges_at, bypasses, clear_of, connect_bump, connected_wires, consumers, consumers_within,
    direct_sources, direct_targets, displaced_by, feeders, feeders_within, feeds, is_bridge, leaves,
    moved, next_after_restore, next_nodes, other_than, pass_input, pass_output, pass_pins,
    pos_has_nan, reach_within, reaches, reconnect_all, same_pos, sources_through, splice_bump,
    splice_in, splice_out, spliced_wires, step, targets_through, touching, well_formed,
};
pub use model::{
    lemma_chain_closes, lemma_connect_idempotent, lemma_connect_keeps_other_inputs,
    lemma_splice_keeps_other_wires, lemma_connect_undone, lemma_disconnected_is_gone,
    lemma_downstream_is_upstream_reversed, lemma_held_id_never_minted_again,
    lemma_increasing_order_unique, lemma_multiple_input_keeps_sources, lemma_reconnect_all_holds,
    lemma_removed_node_put_back, lemma_restored_id_stays_below, lemma_set_pos_undone,
    lemma_single_input_one_source, lemma_splice_rewires,
};
