//! The graph the application owns: nodes with a position and an opaque
//! payload, and the wires between their pins.

mod graph;
mod ids;
mod laws;
mod pos;
mod query;
mod seqs;

pub(crate) use graph::pos_moved;
pub use graph::{
    ConnectionPolicy, Connected, Graph, IdInUse, Inserted, Node, RemovedNode, UnknownNode,
};
pub use graph::{
    bypasses, clear_of, connect_bump, connected_wires, displaced_by, feeds, leaves, moved,
    next_after_restore, other_than, splice_bump, splice_in, splice_out, spliced_wires, touching,
    well_formed,
};
pub use ids::{AnyPin, InPin, InputId, NodeId, OutPin, OutputId, Wire};
pub use laws::{
    lemma_chain_closes, lemma_connect_keeps_other_inputs, lemma_splice_keeps_other_wires,
    lemma_connect_idempotent, lemma_connect_undone, lemma_disconnected_is_gone,
    lemma_downstream_is_upstream_reversed, lemma_held_id_never_minted_again,
    lemma_multiple_input_keeps_sources, lemma_reconnect_all_holds, lemma_removed_node_put_back,
    lemma_restored_id_stays_below, lemma_set_pos_undone, lemma_single_input_one_source,
    lemma_splice_rewires, reconnect_all,
};
pub use pos::{pos_has_nan, same_pos};
pub use query::{
    bridge_list, bridges_at, consumers, consumers_within, direct_sources, direct_targets, fed_from,
    feeders, feeders_within, feeding, in_increasing_order, is_bridge, lemma_increasing_order_unique,
    next_nodes, pair_row, pair_up, pass_input, pass_output, pass_pins, reach_within, reaches,
    search_sources, search_targets, sources_through, step, targets_through,
};
pub use seqs::{lemma_filter_members, lemma_filter_step, lemma_push_to_set, lemma_take_one_more};
pub(crate) use seqs::{
    lemma_filter_filter, lemma_filter_keeps_all, lemma_filter_no_duplicates, lemma_filter_out_len,
};
