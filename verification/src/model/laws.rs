//! What holds of the graph across calls: ids are never recycled, what a
//! mutation returns undoes it, connecting is idempotent, a `Single` input
//! ends up with one source, following wires forward is following them
//! backward the other way round, and a chain closes over a deleted node.

use super::graph::{
    ConnectionPolicy, Graph, Node, bypasses, connect_bump, connected_wires, displaced_by, feeds,
    next_after_restore, other_than, splice_in, splice_out, spliced_wires, touching,
};
use super::ids::{InputId, NodeId, OutputId, Wire};
use super::ids::{InPin, OutPin};
use super::query::{
    bridges_at, direct_sources, direct_targets, is_bridge, next_nodes, reach_within, reaches,
    sources_through, step, targets_through,
};
use super::seqs::{
    lemma_filter_keeps_all, lemma_filter_keeps_none, lemma_filter_members, lemma_filter_push,
    lemma_push_to_set,
};
use egui::Pos2;
use vstd::prelude::*;

verus! {

/// The wire list after connecting each of `wires`, in order, under
/// `Multiple` - what putting back the wires of a removed node does.
pub open spec fn reconnect_all(list: Seq<Wire>, wires: Seq<Wire>) -> Seq<Wire>
    decreases wires.len(),
{
    if wires.len() == 0 {
        list
    } else {
        connected_wires(
            reconnect_all(list, wires.drop_last()),
            wires.last(),
            ConnectionPolicy::Multiple,
        )
    }
}

/// Reconnecting wires leaves exactly the wires that were there and the ones
/// reconnected.
pub proof fn lemma_reconnect_all_holds(list: Seq<Wire>, wires: Seq<Wire>)
    ensures
        forall|wire: Wire| #[trigger]
            reconnect_all(list, wires).contains(wire) <==> list.contains(wire) || wires.contains(
                wire,
            ),
    decreases wires.len(),
{
    if wires.len() > 0 {
        let init = wires.drop_last();
        lemma_reconnect_all_holds(list, init);
        let before = reconnect_all(list, init);
        lemma_push_to_set(before, wires.last());
        lemma_push_to_set(init, wires.last());
        assert(wires =~= init.push(wires.last()));
        assert forall|wire: Wire| #[trigger]
            reconnect_all(list, wires).contains(wire) <==> list.contains(wire) || wires.contains(
                wire,
            ) by {
            assert(before.push(wires.last()).to_set().contains(wire) == before.push(
                wires.last(),
            ).contains(wire));
            assert(before.to_set().contains(wire) == before.contains(wire));
            assert(init.push(wires.last()).to_set().contains(wire) == wires.contains(wire));
            assert(init.to_set().contains(wire) == init.contains(wire));
        }
    }
}

/// An id, once held, is never minted again: a graph mints only ids at or
/// above its next one, that never falls, and every id a graph holds is below
/// it - save the largest id there is, which nothing can mint past.
pub proof fn lemma_held_id_never_minted_again<N>(held: &Graph<N>, later: &Graph<N>, id: NodeId)
    requires
        held.wf(),
        held.holds(id),
        id.0 != u64::MAX,
        held.minted() <= later.minted(),
    ensures
        id.0 < later.minted(),
{
}

/// Restoring an id keeps the ids minted afterwards above it.
pub proof fn lemma_restored_id_stays_below(next: u64, id: NodeId)
    requires
        id.0 != u64::MAX,
    ensures
        id.0 < next_after_restore(next, id),
        next <= next_after_restore(next, id),
{
}

/// What `remove_node` hands back, fed to `add_node_with_id` and to
/// `connect`, rebuilds the graph: the same nodes, and the same wires.
pub proof fn lemma_removed_node_put_back<N>(
    before: &Graph<N>,
    removed: &Graph<N>,
    id: NodeId,
    node: Node<N>,
    wires: Seq<Wire>,
)
    requires
        before.wf(),
        Graph::removal(before, removed, id, node, wires),
    ensures
        removed.node_map().insert(id.0, node) == before.node_map(),
        forall|wire: Wire| #[trigger]
            reconnect_all(removed.wire_list(), wires).contains(wire) <==> before.wire_list().contains(
                wire,
            ),
{
    assert(removed.node_map().insert(id.0, node) =~= before.node_map());
    lemma_reconnect_all_holds(removed.wire_list(), wires);
    lemma_filter_members(before.wire_list(), touching(id));
    lemma_filter_members(before.wire_list(), super::graph::clear_of(id));
}

/// Setting a node back to the position `set_pos` returned restores it.
pub proof fn lemma_set_pos_undone<N>(nodes: Map<u64, Node<N>>, key: u64, pos: Pos2)
    requires
        nodes.contains_key(key),
    ensures
        nodes.insert(key, (Node { pos, payload: nodes[key].payload })).insert(
            key,
            (Node { pos: nodes[key].pos, payload: nodes[key].payload }),
        ) == nodes,
{
    assert(nodes.insert(key, (Node { pos, payload: nodes[key].payload })).insert(
        key,
        (Node { pos: nodes[key].pos, payload: nodes[key].payload }),
    ) =~= nodes);
}

/// Connecting a wire that is already there changes nothing, and bumps
/// nothing - so connecting twice is connecting once.
pub proof fn lemma_connect_idempotent(list: Seq<Wire>, wire: Wire, first: ConnectionPolicy, second: ConnectionPolicy)
    ensures
        connected_wires(connected_wires(list, wire, first), wire, second) == connected_wires(
            list,
            wire,
            first,
        ),
        connect_bump(connected_wires(list, wire, first), wire) == 0,
{
    let once = connected_wires(list, wire, first);
    if !list.contains(wire) {
        match first {
            ConnectionPolicy::Single => assert(once[once.len() - 1] == wire),
            ConnectionPolicy::Multiple => assert(once[once.len() - 1] == wire),
        }
    }
}

/// A new wire into a `Single` input leaves it exactly one source: the new
/// wire.
pub proof fn lemma_single_input_one_source(list: Seq<Wire>, wire: Wire)
    requires
        !list.contains(wire),
    ensures
        connected_wires(list, wire, ConnectionPolicy::Single).filter(feeds(wire.to)) == seq![wire],
{
    let kept = list.filter(bypasses(wire.to));
    lemma_filter_push(kept, wire, feeds(wire.to));
    broadcast use vstd::seq_lib::group_filter_ensures;
    assert forall|i: int| 0 <= i < kept.len() implies !(feeds(wire.to))(#[trigger] kept[i]) by {
        assert((bypasses(wire.to))(kept[i]));
    }
    lemma_filter_keeps_none(kept, feeds(wire.to));
    assert(Seq::<Wire>::empty().push(wire) =~= seq![wire]);
}

/// A new wire into a `Multiple` input keeps every source it had, and adds
/// one.
pub proof fn lemma_multiple_input_keeps_sources(list: Seq<Wire>, wire: Wire)
    requires
        !list.contains(wire),
    ensures
        connected_wires(list, wire, ConnectionPolicy::Multiple).filter(feeds(wire.to)) == list.filter(
            feeds(wire.to),
        ).push(wire),
{
    lemma_filter_push(list, wire, feeds(wire.to));
}

/// Disconnecting a wire just connected undoes the connection: under
/// `Multiple` the list is as it was; under `Single`, putting back what was
/// displaced restores the same wires.
pub proof fn lemma_connect_undone(list: Seq<Wire>, wire: Wire, policy: ConnectionPolicy)
    requires
        list.no_duplicates(),
        !list.contains(wire),
    ensures
        policy == ConnectionPolicy::Multiple ==> connected_wires(list, wire, policy).filter(
            other_than(wire),
        ) == list,
        forall|w: Wire| #[trigger]
            reconnect_all(
                connected_wires(list, wire, policy).filter(other_than(wire)),
                displaced_by(list, wire, policy),
            ).contains(w) <==> list.contains(w),
{
    let kept = match policy {
        ConnectionPolicy::Single => list.filter(bypasses(wire.to)),
        ConnectionPolicy::Multiple => list,
    };
    lemma_filter_push(kept, wire, other_than(wire));
    lemma_filter_members(list, bypasses(wire.to));
    lemma_filter_members(list, feeds(wire.to));
    assert forall|i: int| 0 <= i < kept.len() implies (other_than(wire))(#[trigger] kept[i]) by {
        assert(kept.contains(kept[i]));
    }
    lemma_filter_keeps_all(kept, other_than(wire));
    lemma_reconnect_all_holds(kept, displaced_by(list, wire, policy));
}

/// Disconnecting leaves the wire gone, so disconnecting it again reports
/// that nothing was there.
pub proof fn lemma_disconnected_is_gone(list: Seq<Wire>, wire: Wire)
    ensures
        !list.filter(other_than(wire)).contains(wire),
{
    lemma_filter_members(list, other_than(wire));
}

/// Splicing a node into a wire between two other nodes leaves the wire gone
/// and the two new wires there.
pub proof fn lemma_splice_rewires(
    list: Seq<Wire>,
    wire: Wire,
    node: NodeId,
    input: InputId,
    policy: ConnectionPolicy,
    output: OutputId,
)
    requires
        wire.from.node != node,
        wire.to.node != node,
    ensures
        spliced_wires(list, wire, node, input, policy, output).contains(splice_in(wire, node, input)),
        spliced_wires(list, wire, node, input, policy, output).contains(
            splice_out(wire, node, output),
        ),
        !spliced_wires(list, wire, node, input, policy, output).contains(wire),
{
    let first = list.filter(other_than(wire));
    let w1 = splice_in(wire, node, input);
    let w2 = splice_out(wire, node, output);
    let second = connected_wires(first, w1, policy);
    let third = connected_wires(second, w2, ConnectionPolicy::Multiple);
    lemma_filter_members(list, other_than(wire));
    lemma_filter_members(first, bypasses(w1.to));
    lemma_push_to_set(first, w1);
    lemma_push_to_set(first.filter(bypasses(w1.to)), w1);
    lemma_push_to_set(second, w2);
    assert(second.contains(w1)) by {
        if !first.contains(w1) {
            assert(first.push(w1).to_set().contains(w1));
            assert(first.filter(bypasses(w1.to)).push(w1).to_set().contains(w1));
        }
    }
    assert(!second.contains(wire)) by {
        if !first.contains(w1) {
            assert(first.push(w1).to_set().contains(wire) == first.push(w1).contains(wire));
            assert(first.filter(bypasses(w1.to)).push(w1).to_set().contains(wire) == first.filter(
                bypasses(w1.to),
            ).push(w1).contains(wire));
        }
    }
    assert(third.contains(w1) && third.contains(w2) && !third.contains(wire)) by {
        if !second.contains(w2) {
            assert(second.push(w2).to_set().contains(w1) == second.push(w2).contains(w1));
            assert(second.push(w2).to_set().contains(w2) == second.push(w2).contains(w2));
            assert(second.push(w2).to_set().contains(wire) == second.push(w2).contains(wire));
        }
    }
}

/// A node reaches another following wires forward exactly when the other
/// reaches it following them backward.
pub proof fn lemma_downstream_is_upstream_reversed(wires: Seq<Wire>, a: NodeId, b: NodeId)
    ensures
        reaches(wires, true, a, b) <==> reaches(wires, false, b, a),
{
    if reaches(wires, true, a, b) {
        let k = choose|k: nat| #[trigger] reach_within(wires, true, a, k).contains(b);
        lemma_reach_reversed(wires, true, a, b, k);
    }
    if reaches(wires, false, b, a) {
        let k = choose|k: nat| #[trigger] reach_within(wires, false, b, k).contains(a);
        lemma_reach_reversed(wires, false, b, a, k);
    }
}

/// One step is the same step the other way round.
proof fn lemma_step_reversed(wires: Seq<Wire>, forward: bool, a: NodeId, b: NodeId)
    ensures
        next_nodes(wires, forward, a).contains(b) <==> next_nodes(wires, !forward, b).contains(a),
{
    if next_nodes(wires, forward, a).contains(b) {
        let i = choose|i: int| 0 <= i < wires.len() && #[trigger] step(wires[i], forward) == (a, b);
        assert(step(wires[i], !forward) == (b, a));
    }
    let backward = !forward;
    if next_nodes(wires, backward, b).contains(a) {
        let i = choose|i: int| 0 <= i < wires.len() && #[trigger] step(wires[i], backward) == (b, a);
        assert(step(wires[i], forward) == (a, b));
    }
}

/// A step out of `start` followed by a path of at most `k + 1` steps is a
/// path of at most `k + 2` steps.
proof fn lemma_reach_prepend(wires: Seq<Wire>, forward: bool, start: NodeId, first: NodeId, node: NodeId, k: nat)
    requires
        next_nodes(wires, forward, start).contains(first),
        reach_within(wires, forward, first, k).contains(node),
    ensures
        reach_within(wires, forward, start, k + 1).contains(node),
    decreases k,
{
    let outer = reach_within(wires, forward, start, k);
    if k == 0 {
        assert(outer.contains(first));
    } else {
        let inner = reach_within(wires, forward, first, (k - 1) as nat);
        if inner.contains(node) {
            lemma_reach_prepend(wires, forward, start, first, node, (k - 1) as nat);
        } else {
            let via = choose|via: NodeId|
                inner.contains(via) && #[trigger] next_nodes(wires, forward, via).contains(node);
            lemma_reach_prepend(wires, forward, start, first, via, (k - 1) as nat);
            assert(outer.contains(via));
        }
    }
}

/// A path of at most `k + 1` steps is one the other way round.
proof fn lemma_reach_reversed(wires: Seq<Wire>, forward: bool, a: NodeId, b: NodeId, k: nat)
    requires
        reach_within(wires, forward, a, k).contains(b),
    ensures
        reach_within(wires, !forward, b, k).contains(a),
    decreases k,
{
    if k == 0 {
        lemma_step_reversed(wires, forward, a, b);
    } else {
        let nearer = reach_within(wires, forward, a, (k - 1) as nat);
        if nearer.contains(b) {
            lemma_reach_reversed(wires, forward, a, b, (k - 1) as nat);
            assert(reach_within(wires, !forward, b, (k - 1) as nat).subset_of(
                reach_within(wires, !forward, b, k),
            ));
        } else {
            let via = choose|via: NodeId|
                nearer.contains(via) && #[trigger] next_nodes(wires, forward, via).contains(b);
            lemma_reach_reversed(wires, forward, a, via, (k - 1) as nat);
            lemma_step_reversed(wires, forward, via, b);
            lemma_reach_prepend(wires, !forward, b, via, a, (k - 1) as nat);
        }
    }
}

/// A chain closes over a deleted node: with `a -> b -> c` wired through
/// `b`'s pass-through pins, deleting `b` but neither `a` nor `c` bridges
/// `a -> c` - unless `a` and `c` are one node, or the wire is already there.
pub proof fn lemma_chain_closes(
    wires: Seq<Wire>,
    removed: Map<u64, Option<(InputId, OutputId)>>,
    from: OutPin,
    node: NodeId,
    input: InputId,
    output: OutputId,
    to: InPin,
)
    requires
        wires.contains(Wire { from, to: InPin { node, input } }),
        wires.contains(Wire { from: OutPin { node, output }, to }),
        removed.contains_key(node.0),
        removed[node.0] == Some((input, output)),
        !removed.contains_key(from.node.0),
        !removed.contains_key(to.node.0),
        from.node != to.node,
        !wires.contains(Wire { from, to }),
    ensures
        is_bridge(wires, removed, Wire { from, to }),
{
    let into = choose|i: int| 0 <= i < wires.len() && wires[i] == (Wire { from, to: InPin { node, input } });
    let out = choose|i: int| 0 <= i < wires.len() && wires[i] == (Wire { from: OutPin { node, output }, to });
    assert(direct_sources(wires, removed, InPin { node, input }).contains(from));
    assert(direct_targets(wires, removed, OutPin { node, output }).contains(to));
    assert(sources_through(wires, removed, InPin { node, input }).contains(from));
    assert(targets_through(wires, removed, OutPin { node, output }).contains(to));
    assert(NodeId(node.0) == node);
    assert(bridges_at(wires, removed, node.0, Wire { from, to }));
}

/// Connecting `wire` touches only its own input: afterwards the list holds
/// exactly the new wire and every wire it held before, save - when the wire
/// is new and its input takes a `Single` wire - the ones into that same
/// input. What is reported displaced is a wire that was there and ran into
/// that input.
pub proof fn lemma_connect_keeps_other_inputs(list: Seq<Wire>, wire: Wire, policy: ConnectionPolicy)
    ensures
        forall|w: Wire| #[trigger]
            connected_wires(list, wire, policy).contains(w) <==> w == wire || (list.contains(w) && (
            list.contains(wire) || policy == ConnectionPolicy::Multiple || w.to != wire.to)),
        forall|w: Wire|
            list.contains(w) && w.to != wire.to ==> #[trigger] connected_wires(
                list,
                wire,
                policy,
            ).contains(w),
        forall|w: Wire| #[trigger]
            displaced_by(list, wire, policy).contains(w) ==> list.contains(w) && w.to == wire.to && w
                != wire,
{
    lemma_filter_members(list, bypasses(wire.to));
    lemma_filter_members(list, feeds(wire.to));
    let kept = if policy == ConnectionPolicy::Single {
        list.filter(bypasses(wire.to))
    } else {
        list
    };
    lemma_push_to_set(kept, wire);
    assert forall|w: Wire| #[trigger]
        connected_wires(list, wire, policy).contains(w) <==> w == wire || (list.contains(w) && (
        list.contains(wire) || policy == ConnectionPolicy::Multiple || w.to != wire.to)) by {
        if !list.contains(wire) {
            assert(kept.push(wire).to_set().contains(w) == kept.push(wire).contains(w));
            assert(kept.to_set().contains(w) == kept.contains(w));
        }
    }
}

/// Splicing `node` into `wire` keeps every other wire of the graph that does
/// not run into the node's new input: only `wire` goes, and - under a
/// `Single` input policy - what ran into that input, which is exactly what
/// can be reported displaced. The two new wires are there afterwards.
pub proof fn lemma_splice_keeps_other_wires(
    list: Seq<Wire>,
    wire: Wire,
    node: NodeId,
    input: InputId,
    policy: ConnectionPolicy,
    output: OutputId,
)
    ensures
        forall|w: Wire|
            list.contains(w) && w != wire && w.to != (InPin { node, input }) ==> #[trigger] spliced_wires(
                list,
                wire,
                node,
                input,
                policy,
                output,
            ).contains(w),
        spliced_wires(list, wire, node, input, policy, output).contains(splice_in(wire, node, input)),
        spliced_wires(list, wire, node, input, policy, output).contains(
            splice_out(wire, node, output),
        ),
        forall|w: Wire| #[trigger]
            displaced_by(list.filter(other_than(wire)), splice_in(wire, node, input), policy).contains(w)
                ==> list.contains(w) && w != wire && w.to == (InPin { node, input }),
{
    let first = list.filter(other_than(wire));
    let w1 = splice_in(wire, node, input);
    let w2 = splice_out(wire, node, output);
    let second = connected_wires(first, w1, policy);
    lemma_filter_members(list, other_than(wire));
    lemma_connect_keeps_other_inputs(first, w1, policy);
    lemma_connect_keeps_other_inputs(second, w2, ConnectionPolicy::Multiple);
    assert forall|w: Wire|
        list.contains(w) && w != wire && w.to != (InPin { node, input }) implies #[trigger] spliced_wires(
            list,
            wire,
            node,
            input,
            policy,
            output,
        ).contains(w) by {
        assert(first.contains(w));
        assert(second.contains(w));
    }
}

} // verus!
