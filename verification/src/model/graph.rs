//! The node graph: nodes keyed by a monotonic id, and the wires between
//! their pins in connection order.

use super::ids::{InPin, InputId, NodeId, OutPin, OutputId, Wire};
use super::laws::{lemma_connect_keeps_other_inputs, lemma_splice_keeps_other_wires};
use super::pos::{pos_has_nan, position_has_nan, positions_equal, same_pos};
use super::seqs::{
    lemma_filter_keeps_all, lemma_filter_keeps_none, lemma_filter_members, lemma_filter_no_duplicates, lemma_filter_push,
    lemma_filter_step, lemma_remove_is_filter, lemma_take_full,
};
use egui::Pos2;
use std::collections::BTreeMap;
use vstd::prelude::*;
use vstd::std_specs::cmp::OrdSpec;
use vstd::std_specs::iter::IteratorSpec;

verus! {

broadcast use vstd::std_specs::btree::group_btree_axioms;

/// The node graph. `N` is whatever the application stores per node; the graph
/// never looks inside it.
///
/// Every mutation returns what its inverse needs, and none of them panics on a
/// stale id, so an undo/redo layer can be built on top without the graph
/// knowing about it.
pub struct Graph<N> {
    /// Keyed by the id's value, so iteration is creation order and stable
    /// across runs.
    nodes: BTreeMap<u64, Node<N>>,
    next_id: u64,
    /// Connection order.
    wires: Vec<Wire>,
    topology_revision: u64,
    layout_revision: u64,
}

/// What the graph stores for one node.
pub struct Node<N> {
    /// Graph space, the node's top-left corner.
    pub pos: Pos2,
    pub payload: N,
}

/// How many wires one input accepts. Declared per input by the application;
/// the graph enforces it on `connect`.
#[derive(Clone, Copy, Debug, PartialEq, Eq, Structural)]
pub enum ConnectionPolicy {
    /// A new wire displaces whatever was plugged in before.
    Single,
    Multiple,
}

#[derive(Debug, PartialEq, Eq)]
pub enum Connected {
    New {
        /// The wires a `Single` input dropped to make room.
        displaced: Vec<Wire>,
    },
    /// The wire was already there. Nothing changed.
    AlreadyExisted,
}

#[derive(Debug, PartialEq, Eq)]
pub enum Inserted {
    Done {
        /// The wires the new node's input dropped under its policy.
        displaced: Vec<Wire>,
    },
    /// The wire to splice into was no longer there. Nothing changed.
    WireGone,
}

/// A wire's end names a node the graph does not hold - a stale id, typically.
#[derive(Debug, PartialEq, Eq)]
pub struct UnknownNode(pub NodeId);

/// Everything needed to put a removed node back exactly as it was, with
/// `add_node_with_id` and `connect`.
pub struct RemovedNode<N> {
    pub node: Node<N>,
    /// Every wire that touched the node, incoming and outgoing.
    pub wires: Vec<Wire>,
}

/// The node already exists. Nothing changed.
#[derive(Debug, PartialEq, Eq)]
pub struct IdInUse(pub NodeId);

/// The wires that run into `to`.
pub open spec fn feeds(to: InPin) -> spec_fn(Wire) -> bool {
    |w: Wire| w.to == to
}

/// The wires that leave `from`.
pub open spec fn leaves(from: OutPin) -> spec_fn(Wire) -> bool {
    |w: Wire| w.from == from
}

/// The wires that do not run into `to`.
pub open spec fn bypasses(to: InPin) -> spec_fn(Wire) -> bool {
    |w: Wire| w.to != to
}

/// The wires with an end on node `id`.
pub open spec fn touching(id: NodeId) -> spec_fn(Wire) -> bool {
    |w: Wire| w.from.node == id || w.to.node == id
}

/// The wires with no end on node `id`.
pub open spec fn clear_of(id: NodeId) -> spec_fn(Wire) -> bool {
    |w: Wire| w.from.node != id && w.to.node != id
}

/// Every wire but `wire`.
pub open spec fn other_than(wire: Wire) -> spec_fn(Wire) -> bool {
    |w: Wire| w != wire
}

/// The wire list after connecting `wire` under `policy`: unchanged when the
/// wire is already there; otherwise, under `Single`, without what ran into
/// the same input, and with the wire appended.
pub open spec fn connected_wires(wires: Seq<Wire>, wire: Wire, policy: ConnectionPolicy) -> Seq<
    Wire,
> {
    if wires.contains(wire) {
        wires
    } else {
        match policy {
            ConnectionPolicy::Single => wires.filter(bypasses(wire.to)).push(wire),
            ConnectionPolicy::Multiple => wires.push(wire),
        }
    }
}

/// What connecting `wire` under `policy` displaces.
pub open spec fn displaced_by(wires: Seq<Wire>, wire: Wire, policy: ConnectionPolicy) -> Seq<Wire> {
    if wires.contains(wire) {
        Seq::empty()
    } else {
        match policy {
            ConnectionPolicy::Single => wires.filter(feeds(wire.to)),
            ConnectionPolicy::Multiple => Seq::empty(),
        }
    }
}

/// How much connecting `wire` bumps the topology revision.
pub open spec fn connect_bump(wires: Seq<Wire>, wire: Wire) -> int {
    if wires.contains(wire) {
        0
    } else {
        1
    }
}

/// The wire from `wire`'s source into `node`'s `input`.
pub open spec fn splice_in(wire: Wire, node: NodeId, input: InputId) -> Wire {
    Wire { from: wire.from, to: InPin { node, input } }
}

/// The wire from `node`'s `output` to `wire`'s target.
pub open spec fn splice_out(wire: Wire, node: NodeId, output: OutputId) -> Wire {
    Wire { from: OutPin { node, output }, to: wire.to }
}

/// The wire list after splicing `node` into `wire`: the wire goes, then its
/// source is connected into `input` under `policy`, then `output` into its
/// old target, displacing nothing.
pub open spec fn spliced_wires(
    wires: Seq<Wire>,
    wire: Wire,
    node: NodeId,
    input: InputId,
    policy: ConnectionPolicy,
    output: OutputId,
) -> Seq<Wire> {
    let first = wires.filter(other_than(wire));
    let second = connected_wires(first, splice_in(wire, node, input), policy);
    connected_wires(second, splice_out(wire, node, output), ConnectionPolicy::Multiple)
}

/// What splicing `node` into `wire` bumps the topology revision by: one for
/// the wire that goes, one for each new wire.
pub open spec fn splice_bump(
    wires: Seq<Wire>,
    wire: Wire,
    node: NodeId,
    input: InputId,
    policy: ConnectionPolicy,
    output: OutputId,
) -> int {
    let first = wires.filter(other_than(wire));
    let second = connected_wires(first, splice_in(wire, node, input), policy);
    1 + connect_bump(first, splice_in(wire, node, input)) + connect_bump(
        second,
        splice_out(wire, node, output),
    )
}

/// Whether setting a node's position from `from` to `to` counts as a move:
/// the two differ, or one of them holds a NaN.
pub open spec fn moved(from: Pos2, to: Pos2) -> bool {
    pos_has_nan(from) || pos_has_nan(to) || !same_pos(from, to)
}

/// Whether going from `from` to `to` is a move: a NaN on either side counts
/// as one, since it never compares equal.
pub(crate) fn pos_moved(from: &Pos2, to: &Pos2) -> (changed: bool)
    ensures
        changed == moved(*from, *to),
{
    if position_has_nan(from) || position_has_nan(to) {
        true
    } else {
        !positions_equal(from, to)
    }
}

/// The id the graph hands out after `next`, restoring `id`: above both.
pub open spec fn next_after_restore(next: u64, id: NodeId) -> u64 {
    let above = if id.0 == u64::MAX {
        u64::MAX
    } else {
        (id.0 + 1) as u64
    };
    if next >= above {
        next
    } else {
        above
    }
}

/// A graph's invariant, over the ids it holds, its wires and the next id it
/// mints: every held id is below the next one minted (or is the largest id
/// there is), every wire joins two held nodes, and no wire is there twice.
pub open spec fn well_formed(ids: Set<u64>, wires: Seq<Wire>, next: u64) -> bool {
    &&& ids.finite()
    &&& forall|k: u64| #[trigger] ids.contains(k) ==> k < next || k == u64::MAX
    &&& forall|i: int|
        0 <= i < wires.len() ==> ids.contains(#[trigger] wires[i].from.node.0) && ids.contains(
            wires[i].to.node.0,
        )
    &&& wires.no_duplicates()
}

impl<N> Graph<N> {
    /// The nodes, by the value of their id.
    pub closed spec fn node_map(&self) -> Map<u64, Node<N>> {
        self.nodes@
    }

    /// The wires, in connection order.
    pub closed spec fn wire_list(&self) -> Seq<Wire> {
        self.wires@
    }

    /// The value the next `add_node` mints.
    pub closed spec fn minted(&self) -> u64 {
        self.next_id
    }

    pub closed spec fn topology(&self) -> u64 {
        self.topology_revision
    }

    pub closed spec fn layout(&self) -> u64 {
        self.layout_revision
    }

    pub open spec fn holds(&self, id: NodeId) -> bool {
        self.node_map().contains_key(id.0)
    }

    /// What every graph built through this API satisfies: see
    /// [`well_formed`].
    pub open spec fn wf(&self) -> bool {
        well_formed(self.node_map().dom(), self.wire_list(), self.minted())
    }

    /// `after` holds exactly what `before` held.
    pub open spec fn unchanged(before: &Self, after: &Self) -> bool {
        &&& after.node_map() == before.node_map()
        &&& after.wire_list() == before.wire_list()
        &&& after.minted() == before.minted()
        &&& after.topology() == before.topology()
        &&& after.layout() == before.layout()
    }

    /// `after` is `before` less node `id`, which held `node`, and less every
    /// wire touching it, which are `taken`, in connection order.
    pub open spec fn removal(
        before: &Self,
        after: &Self,
        id: NodeId,
        node: Node<N>,
        taken: Seq<Wire>,
    ) -> bool {
        &&& before.holds(id)
        &&& node == before.node_map()[id.0]
        &&& after.node_map() == before.node_map().remove(id.0)
        &&& after.wire_list() == before.wire_list().filter(clear_of(id))
        &&& taken == before.wire_list().filter(touching(id))
    }

    pub fn new() -> (graph: Self)
        ensures
            graph.wf(),
            graph.node_map() == Map::<u64, Node<N>>::empty(),
            graph.wire_list() == Seq::<Wire>::empty(),
            graph.minted() == 0,
            graph.topology() == 0,
            graph.layout() == 0,
    {
        Graph {
            nodes: BTreeMap::new(),
            next_id: 0,
            wires: Vec::new(),
            topology_revision: 0,
            layout_revision: 0,
        }
    }

    pub fn add_node(&mut self, payload: N, pos: Pos2) -> (id: NodeId)
        requires
            old(self).wf(),
            old(self).minted() < u64::MAX,
            old(self).topology() < u64::MAX,
        ensures
            final(self).wf(),
            id.0 == old(self).minted(),
            !old(self).holds(id),
            final(self).node_map() == old(self).node_map().insert(id.0, (Node { pos, payload })),
            final(self).minted() == id.0 + 1,
            final(self).wire_list() == old(self).wire_list(),
            final(self).topology() == old(self).topology() + 1,
            final(self).layout() == old(self).layout(),
    {
        let id = NodeId(self.next_id);
        self.next_id = self.next_id + 1;
        self.nodes.insert(id.0, Node { pos, payload });
        self.topology_revision = self.topology_revision + 1;
        id
    }

    /// Restores a node under an id it held before - on undo, or on loading a
    /// document. Ids minted afterwards stay above it.
    pub fn add_node_with_id(&mut self, id: NodeId, payload: N, pos: Pos2) -> (result: Result<
        (),
        IdInUse,
    >)
        requires
            old(self).wf(),
            !old(self).holds(id) ==> old(self).topology() < u64::MAX,
        ensures
            final(self).wf(),
            match result {
                Err(in_use) => old(self).holds(id) && in_use.0 == id && Self::unchanged(old(self), final(self)),
                Ok(()) => {
                    &&& !old(self).holds(id)
                    &&& final(self).node_map() == old(self).node_map().insert(
                        id.0,
                        (Node { pos, payload }),
                    )
                    &&& final(self).minted() == next_after_restore(old(self).minted(), id)
                    &&& final(self).wire_list() == old(self).wire_list()
                    &&& final(self).topology() == old(self).topology() + 1
                    &&& final(self).layout() == old(self).layout()
                },
            },
    {
        if self.nodes.contains_key(&id.0) {
            return Err(IdInUse(id));
        }
        self.nodes.insert(id.0, Node { pos, payload });
        let above = id.0.saturating_add(1);
        if self.next_id < above {
            self.next_id = above;
        }
        self.topology_revision = self.topology_revision + 1;
        Ok(())
    }

    pub fn contains(&self, id: NodeId) -> (held: bool)
        ensures
            held == self.holds(id),
    {
        self.nodes.contains_key(&id.0)
    }

    pub fn node(&self, id: NodeId) -> (node: Option<&Node<N>>)
        ensures
            match node {
                Some(node) => self.holds(id) && *node == self.node_map()[id.0],
                None => !self.holds(id),
            },
    {
        self.nodes.get(&id.0)
    }

    /// In connection order.
    pub fn wires(&self) -> (wires: &[Wire])
        ensures
            wires@ == self.wire_list(),
    {
        self.wires.as_slice()
    }

    /// Bumped by every change to which nodes exist and how they are wired.
    /// Moving a node does not touch it, so a consumer that recompiles on
    /// topology changes is not woken by a drag.
    pub fn topology_revision(&self) -> (revision: u64)
        ensures
            revision == self.topology(),
    {
        self.topology_revision
    }

    /// Bumped by every node move.
    pub fn layout_revision(&self) -> (revision: u64)
        ensures
            revision == self.layout(),
    {
        self.layout_revision
    }
}

impl<N> Graph<N> {
    /// `None` when the node is not in the graph.
    pub fn remove_node(&mut self, id: NodeId) -> (removed: Option<RemovedNode<N>>)
        requires
            old(self).wf(),
            old(self).holds(id) ==> old(self).topology() < u64::MAX,
        ensures
            final(self).wf(),
            match removed {
                None => !old(self).holds(id) && Self::unchanged(old(self), final(self)),
                Some(removed) => {
                    &&& Self::removal(old(self), final(self), id, removed.node, removed.wires@)
                    &&& final(self).minted() == old(self).minted()
                    &&& final(self).topology() == old(self).topology() + 1
                    &&& final(self).layout() == old(self).layout()
                },
            },
    {
        let node = match self.nodes.remove(&id.0) {
            Some(node) => node,
            None => {
                proof {
                    assert(self.nodes@ =~= old(self).nodes@);
                }
                return None;
            },
        };
        let ghost before = self.wires@;
        let wires = split_wires(&mut self.wires, WireCut::Touching(id));
        self.topology_revision = self.topology_revision + 1;
        proof {
            lemma_filter_members(before, clear_of(id));
            lemma_filter_no_duplicates(before, clear_of(id));
            assert forall|i: int| 0 <= i < self.wires@.len() implies self.holds(
                #[trigger] self.wires@[i].from.node,
            ) && self.holds(self.wires@[i].to.node) by {
                assert(self.wires@.contains(self.wires@[i]));
                let k = choose|k: int| 0 <= k < before.len() && before[k] == self.wires@[i];
            }
        }
        Some(RemovedNode { node, wires })
    }

    /// Returns the previous position, or `None` when the node is not in the
    /// graph. Only a move that changes the position bumps the layout
    /// revision.
    pub fn set_pos(&mut self, id: NodeId, pos: Pos2) -> (previous: Option<Pos2>)
        requires
            old(self).wf(),
            old(self).holds(id) && moved(old(self).node_map()[id.0].pos, pos) ==> old(self).layout()
                < u64::MAX,
        ensures
            final(self).wf(),
            match previous {
                None => !old(self).holds(id) && Self::unchanged(old(self), final(self)),
                Some(previous) => {
                    &&& old(self).holds(id)
                    &&& previous == old(self).node_map()[id.0].pos
                    &&& final(self).node_map() == old(self).node_map().insert(
                        id.0,
                        (Node { pos, payload: old(self).node_map()[id.0].payload }),
                    )
                    &&& final(self).wire_list() == old(self).wire_list()
                    &&& final(self).minted() == old(self).minted()
                    &&& final(self).topology() == old(self).topology()
                    &&& final(self).layout() == old(self).layout() + if moved(previous, pos) {
                        1int
                    } else {
                        0int
                    }
                },
            },
    {
        let previous = match entry_mut(&mut self.nodes, id.0) {
            Some(node) => {
                let previous = node.pos;
                node.pos = pos;
                previous
            },
            None => {
                proof {
                    assert forall|i: int| 0 <= i < self.wire_list().len() implies self.holds(
                        #[trigger] self.wire_list()[i].from.node,
                    ) && self.holds(self.wire_list()[i].to.node) by {
                        assert(old(self).holds(old(self).wire_list()[i].from.node));
                    }
                }
                return None;
            },
        };
        if pos_moved(&previous, &pos) {
            self.layout_revision = self.layout_revision + 1;
        }
        Some(previous)
    }

    pub fn connect(&mut self, from: OutPin, to: InPin, policy: ConnectionPolicy) -> (result: Result<
        Connected,
        UnknownNode,
    >)
        requires
            old(self).wf(),
            old(self).holds(from.node) && old(self).holds(to.node) && !old(self).wire_list().contains((Wire { from, to })) ==> old(self).topology() < u64::MAX,
        ensures
            final(self).wf(),
            final(self).node_map() == old(self).node_map(),
            final(self).minted() == old(self).minted(),
            final(self).layout() == old(self).layout(),
            match result {
                Err(unknown) => {
                    &&& Self::unchanged(old(self), final(self))
                    &&& if !old(self).holds(from.node) {
                        unknown.0 == from.node
                    } else {
                        !old(self).holds(to.node) && unknown.0 == to.node
                    }
                },
                Ok(outcome) => {
                    let wire = Wire { from, to };
                    &&& old(self).holds(from.node)
                    &&& old(self).holds(to.node)
                    &&& final(self).wire_list() == connected_wires(old(self).wire_list(), wire, policy)
                    &&& final(self).wire_list().contains(wire)
                    &&& forall|w: Wire|
                        old(self).wire_list().contains(w) && w.to != to
                            ==> #[trigger] final(self).wire_list().contains(w)
                    &&& final(self).topology() == old(self).topology() + connect_bump(
                        old(self).wire_list(),
                        wire,
                    )
                    &&& match outcome {
                        Connected::AlreadyExisted => old(self).wire_list().contains(wire),
                        Connected::New { displaced } => {
                            &&& !old(self).wire_list().contains(wire)
                            &&& displaced@ == displaced_by(old(self).wire_list(), wire, policy)
                            &&& forall|w: Wire| #[trigger]
                                displaced@.contains(w) ==> old(self).wire_list().contains(w) && w.to
                                    == to
                        },
                    }
                },
            },
    {
        if !self.nodes.contains_key(&from.node.0) {
            return Err(UnknownNode(from.node));
        }
        if !self.nodes.contains_key(&to.node.0) {
            return Err(UnknownNode(to.node));
        }
        let wire = Wire { from, to };
        proof {
            lemma_connect_keeps_other_inputs(self.wires@, wire, policy);
        }
        if position_of(&self.wires, &wire).is_some() {
            return Ok(Connected::AlreadyExisted);
        }
        let ghost before = self.wires@;
        let displaced = match policy {
            ConnectionPolicy::Single => split_wires(&mut self.wires, WireCut::Into(to)),
            ConnectionPolicy::Multiple => Vec::new(),
        };
        let ghost kept = self.wires@;
        self.wires.push(wire);
        self.topology_revision = self.topology_revision + 1;
        proof {
            lemma_filter_members(before, bypasses(to));
            lemma_filter_no_duplicates(before, bypasses(to));
            assert(!kept.contains(wire));
            assert forall|i: int| 0 <= i < self.wires@.len() implies self.holds(
                #[trigger] self.wires@[i].from.node,
            ) && self.holds(self.wires@[i].to.node) by {
                if i < kept.len() {
                    assert(kept.contains(self.wires@[i]));
                    let k = choose|k: int| 0 <= k < before.len() && before[k] == self.wires@[i];
                }
            }
            assert forall|i: int, j: int|
                0 <= i < self.wires@.len() && 0 <= j < self.wires@.len() && i != j implies self.wires@[i]
                != self.wires@[j] by {
                if i == kept.len() {
                    assert(kept.contains(kept[j]));
                } else if j == kept.len() {
                    assert(kept.contains(kept[i]));
                } else {
                    assert(kept[i] == self.wires@[i]);
                    assert(kept[j] == self.wires@[j]);
                }
            }
            assert(self.wires@ == connected_wires(before, wire, policy));
            assert(displaced@ == displaced_by(before, wire, policy));
        }
        Ok(Connected::New { displaced })
    }

    /// Whether the wire was there to remove.
    pub fn disconnect(&mut self, wire: Wire) -> (removed: bool)
        requires
            old(self).wf(),
            old(self).wire_list().contains(wire) ==> old(self).topology() < u64::MAX,
        ensures
            final(self).wf(),
            removed == old(self).wire_list().contains(wire),
            !removed ==> Self::unchanged(old(self), final(self)),
            final(self).wire_list() == old(self).wire_list().filter(other_than(wire)),
            final(self).node_map() == old(self).node_map(),
            final(self).minted() == old(self).minted(),
            final(self).layout() == old(self).layout(),
            final(self).topology() == old(self).topology() + if removed {
                1int
            } else {
                0int
            },
    {
        let ghost before = self.wires@;
        match position_of(&self.wires, &wire) {
            None => {
                proof {
                    assert forall|i: int| 0 <= i < before.len() implies (other_than(wire))(
                        #[trigger] before[i],
                    ) by {
                        assert(before.contains(before[i]));
                    }
                    lemma_filter_keeps_all(before, other_than(wire));
                }
                false
            },
            Some(index) => {
                self.wires.remove(index);
                self.topology_revision = self.topology_revision + 1;
                proof {
                    lemma_remove_is_filter(before, index as int, other_than(wire));
                    lemma_filter_members(before, other_than(wire));
                    lemma_filter_no_duplicates(before, other_than(wire));
                    assert forall|i: int| 0 <= i < self.wires@.len() implies self.holds(
                        #[trigger] self.wires@[i].from.node,
                    ) && self.holds(self.wires@[i].to.node) by {
                        assert(self.wires@.contains(self.wires@[i]));
                        let k = choose|k: int| 0 <= k < before.len() && before[k] == self.wires@[i];
                        assert(old(self).holds(old(self).wire_list()[k].from.node));
                    }
                }
                true
            },
        }
    }
}

impl<N> Graph<N> {
    /// Splices `node` into `wire`: the wire's source now feeds `input`, and
    /// `output` now feeds the wire's old target.
    pub fn insert_into_wire(
        &mut self,
        wire: Wire,
        node: NodeId,
        input: InputId,
        input_policy: ConnectionPolicy,
        output: OutputId,
    ) -> (result: Result<Inserted, UnknownNode>)
        requires
            old(self).wf(),
            old(self).holds(node) && old(self).wire_list().contains(wire) ==> old(self).topology()
                + splice_bump(old(self).wire_list(), wire, node, input, input_policy, output)
                <= u64::MAX,
        ensures
            final(self).wf(),
            match result {
                Err(unknown) => {
                    &&& !old(self).holds(node)
                    &&& unknown.0 == node
                    &&& Self::unchanged(old(self), final(self))
                },
                Ok(Inserted::WireGone) => {
                    &&& old(self).holds(node)
                    &&& !old(self).wire_list().contains(wire)
                    &&& Self::unchanged(old(self), final(self))
                },
                Ok(Inserted::Done { displaced }) => {
                    let first = old(self).wire_list().filter(other_than(wire));
                    &&& old(self).holds(node)
                    &&& old(self).wire_list().contains(wire)
                    &&& final(self).wire_list() == spliced_wires(
                        old(self).wire_list(),
                        wire,
                        node,
                        input,
                        input_policy,
                        output,
                    )
                    &&& displaced@ == displaced_by(first, splice_in(wire, node, input), input_policy)
                    &&& forall|w: Wire| #[trigger]
                        displaced@.contains(w) ==> old(self).wire_list().contains(w) && w != wire
                            && w.to == (InPin { node, input })
                    &&& forall|w: Wire|
                        old(self).wire_list().contains(w) && w != wire && w.to != (InPin { node, input })
                            ==> #[trigger] final(self).wire_list().contains(w)
                    &&& final(self).wire_list().contains(splice_in(wire, node, input))
                    &&& final(self).wire_list().contains(splice_out(wire, node, output))
                    &&& final(self).node_map() == old(self).node_map()
                    &&& final(self).minted() == old(self).minted()
                    &&& final(self).layout() == old(self).layout()
                    &&& final(self).topology() == old(self).topology() + splice_bump(
                        old(self).wire_list(),
                        wire,
                        node,
                        input,
                        input_policy,
                        output,
                    )
                },
            },
    {
        proof {
            lemma_splice_keeps_other_wires(self.wires@, wire, node, input, input_policy, output);
        }
        if !self.nodes.contains_key(&node.0) {
            return Err(UnknownNode(node));
        }
        if !self.disconnect(wire) {
            return Ok(Inserted::WireGone);
        }
        proof {
            let k = choose|k: int| 0 <= k < old(self).wire_list().len() && old(self).wire_list()[k] == wire;
            assert(old(self).holds(old(self).wire_list()[k].from.node));
        }
        let displaced = match self.connect(wire.from, InPin { node, input }, input_policy) {
            Ok(Connected::New { displaced }) => displaced,
            Ok(Connected::AlreadyExisted) => Vec::new(),
            Err(unknown) => return Err(unknown),
        };
        // The old wire into the target is gone, so nothing is left to displace
        // there whatever its policy.
        match self.connect(OutPin { node, output }, wire.to, ConnectionPolicy::Multiple) {
            Ok(_) => {},
            Err(unknown) => return Err(unknown),
        }
        Ok(Inserted::Done { displaced })
    }

    /// The node under `id`, to change in place.
    pub fn node_mut(&mut self, id: NodeId) -> (node: Option<&mut Node<N>>)
        requires
            old(self).wf(),
        ensures
            final(self).wf(),
            final(self).wire_list() == old(self).wire_list(),
            final(self).minted() == old(self).minted(),
            final(self).topology() == old(self).topology(),
            final(self).layout() == old(self).layout(),
            match node {
                Some(node) => {
                    &&& old(self).holds(id)
                    &&& *node == old(self).node_map()[id.0]
                    &&& final(self).node_map() == old(self).node_map().insert(id.0, *final(node))
                },
                None => !old(self).holds(id) && final(self).node_map() == old(self).node_map(),
            },
    {
        entry_mut(&mut self.nodes, id.0)
    }

    /// The outputs wired into this input, in connection order.
    pub fn sources_of(&self, pin: InPin) -> (sources: Vec<OutPin>)
        ensures
            sources@ == self.wire_list().filter(feeds(pin)).map_values(|wire: Wire| wire.from),
    {
        let mut sources: Vec<OutPin> = Vec::new();
        let count = self.wires.len();
        for i in 0..count
            invariant
                count == self.wires@.len(),
                sources@ == self.wires@.take(i as int).filter(feeds(pin)).map_values(
                    |wire: Wire| wire.from,
                ),
        {
            proof {
                lemma_filter_step(self.wires@, i as int, feeds(pin));
            }
            if self.wires[i].to == pin {
                sources.push(self.wires[i].from);
            }
            proof {
                let prefix = self.wires@.take(i as int + 1).filter(feeds(pin));
                assert(sources@ =~= prefix.map_values(|wire: Wire| wire.from));
            }
        }
        proof {
            lemma_take_full(self.wires@);
        }
        sources
    }

    /// The inputs this output is wired into, in connection order.
    pub fn targets_of(&self, pin: OutPin) -> (targets: Vec<InPin>)
        ensures
            targets@ == self.wire_list().filter(leaves(pin)).map_values(|wire: Wire| wire.to),
    {
        let mut targets: Vec<InPin> = Vec::new();
        let count = self.wires.len();
        for i in 0..count
            invariant
                count == self.wires@.len(),
                targets@ == self.wires@.take(i as int).filter(leaves(pin)).map_values(
                    |wire: Wire| wire.to,
                ),
        {
            proof {
                lemma_filter_step(self.wires@, i as int, leaves(pin));
            }
            if self.wires[i].from == pin {
                targets.push(self.wires[i].to);
            }
            proof {
                let prefix = self.wires@.take(i as int + 1).filter(leaves(pin));
                assert(targets@ =~= prefix.map_values(|wire: Wire| wire.to));
            }
        }
        proof {
            lemma_take_full(self.wires@);
        }
        targets
    }
}

impl<N> Default for Graph<N> {
    fn default() -> (graph: Self)
        ensures
            graph.wf(),
            graph.node_map() == Map::<u64, Node<N>>::empty(),
            graph.wire_list() == Seq::<Wire>::empty(),
            graph.minted() == 0,
            graph.topology() == 0,
            graph.layout() == 0,
    {
        Self::new()
    }
}

impl<N> Graph<N> {
    /// Every node with its id, in creation order - which is id order.
    pub fn nodes(&self) -> (nodes: Vec<(NodeId, &Node<N>)>)
        ensures
            nodes@.len() == self.node_map().dom().len(),
            forall|i: int|
                0 <= i < nodes@.len() ==> self.node_map().contains_key(#[trigger] nodes@[i].0.0)
                    && *nodes@[i].1 == self.node_map()[nodes@[i].0.0],
            forall|i: int, j: int| 0 <= i < j < nodes@.len() ==> nodes@[i].0.0 < nodes@[j].0.0,
            forall|k: u64|
                #[trigger] self.node_map().contains_key(k) ==> exists|i: int|
                    0 <= i < nodes@.len() && nodes@[i].0.0 == k,
    {
        let mut nodes: Vec<(NodeId, &Node<N>)> = Vec::new();
        for entry in it: self.nodes.iter()
            invariant
                it.seq() == self.nodes.iter().remaining(),
                nodes@ == it.seq().take(it.index()).map_values(
                    |kv: (&u64, &Node<N>)| (NodeId(*kv.0), kv.1),
                ),
        {
            nodes.push((NodeId(*entry.0), entry.1));
        }
        proof {
            let seen = self.nodes.iter().remaining();
            assert(seen.take(seen.len() as int) =~= seen);
            let keys = seen.map_values(|kv: (&u64, &Node<N>)| *kv.0);
            lemma_increasing_keys(keys);
            assert forall|i: int, j: int| 0 <= i < j < nodes@.len() implies nodes@[i].0.0
                < nodes@[j].0.0 by {
                assert(keys[i] == nodes@[i].0.0);
                assert(keys[j] == nodes@[j].0.0);
            }
            assert forall|i: int| 0 <= i < nodes@.len() implies self.node_map().contains_key(
                #[trigger] nodes@[i].0.0,
            ) && *nodes@[i].1 == self.node_map()[nodes@[i].0.0] by {
                assert(self.nodes@.contains_key(*seen[i].0));
            }
            assert forall|k: u64| #[trigger] self.node_map().contains_key(k) implies exists|i: int|
                0 <= i < nodes@.len() && nodes@[i].0.0 == k by {
                assert(seen.contains((&k, &self.nodes@[k])));
                let i = choose|i: int| 0 <= i < seen.len() && seen[i] == (&k, &self.nodes@[k]);
                assert(nodes@[i].0.0 == k);
            }
        }
        nodes
    }
}

/// The keys a map hands out in iteration order are strictly increasing.
pub(crate) proof fn lemma_increasing_keys(keys: Seq<u64>)
    requires
        vstd::std_specs::btree::increasing_seq(keys),
    ensures
        forall|i: int, j: int| 0 <= i < j < keys.len() ==> keys[i] < keys[j],
{
    broadcast use vstd::laws_cmp::group_laws_cmp;

    vstd::std_specs::btree::axiom_increasing_seq_meaning::<u64>(keys);
    assert forall|i: int, j: int| 0 <= i < j < keys.len() implies keys[i] < keys[j] by {
        assert(OrdSpec::cmp_spec(&keys[i], &keys[j]) is Less);
    }
}

/// Which wires `split_wires` takes out of the list.
enum WireCut {
    Into(InPin),
    Touching(NodeId),
}

impl WireCut {
    spec fn takes(self) -> spec_fn(Wire) -> bool {
        match self {
            WireCut::Into(to) => feeds(to),
            WireCut::Touching(id) => touching(id),
        }
    }

    spec fn keeps(self) -> spec_fn(Wire) -> bool {
        match self {
            WireCut::Into(to) => bypasses(to),
            WireCut::Touching(id) => clear_of(id),
        }
    }

    fn cuts(&self, wire: &Wire) -> (cut: bool)
        ensures
            cut == (self.takes())(*wire),
            !cut == (self.keeps())(*wire),
    {
        match self {
            WireCut::Into(to) => wire.to == *to,
            WireCut::Touching(id) => wire.from.node == *id || wire.to.node == *id,
        }
    }
}

/// Takes the wires `cut` selects out of the list, both halves keeping their
/// order.
fn split_wires(wires: &mut Vec<Wire>, cut: WireCut) -> (taken: Vec<Wire>)
    ensures
        taken@ == old(wires)@.filter(cut.takes()),
        final(wires)@ == old(wires)@.filter(cut.keeps()),
{
    let mut kept: Vec<Wire> = Vec::new();
    let mut taken: Vec<Wire> = Vec::new();
    let count = wires.len();
    for i in 0..count
        invariant
            count == wires@.len(),
            wires@ == old(wires)@,
            kept@ == wires@.take(i as int).filter(cut.keeps()),
            taken@ == wires@.take(i as int).filter(cut.takes()),
    {
        let wire = wires[i];
        proof {
            lemma_filter_step(wires@, i as int, cut.keeps());
            lemma_filter_step(wires@, i as int, cut.takes());
        }
        if cut.cuts(&wire) {
            taken.push(wire);
        } else {
            kept.push(wire);
        }
    }
    proof {
        lemma_take_full(wires@);
    }
    *wires = kept;
    taken
}

/// Where `wire` first sits in the list.
fn position_of(wires: &Vec<Wire>, wire: &Wire) -> (found: Option<usize>)
    ensures
        match found {
            Some(i) => i < wires@.len() && wires@[i as int] == *wire,
            None => !wires@.contains(*wire),
        },
{
    let count = wires.len();
    for i in 0..count
        invariant
            count == wires@.len(),
            forall|j: int| 0 <= j < i ==> wires@[j] != *wire,
    {
        if wires[i] == *wire {
            return Some(i);
        }
    }
    None
}

/// `BTreeMap::get_mut`: the entry under `key`, to change in place. Claimed,
/// as std documents it: `None` exactly when the key is absent, and otherwise
/// a reference to its value, whatever is written through which becomes the
/// value under `key`, the rest of the map untouched.
#[verifier::external_body]
fn entry_mut<N>(nodes: &mut BTreeMap<u64, Node<N>>, key: u64) -> (entry: Option<&mut Node<N>>)
    ensures
        final(nodes)@.dom() == old(nodes)@.dom(),
        match entry {
            Some(node) => {
                &&& old(nodes)@.contains_key(key)
                &&& *node == old(nodes)@[key]
                &&& final(nodes)@ == old(nodes)@.insert(key, *final(node))
            },
            None => !old(nodes)@.contains_key(key) && final(nodes)@ == old(nodes)@,
        },
{
    nodes.get_mut(&key)
}

} // verus!
