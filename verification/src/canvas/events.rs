//! What the user did on the canvas. The canvas never changes the graph
//! itself: the application applies these - directly with [`Graph::apply`],
//! or by turning each into a command it can undo.

use crate::model::{
    AnyPin, ConnectionPolicy, Graph, InPin, InputId, Node, NodeId, OutPin, OutputId, Wire, clear_of,
    connect_bump, connected_wires, moved, other_than, splice_bump,
};
use crate::model::{
    lemma_filter_filter, lemma_filter_keeps_all, lemma_filter_members, lemma_filter_no_duplicates,
    lemma_filter_out_len, lemma_take_one_more,
};
use egui::Pos2;
use vstd::prelude::*;

verus! {

/// What the user did on the canvas this frame.
#[derive(Clone, Debug, PartialEq)]
pub enum CanvasEvent {
    /// A drag ended. One event per drag, so one undo entry per drag.
    NodesMoved { moves: Vec<NodeMove> },
    /// The delete key or a cut stroke, with these nodes and wires. `bridges`
    /// are the wires that close the chains the nodes sat in.
    DeleteRequested { nodes: Vec<NodeId>, wires: Vec<Wire>, bridges: Vec<Wire> },
    /// A secondary click on empty canvas, at this graph-space position. What
    /// to show is the application's business.
    ContextMenuRequested { pos: Pos2 },
    /// A wire was dragged from one pin and released on a compatible one.
    ConnectRequested { from: OutPin, to: InPin, policy: ConnectionPolicy },
    /// A wire was dragged from a pin and released on empty canvas, at this
    /// graph-space position: the application may offer a node to complete it.
    WireDropped { from: AnyPin, pos: Pos2 },
    /// The `+` on a wire was clicked, or the wire double-clicked: the
    /// application may offer a node to splice into it.
    WireInsertRequested { wire: Wire, pos: Pos2 },
    /// A node was dragged onto a wire and released: splice it in.
    NodeDroppedOnWire {
        wire: Wire,
        node: NodeId,
        input: InputId,
        input_policy: ConnectionPolicy,
        output: OutputId,
    },
}

#[derive(Clone, Copy, Debug, PartialEq)]
pub struct NodeMove {
    pub id: NodeId,
    pub from: Pos2,
    pub to: Pos2,
}

/// The nodes and the layout revision after `moves`, one after the other:
/// each move of a held node sets its position, and bumps the revision when
/// it changes it.
pub open spec fn after_moves<N>(nodes: Map<u64, Node<N>>, layout: int, moves: Seq<NodeMove>) -> (
    Map<u64, Node<N>>,
    int,
)
    decreases moves.len(),
{
    if moves.len() == 0 {
        (nodes, layout)
    } else {
        let (nodes, layout) = after_moves(nodes, layout, moves.drop_last());
        let step = moves.last();
        if nodes.contains_key(step.id.0) {
            (
                nodes.insert(step.id.0, (Node { pos: step.to, payload: nodes[step.id.0].payload })),
                layout + if moved(nodes[step.id.0].pos, step.to) {
                    1int
                } else {
                    0int
                },
            )
        } else {
            (nodes, layout)
        }
    }
}

/// The moves that undo `moves`: each with its ends swapped, the last first.
pub open spec fn undoing(moves: Seq<NodeMove>) -> Seq<NodeMove> {
    Seq::new(
        moves.len(),
        |i: int|
            NodeMove {
                id: moves[moves.len() - 1 - i].id,
                from: moves[moves.len() - 1 - i].to,
                to: moves[moves.len() - 1 - i].from,
            },
    )
}

/// Each of `moves` starts where its node is in `nodes`, and no node moves
/// twice - what one drag reports.
pub open spec fn moves_from<N>(nodes: Map<u64, Node<N>>, moves: Seq<NodeMove>) -> bool {
    &&& forall|i: int|
        0 <= i < moves.len() ==> nodes.contains_key(#[trigger] moves[i].id.0)
            && nodes[moves[i].id.0].pos == moves[i].from
    &&& forall|i: int, j: int| 0 <= i < j < moves.len() ==> moves[i].id != moves[j].id
}

/// Where the nodes end up does not depend on the revision counted from.
proof fn lemma_moves_place_alike<N>(nodes: Map<u64, Node<N>>, a: int, b: int, moves: Seq<NodeMove>)
    ensures
        after_moves(nodes, a, moves).0 == after_moves(nodes, b, moves).0,
    decreases moves.len(),
{
    if moves.len() > 0 {
        lemma_moves_place_alike(nodes, a, b, moves.drop_last());
    }
}

/// Moving through `first` and then `second` is moving through both.
proof fn lemma_moves_concat<N>(
    nodes: Map<u64, Node<N>>,
    layout: int,
    first: Seq<NodeMove>,
    second: Seq<NodeMove>,
)
    ensures
        after_moves(nodes, layout, first + second) == after_moves(
            after_moves(nodes, layout, first).0,
            after_moves(nodes, layout, first).1,
            second,
        ),
    decreases second.len(),
{
    if second.len() == 0 {
        assert(first + second =~= first);
    } else {
        lemma_moves_concat(nodes, layout, first, second.drop_last());
        assert((first + second).drop_last() =~= first + second.drop_last());
        assert((first + second).last() == second.last());
    }
}

/// Moves keep the same nodes, and leave a node none of them names as it was.
proof fn lemma_moves_elsewhere<N>(nodes: Map<u64, Node<N>>, layout: int, moves: Seq<NodeMove>, key: u64)
    ensures
        after_moves(nodes, layout, moves).0.dom() == nodes.dom(),
        (forall|i: int| 0 <= i < moves.len() ==> #[trigger] moves[i].id.0 != key) && nodes.contains_key(
            key,
        ) ==> after_moves(nodes, layout, moves).0[key] == nodes[key],
    decreases moves.len(),
{
    if moves.len() > 0 {
        lemma_moves_elsewhere(nodes, layout, moves.drop_last(), key);
        let earlier = after_moves(nodes, layout, moves.drop_last()).0;
        if earlier.contains_key(moves.last().id.0) {
            assert(earlier.insert(
                moves.last().id.0,
                (Node { pos: moves.last().to, payload: earlier[moves.last().id.0].payload }),
            ).dom() =~= earlier.dom());
        }
        if forall|i: int| 0 <= i < moves.len() ==> #[trigger] moves[i].id.0 != key {
            assert(moves.last().id.0 != key);
            assert forall|i: int| 0 <= i < moves.drop_last().len() implies #[trigger] moves.drop_last()[i].id.0
                != key by {
                assert(moves.drop_last()[i] == moves[i]);
            }
        }
    }
}

/// A drag undone: moving each node back, last first, from where the drag
/// left it to where it started, puts every node back where it was.
pub proof fn lemma_moves_undone<N>(nodes: Map<u64, Node<N>>, layout: int, later: int, moves: Seq<NodeMove>)
    requires
        moves_from(nodes, moves),
    ensures
        after_moves(after_moves(nodes, layout, moves).0, later, undoing(moves)).0 == nodes,
    decreases moves.len(),
{
    if moves.len() == 0 {
        assert(undoing(moves) =~= Seq::<NodeMove>::empty());
    } else {
        let init = moves.drop_last();
        let last = moves.last();
        let key = last.id.0;
        let back = NodeMove { id: last.id, from: last.to, to: last.from };
        assert(moves_from(nodes, init)) by {
            assert forall|i: int| 0 <= i < init.len() implies nodes.contains_key(#[trigger] init[i].id.0)
                && nodes[init[i].id.0].pos == init[i].from by {
                assert(init[i] == moves[i]);
            }
        }
        assert(undoing(moves) =~= seq![back] + undoing(init));
        let done = after_moves(nodes, layout, init);
        lemma_moves_elsewhere(nodes, layout, init, key);
        assert forall|i: int| 0 <= i < init.len() implies #[trigger] init[i].id.0 != key by {
            assert(init[i] == moves[i]);
            assert(moves[i].id != moves[moves.len() - 1].id);
        }
        assert(done.0[key] == nodes[key]);
        assert(nodes[key].pos == last.from) by {
            assert(moves[moves.len() - 1] == last);
        }
        let moved_map = after_moves(nodes, layout, moves).0;
        assert(moved_map == done.0.insert(key, (Node { pos: last.to, payload: done.0[key].payload })));
        lemma_moves_concat(moved_map, later, seq![back], undoing(init));
        let one = after_moves(moved_map, later, seq![back]);
        assert(seq![back].drop_last() =~= Seq::<NodeMove>::empty());
        assert(after_moves(moved_map, later, Seq::<NodeMove>::empty()) == (moved_map, later));
        assert(seq![back].last() == back);
        assert(moved_map.contains_key(key));
        assert(one.0 == moved_map.insert(key, (Node { pos: last.from, payload: moved_map[key].payload })));
        assert(one.0 =~= done.0);
        lemma_moves_undone(nodes, layout, one.1, init);
    }
}

/// The layout revision never falls along a run of moves.
proof fn lemma_moves_climb<N>(nodes: Map<u64, Node<N>>, layout: int, moves: Seq<NodeMove>, i: int)
    requires
        0 <= i <= moves.len(),
    ensures
        after_moves(nodes, layout, moves.take(i)).1 <= after_moves(nodes, layout, moves).1,
    decreases moves.len() - i,
{
    if i < moves.len() {
        lemma_moves_climb(nodes, layout, moves, i + 1);
        assert(moves.take(i + 1).drop_last() =~= moves.take(i));
    } else {
        assert(moves.take(i) =~= moves);
    }
}

/// Whether a wire survives a deletion of `nodes` and `wires`: it is not
/// listed, and has no end on a listed node.
pub open spec fn survives_deletion(wire: Wire, nodes: Seq<NodeId>, wires: Seq<Wire>) -> bool {
    !wires.contains(wire) && !nodes.contains(wire.from.node) && !nodes.contains(wire.to.node)
}

/// The wires that are not in `wires`.
pub open spec fn unlisted(wires: Seq<Wire>) -> spec_fn(Wire) -> bool {
    |w: Wire| !wires.contains(w)
}

/// The wires with no end on a node of `nodes`.
pub open spec fn clear_of_all(nodes: Seq<NodeId>) -> spec_fn(Wire) -> bool {
    |w: Wire| !nodes.contains(w.from.node) && !nodes.contains(w.to.node)
}

/// The wires that survive a deletion of `nodes` and `wires`.
pub open spec fn surviving(nodes: Seq<NodeId>, wires: Seq<Wire>) -> spec_fn(Wire) -> bool {
    |w: Wire| survives_deletion(w, nodes, wires)
}

/// The wire list after connecting each of `bridges` in turn under
/// `Multiple`, skipping a bridge with an end on a node not in `held` (the
/// values of the ids the graph holds).
pub open spec fn bridged(list: Seq<Wire>, bridges: Seq<Wire>, held: Set<u64>) -> Seq<Wire>
    decreases bridges.len(),
{
    if bridges.len() == 0 {
        list
    } else {
        let earlier = bridged(list, bridges.drop_last(), held);
        let bridge = bridges.last();
        if held.contains(bridge.from.node.0) && held.contains(bridge.to.node.0) {
            connected_wires(earlier, bridge, ConnectionPolicy::Multiple)
        } else {
            earlier
        }
    }
}

/// The ids `graph` holds that are not among `nodes`: what a deletion of
/// `nodes` keeps.
pub open spec fn kept_ids<N>(graph: &Graph<N>, nodes: Seq<NodeId>) -> Set<u64> {
    graph.node_map().dom().filter(|key: u64| !nodes.contains(NodeId(key)))
}

/// How far deleting `nodes` and `wires` from `graph`, and bridging with
/// `bridges`, moves the topology revision: one for each wire removed on its
/// own, one for each node removed, and one for each bridge connected.
pub open spec fn deletion_bump<N>(
    graph: &Graph<N>,
    nodes: Seq<NodeId>,
    wires: Seq<Wire>,
    bridges: Seq<Wire>,
) -> int {
    let survivors = graph.wire_list().filter(surviving(nodes, wires));
    (graph.wire_list().len() - graph.wire_list().filter(unlisted(wires)).len()) + (
    graph.node_map().dom().len() - kept_ids(graph, nodes).len()) + (bridged(
        survivors,
        bridges,
        kept_ids(graph, nodes),
    ).len() - survivors.len())
}

/// Removing the listed wires one by one: what is left after the first `i`
/// holds at least what is left after all of them, and strictly more when
/// the next listed wire is still there.
proof fn lemma_unlisted_shrinks(start: Seq<Wire>, wires: Seq<Wire>, i: int)
    requires
        0 <= i < wires.len(),
        start.no_duplicates(),
    ensures
        start.filter(unlisted(wires)).len() <= start.filter(unlisted(wires.take(i))).len(),
        start.filter(unlisted(wires.take(i))).contains(wires[i]) ==> start.filter(unlisted(wires)).len()
            < start.filter(unlisted(wires.take(i))).len(),
{
    broadcast use vstd::seq_lib::group_filter_ensures;

    let now = start.filter(unlisted(wires.take(i)));
    let wire = wires[i];
    lemma_filter_filter(start, unlisted(wires.take(i)), unlisted(wires));
    assert forall|w: Wire| #[trigger] (unlisted(wires))(w) == ((unlisted(wires.take(i)))(w) && (
    unlisted(wires))(w)) by {
        if wires.take(i).contains(w) {
            let k = choose|k: int| 0 <= k < wires.take(i).len() && wires.take(i)[k] == w;
            assert(wires[k] == w);
        }
    }
    assert((|w: Wire| (unlisted(wires.take(i)))(w) && (unlisted(wires))(w)) =~= unlisted(wires));
    lemma_filter_no_duplicates(start, unlisted(wires.take(i)));
    lemma_filter_out_len(now, wire, other_than(wire));
    lemma_filter_filter(now, other_than(wire), unlisted(wires));
    assert forall|w: Wire| #[trigger] (unlisted(wires))(w) == ((other_than(wire))(w) && (unlisted(
        wires,
    ))(w)) by {
        assert(wires.contains(wire));
    }
    assert((|w: Wire| (other_than(wire))(w) && (unlisted(wires))(w)) =~= unlisted(wires));
}

/// Bridging only adds: a list never shrinks, and bridging with the first
/// `i` bridges leaves no more than bridging with all of them.
proof fn lemma_bridged_grows(list: Seq<Wire>, bridges: Seq<Wire>, held: Set<u64>, i: int)
    requires
        0 <= i <= bridges.len(),
    ensures
        bridged(list, bridges.take(i), held).len() <= bridged(list, bridges, held).len(),
        list.len() <= bridged(list, bridges, held).len(),
    decreases bridges.len(),
{
    if bridges.len() == 0 {
        assert(bridges.take(i) =~= bridges);
    } else {
        let init = bridges.drop_last();
        if i == bridges.len() {
            assert(bridges.take(i) =~= bridges);
            lemma_bridged_grows(list, init, held, 0);
        } else {
            assert(bridges.take(i) =~= init.take(i));
            lemma_bridged_grows(list, init, held, i);
        }
    }
}

impl<N> Graph<N> {
    /// The plain response to an event: move what moved, delete what was
    /// deleted and close the chains over it, connect what was connected,
    /// splice what was dropped on a wire. The other events ask the
    /// application a question, and change nothing here. An application with
    /// undo builds commands from the events instead of calling this.
    pub fn apply(&mut self, event: &CanvasEvent)
        requires
            old(self).wf(),
            match event {
                CanvasEvent::NodesMoved { moves } => after_moves(
                    old(self).node_map(),
                    old(self).layout() as int,
                    moves@,
                ).1 <= u64::MAX,
                CanvasEvent::DeleteRequested { nodes, wires, bridges } => old(self).topology()
                    + deletion_bump(old(self), nodes@, wires@, bridges@) <= u64::MAX,
                CanvasEvent::ConnectRequested { from, to, policy } => old(self).holds(from.node)
                    && old(self).holds(to.node) && !old(self).wire_list().contains(
                    (Wire { from: *from, to: *to }),
                ) ==> old(self).topology() < u64::MAX,
                CanvasEvent::NodeDroppedOnWire { wire, node, input, input_policy, output } => old(self).holds(*node) && old(self).wire_list().contains(*wire) ==> old(self).topology()
                    + splice_bump(old(self).wire_list(), *wire, *node, *input, *input_policy, *output)
                    <= u64::MAX,
                _ => true,
            },
        ensures
            final(self).wf(),
            final(self).minted() == old(self).minted(),
            match event {
                CanvasEvent::NodesMoved { moves } => {
                    let (nodes, layout) = after_moves(
                        old(self).node_map(),
                        old(self).layout() as int,
                        moves@,
                    );
                    &&& final(self).node_map() == nodes
                    &&& final(self).layout() == layout
                    &&& final(self).wire_list() == old(self).wire_list()
                    &&& final(self).topology() == old(self).topology()
                },
                CanvasEvent::DeleteRequested { nodes, wires, bridges } => {
                    &&& forall|key: u64| #[trigger]
                        final(self).node_map().contains_key(key) <==> old(self).node_map().contains_key(key) && !nodes@.contains(NodeId(key))
                    &&& forall|key: u64| #[trigger]
                        final(self).node_map().contains_key(key) ==> final(self).node_map()[key]
                            == old(self).node_map()[key]
                    &&& forall|wire: Wire| #[trigger]
                        final(self).wire_list().contains(wire) <==> (old(self).wire_list().contains(wire) && survives_deletion(wire, nodes@, wires@))
                            || (bridges@.contains(wire) && final(self).holds(wire.from.node)
                            && final(self).holds(wire.to.node))
                    &&& final(self).wire_list() == bridged(
                        old(self).wire_list().filter(surviving(nodes@, wires@)),
                        bridges@,
                        kept_ids(old(self), nodes@),
                    )
                    &&& final(self).layout() == old(self).layout()
                    &&& final(self).topology() == old(self).topology() + deletion_bump(
                        old(self),
                        nodes@,
                        wires@,
                        bridges@,
                    )
                },
                CanvasEvent::ConnectRequested { from, to, policy } => {
                    let wire = Wire { from: *from, to: *to };
                    &&& final(self).node_map() == old(self).node_map()
                    &&& final(self).layout() == old(self).layout()
                    &&& if old(self).holds(from.node) && old(self).holds(to.node) {
                        &&& final(self).wire_list() == connected_wires(
                            old(self).wire_list(),
                            wire,
                            *policy,
                        )
                        &&& final(self).topology() == old(self).topology() + connect_bump(
                            old(self).wire_list(),
                            wire,
                        )
                    } else {
                        Self::unchanged(old(self), final(self))
                    }
                },
                CanvasEvent::NodeDroppedOnWire { wire, node, input, input_policy, output } => {
                    &&& final(self).node_map() == old(self).node_map()
                    &&& final(self).layout() == old(self).layout()
                    &&& if old(self).holds(*node) && old(self).wire_list().contains(*wire) {
                        &&& final(self).wire_list() == crate::model::spliced_wires(
                            old(self).wire_list(),
                            *wire,
                            *node,
                            *input,
                            *input_policy,
                            *output,
                        )
                        &&& final(self).topology() == old(self).topology() + splice_bump(
                            old(self).wire_list(),
                            *wire,
                            *node,
                            *input,
                            *input_policy,
                            *output,
                        )
                    } else {
                        Self::unchanged(old(self), final(self))
                    }
                },
                _ => Self::unchanged(old(self), final(self)),
            },
    {
        match event {
            CanvasEvent::NodesMoved { moves } => {
                let ghost start_nodes = self.node_map();
                let ghost start_layout = self.layout() as int;
                let ghost start = *self;
                for i in 0..moves.len()
                    invariant
                        self.wf(),
                        self.minted() == start.minted(),
                        self.wire_list() == start.wire_list(),
                        self.topology() == start.topology(),
                        (self.node_map(), self.layout() as int) == after_moves(
                            start_nodes,
                            start_layout,
                            moves@.take(i as int),
                        ),
                        after_moves(start_nodes, start_layout, moves@).1 <= u64::MAX,
                {
                    let step = moves[i];
                    proof {
                        assert(moves@.take(i + 1).drop_last() =~= moves@.take(i as int));
                        lemma_moves_climb(start_nodes, start_layout, moves@, i + 1);
                    }
                    self.set_pos(step.id, step.to);
                }
                proof {
                    assert(moves@.take(moves@.len() as int) =~= moves@);
                }
            },
            CanvasEvent::DeleteRequested { nodes, wires, bridges } => {
                self.delete(nodes, wires, bridges);
            },
            CanvasEvent::ConnectRequested { from, to, policy } => {
                let _ = self.connect(*from, *to, *policy);
            },
            CanvasEvent::NodeDroppedOnWire { wire, node, input, input_policy, output } => {
                let _ = self.insert_into_wire(*wire, *node, *input, *input_policy, *output);
            },
            CanvasEvent::ContextMenuRequested { .. } => {},
            CanvasEvent::WireDropped { .. } => {},
            CanvasEvent::WireInsertRequested { .. } => {},
        }
    }

    /// Removes the listed wires, then the listed nodes with every wire they
    /// touch, then connects each bridge whose ends are still there.
    fn delete(&mut self, nodes: &Vec<NodeId>, wires: &Vec<Wire>, bridges: &Vec<Wire>)
        requires
            old(self).wf(),
            old(self).topology() + deletion_bump(old(self), nodes@, wires@, bridges@) <= u64::MAX,
        ensures
            final(self).wf(),
            final(self).minted() == old(self).minted(),
            final(self).layout() == old(self).layout(),
            final(self).topology() == old(self).topology() + deletion_bump(
                old(self),
                nodes@,
                wires@,
                bridges@,
            ),
            final(self).wire_list() == bridged(
                old(self).wire_list().filter(surviving(nodes@, wires@)),
                bridges@,
                kept_ids(old(self), nodes@),
            ),
            forall|key: u64| #[trigger]
                final(self).node_map().contains_key(key) <==> old(self).node_map().contains_key(key)
                    && !nodes@.contains(NodeId(key)),
            forall|key: u64| #[trigger]
                final(self).node_map().contains_key(key) ==> final(self).node_map()[key] == old(self).node_map()[key],
            forall|wire: Wire| #[trigger]
                final(self).wire_list().contains(wire) <==> (old(self).wire_list().contains(wire)
                    && survives_deletion(wire, nodes@, wires@)) || (bridges@.contains(wire) && final(self).holds(wire.from.node) && final(self).holds(wire.to.node)),
    {
        let ghost start = *self;
        let ghost kept = kept_ids(&start, nodes@);
        let ghost survivors = start.wire_list().filter(surviving(nodes@, wires@));
        let ghost part1 = start.wire_list().len() - start.wire_list().filter(unlisted(wires@)).len();
        let ghost part2 = start.node_map().dom().len() - kept.len();
        let ghost part3 = bridged(survivors, bridges@, kept).len() - survivors.len();
        proof {
            assert forall|k: int| 0 <= k < start.wire_list().len() implies (unlisted(
                wires@.take(0),
            ))(#[trigger] start.wire_list()[k]) by {}
            lemma_filter_keeps_all(start.wire_list(), unlisted(wires@.take(0)));
            assert(kept.subset_of(start.node_map().dom()));
            vstd::set_lib::lemma_len_subset(kept, start.node_map().dom());
            lemma_bridged_grows(survivors, bridges@, kept, 0);
        }
        for i in 0..wires.len()
            invariant
                self.wire_list() == start.wire_list().filter(unlisted(wires@.take(i as int))),
                self.topology() == start.topology() + (start.wire_list().len()
                    - self.wire_list().len()),
                self.wf(),
                self.minted() == start.minted(),
                self.layout() == start.layout(),
                self.node_map() == start.node_map(),
                part1 == start.wire_list().len() - start.wire_list().filter(unlisted(wires@)).len(),
                start.wire_list().no_duplicates(),
                0 <= part2,
                0 <= part3,
                start.topology() + part1 + part2 + part3 <= u64::MAX,
                forall|wire: Wire| #[trigger]
                    self.wire_list().contains(wire) <==> start.wire_list().contains(wire)
                        && !wires@.take(i as int).contains(wire),
        {
            let ghost before = self.wire_list();
            let wire = wires[i];
            proof {
                lemma_unlisted_shrinks(start.wire_list(), wires@, i as int);
            }
            self.disconnect(wire);
            proof {
                lemma_filter_members(before, other_than(wire));
                lemma_take_one_more(wires@, i as int);
                lemma_filter_out_len(before, wire, other_than(wire));
                lemma_filter_filter(
                    start.wire_list(),
                    unlisted(wires@.take(i as int)),
                    other_than(wire),
                );
                assert((|w: Wire| (unlisted(wires@.take(i as int)))(w) && (other_than(wire))(w))
                    =~= unlisted(wires@.take(i + 1)));
            }
        }
        let ghost unwired = *self;
        proof {
            assert(wires@.take(wires@.len() as int) =~= wires@);
            assert forall|k: int| 0 <= k < unwired.wire_list().len() implies (clear_of_all(
                nodes@.take(0),
            ))(#[trigger] unwired.wire_list()[k]) by {}
            lemma_filter_keeps_all(unwired.wire_list(), clear_of_all(nodes@.take(0)));
        }
        for i in 0..nodes.len()
            invariant
                unwired.node_map() == start.node_map(),
                self.wire_list() == unwired.wire_list().filter(
                    clear_of_all(nodes@.take(i as int)),
                ),
                self.topology() == unwired.topology() + (start.node_map().dom().len()
                    - self.node_map().dom().len()),
                self.wf(),
                self.minted() == start.minted(),
                self.layout() == start.layout(),
                unwired.topology() == start.topology() + part1,
                kept == kept_ids(&start, nodes@),
                part2 == start.node_map().dom().len() - kept.len(),
                0 <= part3,
                start.topology() + part1 + part2 + part3 <= u64::MAX,
                forall|wire: Wire| #[trigger]
                    unwired.wire_list().contains(wire) <==> start.wire_list().contains(wire)
                        && !wires@.contains(wire),
                forall|key: u64| #[trigger]
                    self.node_map().contains_key(key) <==> start.node_map().contains_key(key)
                        && !nodes@.take(i as int).contains(NodeId(key)),
                forall|key: u64| #[trigger]
                    self.node_map().contains_key(key) ==> self.node_map()[key] == start.node_map()[key],
                forall|wire: Wire| #[trigger]
                    self.wire_list().contains(wire) <==> unwired.wire_list().contains(wire)
                        && !nodes@.take(i as int).contains(wire.from.node) && !nodes@.take(
                        i as int,
                    ).contains(wire.to.node),
        {
            let ghost before = *self;
            let id = nodes[i];
            proof {
                if before.holds(id) {
                    assert(kept.subset_of(before.node_map().dom().remove(id.0))) by {
                        assert forall|key: u64| kept.contains(key) implies before.node_map().dom().remove(
                            id.0,
                        ).contains(key) by {
                            assert(nodes@.contains(id)) by {
                                assert(nodes@[i as int] == id);
                            }
                            if nodes@.take(i as int).contains(NodeId(key)) {
                                let k = choose|k: int| 0 <= k < i && nodes@.take(i as int)[k] == NodeId(key);
                                assert(nodes@[k] == NodeId(key));
                            }
                        }
                    }
                    vstd::set_lib::lemma_len_subset(kept, before.node_map().dom().remove(id.0));
                }
            }
            self.remove_node(id);
            proof {
                if !before.holds(id) {
                    assert forall|k: int| 0 <= k < before.wire_list().len() implies (clear_of(id))(
                        #[trigger] before.wire_list()[k],
                    ) by {
                        assert(before.node_map().dom().contains(before.wire_list()[k].from.node.0));
                        assert(before.node_map().dom().contains(before.wire_list()[k].to.node.0));
                    }
                    lemma_filter_keeps_all(before.wire_list(), clear_of(id));
                } else {
                    assert(self.node_map().dom() =~= before.node_map().dom().remove(id.0));
                }
                lemma_take_one_more(nodes@, i as int);
                lemma_filter_filter(
                    unwired.wire_list(),
                    clear_of_all(nodes@.take(i as int)),
                    clear_of(id),
                );
                assert((|w: Wire| (clear_of_all(nodes@.take(i as int)))(w) && (clear_of(id))(w))
                    =~= clear_of_all(nodes@.take(i + 1)));
                lemma_filter_members(before.wire_list(), clear_of(id));
                lemma_take_one_more(nodes@, i as int);
                assert forall|w: Wire| #[trigger] self.wire_list().contains(w) <==> unwired.wire_list().contains(w)
                    && !nodes@.take(i + 1).contains(w.from.node) && !nodes@.take(i + 1).contains(w.to.node) by {
                    if before.wire_list().contains(w) {
                        let k = choose|k: int| 0 <= k < before.wire_list().len() && before.wire_list()[k] == w;
                        assert(before.node_map().dom().contains(before.wire_list()[k].from.node.0));
                        assert(before.node_map().dom().contains(before.wire_list()[k].to.node.0));
                    }
                }
                assert forall|key: u64| #[trigger] self.node_map().contains_key(key) <==> start.node_map().contains_key(key)
                    && !nodes@.take(i + 1).contains(NodeId(key)) by {
                    assert(nodes@.take(i + 1).contains(NodeId(key)) <==> nodes@.take(i as int).contains(NodeId(key)) || NodeId(key) == id);
                }
            }
        }
        let ghost unnoded = *self;
        proof {
            assert(nodes@.take(nodes@.len() as int) =~= nodes@);
            assert(bridges@.take(0) =~= Seq::<Wire>::empty());
            assert(unnoded.node_map().dom() =~= kept);
            lemma_filter_filter(start.wire_list(), unlisted(wires@), clear_of_all(nodes@));
            assert((|w: Wire| (unlisted(wires@))(w) && (clear_of_all(nodes@))(w)) =~= surviving(
                nodes@,
                wires@,
            ));
            assert(unnoded.wire_list() == survivors);
        }
        for i in 0..bridges.len()
            invariant
                self.wire_list() == bridged(
                    unnoded.wire_list(),
                    bridges@.take(i as int),
                    unnoded.node_map().dom(),
                ),
                self.topology() == unnoded.topology() + (self.wire_list().len()
                    - unnoded.wire_list().len()),
                self.wf(),
                self.minted() == start.minted(),
                self.layout() == start.layout(),
                self.node_map() == unnoded.node_map(),
                unnoded.node_map().dom() == kept,
                unnoded.wire_list() == survivors,
                unnoded.topology() == start.topology() + part1 + part2,
                part3 == bridged(survivors, bridges@, kept).len() - survivors.len(),
                start.topology() + part1 + part2 + part3 <= u64::MAX,
                forall|wire: Wire| #[trigger]
                    self.wire_list().contains(wire) <==> unnoded.wire_list().contains(wire) || (
                    bridges@.take(i as int).contains(wire) && self.holds(wire.from.node) && self.holds(
                        wire.to.node,
                    )),
        {
            let ghost before = *self;
            let bridge = bridges[i];
            proof {
                assert(bridges@.take(i + 1).drop_last() =~= bridges@.take(i as int));
                assert(bridges@.take(i + 1).last() == bridge);
                lemma_bridged_grows(survivors, bridges@, kept, i + 1);
            }
            let _ = self.connect(bridge.from, bridge.to, ConnectionPolicy::Multiple);
            proof {
                assert(bridges@.take(i + 1).drop_last() =~= bridges@.take(i as int));
                assert(bridges@.take(i + 1).last() == bridge);
                assert((Wire { from: bridge.from, to: bridge.to }) == bridge);
                lemma_take_one_more(bridges@, i as int);
                assert forall|w: Wire| #[trigger] self.wire_list().contains(w) <==> before.wire_list().contains(w)
                    || (w == bridge && self.holds(w.from.node) && self.holds(w.to.node)) by {
                    if before.wire_list().contains(w) {
                        let k = choose|k: int| 0 <= k < before.wire_list().len() && before.wire_list()[k] == w;
                        if !before.wire_list().contains(bridge) && self.holds(bridge.from.node) && self.holds(bridge.to.node) {
                            assert(self.wire_list()[k] == w);
                        }
                    }
                    if self.wire_list().contains(w) && !before.wire_list().contains(w) {
                        let k = choose|k: int| 0 <= k < self.wire_list().len() && self.wire_list()[k] == w;
                        assert(k == before.wire_list().len());
                    }
                    if w == bridge && self.holds(w.from.node) && self.holds(w.to.node) && !before.wire_list().contains(w) {
                        assert(self.wire_list()[before.wire_list().len() as int] == w);
                    }
                }
            }
        }
        proof {
            assert(bridges@.take(bridges@.len() as int) =~= bridges@);
            lemma_filter_filter(start.wire_list(), unlisted(wires@), clear_of_all(nodes@));
            assert((|w: Wire| (unlisted(wires@))(w) && (clear_of_all(nodes@))(w)) =~= surviving(
                nodes@,
                wires@,
            ));
        }
    }
}

} // verus!
