//! What a gesture leaves behind: the events a released node drag and a
//! released wire drag become, and the deletion a Delete key or a cut stroke
//! asks for.

use super::events::{CanvasEvent, NodeMove};
use crate::model::{
    AnyPin, ConnectionPolicy, Graph, InPin, InputId, NodeId, OutPin, OutputId, Wire, bridge_list,
    in_increasing_order, is_bridge, moved, pos_moved,
};
use egui::Pos2;
use std::collections::BTreeMap;
use vstd::prelude::*;

verus! {

broadcast use vstd::std_specs::btree::group_btree_axioms;

/// What is under the pointer while nothing is being dragged.
#[derive(Clone, Copy, Debug)]
pub struct Hovered {
    pub wire: Option<Wire>,
    pub pin: Option<AnyPin>,
}

impl Hovered {
    /// What is under the pointer, from what lies there: `pin` whose grab area
    /// holds it, whether a node does (`on_node`), the wire near it (`wire`)
    /// and the wire whose `+` holds it (`button`). Nothing while a gesture
    /// runs or the pointer is off the canvas (`idle_on_canvas` false). A pin
    /// wins over a node and a node over a wire; a wire's `+` counts as the
    /// wire, so the hover holds while the pointer crosses onto the button.
    pub fn under_pointer(
        idle_on_canvas: bool,
        pin: Option<AnyPin>,
        on_node: bool,
        wire: Option<Wire>,
        button: Option<Wire>,
    ) -> (hovered: Hovered)
        ensures
            !idle_on_canvas ==> hovered.pin is None && hovered.wire is None,
            idle_on_canvas ==> hovered.pin == pin && hovered.wire == if pin is None && !on_node {
                if wire is Some {
                    wire
                } else {
                    button
                }
            } else {
                None
            },
    {
        if !idle_on_canvas {
            return Hovered { wire: None, pin: None };
        }
        let wire = if pin.is_none() && !on_node {
            match wire {
                Some(wire) => Some(wire),
                None => button,
            }
        } else {
            None
        };
        Hovered { wire, pin }
    }
}

impl Default for Hovered {
    fn default() -> (hovered: Self)
        ensures
            hovered.wire is None,
            hovered.pin is None,
    {
        Hovered { wire: None, pin: None }
    }
}

/// The wire under a dragged node, and whether the node can go into it.
#[derive(Clone, Copy, Debug, PartialEq, Eq, Structural)]
pub struct InsertTarget {
    pub wire: Wire,
    /// False when the node has no pins to splice with: the wire is shown as
    /// refusing, and releasing does nothing.
    pub valid: bool,
}

/// The wire a node drag would splice into: `under` is the wire under the
/// pointer, `dragged` the node being dragged when it is the only one, and
/// `can_splice` whether that node has pins to splice with. Nothing while the
/// alt modifier is held - alt is "move past this wire" - nor when more than
/// one node is dragged, nor into a wire the node is already an end of.
pub fn insert_target(alt: bool, dragged: Option<NodeId>, under: Option<Wire>, can_splice: bool) -> (target:
    Option<InsertTarget>)
    ensures
        target == match (dragged, under) {
            (Some(node), Some(wire)) => if !alt && wire.from.node != node && wire.to.node != node {
                Some(InsertTarget { wire, valid: can_splice })
            } else {
                None
            },
            _ => None,
        },
{
    if alt {
        return None;
    }
    match (dragged, under) {
        (Some(node), Some(wire)) => if wire.from.node != node && wire.to.node != node {
            Some(InsertTarget { wire, valid: can_splice })
        } else {
            None
        },
        _ => None,
    }
}

/// The one rule the canvas itself imposes: a node does not wire into itself.
/// Type compatibility is the application's, through the events it accepts.
pub fn can_connect(from: OutPin, to: InPin) -> (allowed: bool)
    ensures
        allowed == (from.node != to.node),
{
    from.node != to.node
}

/// What a wire drag from `origin` becomes when it is released over `target`:
/// a connection to a compatible pin, a request for a node when released on
/// empty canvas at `pos`, and otherwise nothing. The input end's policy is
/// the one it was drawn with: `origin_policy` when the drag started on an
/// input, `target_policy` when it ends on one; an input that was not drawn
/// connects nothing. Connecting into a `Single` input displaces what was
/// there, so dragging a fresh wire out of a wired input and landing it
/// replaces the old wire.
pub fn release_wire(
    origin: AnyPin,
    target: Option<AnyPin>,
    pos: Pos2,
    origin_policy: Option<ConnectionPolicy>,
    target_policy: Option<ConnectionPolicy>,
) -> (event: Option<CanvasEvent>)
    ensures
        event == match (origin, target) {
            (AnyPin::Out(from), Some(AnyPin::In(to))) => if from.node != to.node
                && target_policy is Some {
                Some(CanvasEvent::ConnectRequested { from, to, policy: target_policy->0 })
            } else {
                None
            },
            (AnyPin::In(to), Some(AnyPin::Out(from))) => if from.node != to.node
                && origin_policy is Some {
                Some(CanvasEvent::ConnectRequested { from, to, policy: origin_policy->0 })
            } else {
                None
            },
            (from, None) => Some(CanvasEvent::WireDropped { from, pos }),
            _ => None,
        },
{
    let (from, to, policy) = match (origin, target) {
        (AnyPin::Out(from), Some(AnyPin::In(to))) => (from, to, target_policy),
        (AnyPin::In(to), Some(AnyPin::Out(from))) => (from, to, origin_policy),
        (from, None) => {
            return Some(CanvasEvent::WireDropped { from, pos });
        },
        _ => {
            return None;
        },
    };
    if can_connect(from, to) {
        if let Some(policy) = policy {
            return Some(CanvasEvent::ConnectRequested { from, to, policy });
        }
    }
    None
}

/// The moves a node drag ends with: each node the drag started with, in the
/// order given, that has a target which differs from where it started.
pub open spec fn drag_moves(start: Seq<(NodeId, Pos2)>, targets: Map<u64, Pos2>) -> Seq<NodeMove>
    decreases start.len(),
{
    if start.len() == 0 {
        Seq::empty()
    } else {
        let earlier = drag_moves(start.drop_last(), targets);
        let (id, from) = start.last();
        if targets.contains_key(id.0) && moved(from, targets[id.0]) {
            earlier.push(NodeMove { id, from, to: targets[id.0] })
        } else {
            earlier
        }
    }
}

/// What a node drag leaves behind when it is released. `start` is where each
/// dragged node was when the drag began, `targets` where it is drawn now,
/// keyed by the value of its id. `insert_target` is the wire under the
/// dragged node, as `insert_target` found it; `dropped` the single node
/// being dragged; `splice` the pins that node would be spliced in with,
/// and the policy its input was drawn with.
///
/// One `NodesMoved` for everything that moved - none when nothing did - so one
/// undo entry per drag; then, when a node that can go into it was dropped on a
/// wire, the splice.
pub fn release_nodes(
    start: &Vec<(NodeId, Pos2)>,
    targets: &BTreeMap<u64, Pos2>,
    insert_target: Option<InsertTarget>,
    dropped: Option<NodeId>,
    splice: Option<(InputId, ConnectionPolicy, OutputId)>,
) -> (events: Vec<CanvasEvent>)
    ensures
        ({
            let moves = drag_moves(start@, targets@);
            let moved_count: int = if moves.len() == 0 {
                0
            } else {
                1
            };
            let splice_part: Seq<CanvasEvent> = match (insert_target, dropped, splice) {
                (
                    Some(InsertTarget { wire, valid: true }),
                    Some(node),
                    Some((input, input_policy, output)),
                ) => seq![
                    CanvasEvent::NodeDroppedOnWire { wire, node, input, input_policy, output },
                ],
                _ => Seq::empty(),
            };
            &&& events@.len() == moved_count + splice_part.len()
            &&& moves.len() > 0 ==> (events@[0] matches CanvasEvent::NodesMoved { moves: list }
                && list@ == moves)
            &&& splice_part.len() > 0 ==> events@.last() == splice_part[0]
        }),
{
    let mut moves: Vec<NodeMove> = Vec::new();
    for i in 0..start.len()
        invariant
            moves@ == drag_moves(start@.take(i as int), targets@),
    {
        let (id, from) = start[i];
        proof {
            assert(start@.take(i + 1).drop_last() =~= start@.take(i as int));
        }
        if let Some(to) = targets.get(&id.0) {
            if pos_moved(&from, to) {
                moves.push(NodeMove { id, from, to: *to });
            }
        }
    }
    proof {
        assert(start@.take(start@.len() as int) =~= start@);
    }
    let mut events: Vec<CanvasEvent> = Vec::new();
    if moves.len() > 0 {
        events.push(CanvasEvent::NodesMoved { moves });
    }
    if let (Some(InsertTarget { wire, valid: true }), Some(node), Some((input, input_policy, output))) = (
        insert_target,
        dropped,
        splice,
    ) {
        events.push(CanvasEvent::NodeDroppedOnWire { wire, node, input, input_policy, output });
    }
    events
}

/// The removed nodes, keyed by the value of their id, with their
/// pass-through pins; a node listed twice keeps its last pins.
pub open spec fn removal_map(nodes: Seq<(NodeId, Option<(InputId, OutputId)>)>) -> Map<
    u64,
    Option<(InputId, OutputId)>,
>
    decreases nodes.len(),
{
    if nodes.len() == 0 {
        Map::empty()
    } else {
        removal_map(nodes.drop_last()).insert(nodes.last().0.0, nodes.last().1)
    }
}

/// Every node of a deletion is among the removed: the map the bridges are
/// searched over holds exactly the listed ids, each with the pins it was
/// listed with last.
pub proof fn lemma_removal_map_lists_all(nodes: Seq<(NodeId, Option<(InputId, OutputId)>)>)
    ensures
        forall|key: u64|
            #[trigger] removal_map(nodes).contains_key(key) <==> exists|i: int|
                0 <= i < nodes.len() && nodes[i].0.0 == key,
        forall|i: int|
            0 <= i < nodes.len() && (forall|j: int| i < j < nodes.len() ==> nodes[j].0 != nodes[i].0)
                ==> removal_map(nodes)[#[trigger] nodes[i].0.0] == nodes[i].1,
    decreases nodes.len(),
{
    if nodes.len() > 0 {
        let init = nodes.drop_last();
        lemma_removal_map_lists_all(init);
        let last = nodes.last();
        assert forall|key: u64|
            #[trigger] removal_map(nodes).contains_key(key) <==> exists|i: int|
                0 <= i < nodes.len() && nodes[i].0.0 == key by {
            if removal_map(init).contains_key(key) {
                let i = choose|i: int| 0 <= i < init.len() && init[i].0.0 == key;
                assert(nodes[i] == init[i]);
            }
            if exists|i: int| 0 <= i < nodes.len() && nodes[i].0.0 == key {
                let i = choose|i: int| 0 <= i < nodes.len() && nodes[i].0.0 == key;
                if i < init.len() {
                    assert(init[i] == nodes[i]);
                }
            }
        }
        assert forall|i: int|
            0 <= i < nodes.len() && (forall|j: int| i < j < nodes.len() ==> nodes[j].0 != nodes[i].0)
                implies removal_map(nodes)[#[trigger] nodes[i].0.0] == nodes[i].1 by {
            if i < init.len() {
                assert(nodes[nodes.len() - 1].0 != nodes[i].0);
                assert(NodeId(last.0.0) == last.0);
                assert(NodeId(nodes[i].0.0) == nodes[i].0);
                assert(init[i] == nodes[i]);
                assert forall|j: int| i < j < init.len() implies init[j].0 != init[i].0 by {
                    assert(init[j] == nodes[j]);
                }
            }
        }
    }
}

/// A `DeleteRequested` for these nodes - each with the pass-through pins it
/// was drawn with - and these wires: wires touching a removed node go with
/// it, and the chains the nodes sat in are bridged.
pub fn delete_request<N>(
    graph: &Graph<N>,
    nodes: Vec<(NodeId, Option<(InputId, OutputId)>)>,
    wires: Vec<Wire>,
) -> (event: CanvasEvent)
    ensures
        match event {
            CanvasEvent::DeleteRequested { nodes: ids, wires: kept, bridges } => {
                &&& ids@ == nodes@.map_values(|entry: (NodeId, Option<(InputId, OutputId)>)| entry.0)
                &&& forall|key: u64| #[trigger]
                    removal_map(nodes@).contains_key(key) <==> ids@.contains(NodeId(key))
                &&& kept@ == wires@.filter(
                    |wire: Wire| !ids@.contains(wire.from.node) && !ids@.contains(wire.to.node),
                )
                &&& bridges@.no_duplicates()
                &&& forall|wire: Wire| #[trigger]
                    bridges@.contains(wire) <==> is_bridge(
                        graph.wire_list(),
                        removal_map(nodes@),
                        wire,
                    )
                &&& exists|keys: Seq<u64>|
                    in_increasing_order(keys, removal_map(nodes@).dom()) && bridges@
                        == #[trigger] bridge_list(graph.wire_list(), removal_map(nodes@), keys)
            },
            _ => false,
        },
{
    let mut ids: Vec<NodeId> = Vec::new();
    let mut removed: BTreeMap<u64, Option<(InputId, OutputId)>> = BTreeMap::new();
    for i in 0..nodes.len()
        invariant
            ids@ == nodes@.take(i as int).map_values(
                |entry: (NodeId, Option<(InputId, OutputId)>)| entry.0,
            ),
            removed@ == removal_map(nodes@.take(i as int)),
    {
        let (id, pins) = nodes[i];
        proof {
            assert(nodes@.take(i + 1).drop_last() =~= nodes@.take(i as int));
        }
        ids.push(id);
        removed.insert(id.0, pins);
        proof {
            assert(ids@ =~= nodes@.take(i + 1).map_values(
                |entry: (NodeId, Option<(InputId, OutputId)>)| entry.0,
            ));
        }
    }
    proof {
        assert(nodes@.take(nodes@.len() as int) =~= nodes@);
    }
    let ghost listed = ids@;
    let mut kept: Vec<Wire> = Vec::new();
    for i in 0..wires.len()
        invariant
            listed == ids@,
            kept@ == wires@.take(i as int).filter(
                |wire: Wire| !listed.contains(wire.from.node) && !listed.contains(wire.to.node),
            ),
    {
        let wire = wires[i];
        proof {
            crate::model::lemma_filter_step(
                wires@,
                i as int,
                |wire: Wire| !listed.contains(wire.from.node) && !listed.contains(wire.to.node),
            );
        }
        if !node_listed(&ids, wire.from.node) && !node_listed(&ids, wire.to.node) {
            kept.push(wire);
        }
    }
    proof {
        assert(wires@.take(wires@.len() as int) =~= wires@);
    }
    let bridges = graph.bridges_over(&removed);
    proof {
        lemma_removal_map_lists_all(nodes@);
        assert forall|key: u64| #[trigger]
            removal_map(nodes@).contains_key(key) <==> listed.contains(NodeId(key)) by {
            if removal_map(nodes@).contains_key(key) {
                let i = choose|i: int| 0 <= i < nodes@.len() && nodes@[i].0.0 == key;
                assert(listed[i] == nodes@[i].0);
                assert(NodeId(key) == nodes@[i].0);
            }
            if listed.contains(NodeId(key)) {
                let i = choose|i: int| 0 <= i < listed.len() && listed[i] == NodeId(key);
                assert(nodes@[i].0.0 == key);
            }
        }
    }
    CanvasEvent::DeleteRequested { bridges, nodes: ids, wires: kept }
}

/// Whether `id` is in the list.
fn node_listed(list: &Vec<NodeId>, id: NodeId) -> (found: bool)
    ensures
        found == list@.contains(id),
{
    let count = list.len();
    for i in 0..count
        invariant
            count == list@.len(),
            forall|j: int| 0 <= j < i ==> list@[j] != id,
    {
        if list[i] == id {
            return true;
        }
    }
    false
}

/// Whether a wire dragged from `origin` may land on `target`: one end an
/// output, the other an input, on two different nodes.
pub fn compatible(origin: AnyPin, target: AnyPin) -> (allowed: bool)
    ensures
        allowed == match (origin, target) {
            (AnyPin::Out(from), AnyPin::In(to)) => from.node != to.node,
            (AnyPin::In(to), AnyPin::Out(from)) => from.node != to.node,
            _ => false,
        },
{
    match (origin, target) {
        (AnyPin::Out(from), AnyPin::In(to)) | (AnyPin::In(to), AnyPin::Out(from)) => {
            can_connect(from, to)
        },
        _ => false,
    }
}

} // verus!
