use egui::pos2;
use egui_noodle::{
    Connected, ConnectionPolicy, Graph, IdInUse, InPin, InputId, Inserted, NodeId, OutPin, OutputId,
    UnknownNode, Wire,
};
use std::collections::HashSet;

fn in_pin(node: NodeId, input: u64) -> InPin {
    InPin {
        node,
        input: InputId(input),
    }
}

fn out_pin(node: NodeId, output: u64) -> OutPin {
    OutPin {
        node,
        output: OutputId(output),
    }
}

fn wire(from: OutPin, to: InPin) -> Wire {
    Wire { from, to }
}

fn wire_set(wires: &[Wire]) -> HashSet<Wire> {
    wires.iter().copied().collect()
}

#[test]
fn a_removed_node_id_is_never_handed_out_again() {
    let mut graph = Graph::new();
    let first = graph.add_node("a", pos2(0.0, 0.0));
    graph.remove_node(first);
    let second = graph.add_node("b", pos2(0.0, 0.0));

    assert_ne!(first, second);
    assert!(graph.node(first).is_none());
    assert_eq!(graph.node(second).map(|node| node.payload), Some("b"));
}

#[test]
fn restoring_an_id_keeps_later_ids_above_it() {
    let mut graph = Graph::new();
    assert_eq!(
        graph.add_node_with_id(NodeId(100), "restored", pos2(0.0, 0.0)),
        Ok(())
    );
    let minted = graph.add_node("fresh", pos2(0.0, 0.0));
    assert!(minted > NodeId(100));
    assert_eq!(
        graph.add_node_with_id(NodeId(100), "again", pos2(0.0, 0.0)),
        Err(IdInUse(NodeId(100)))
    );
}

#[test]
fn a_single_input_displaces_its_previous_wire() {
    let mut graph = Graph::new();
    let x = graph.add_node("x", pos2(0.0, 0.0));
    let y = graph.add_node("y", pos2(0.0, 0.0));
    let target = graph.add_node("target", pos2(0.0, 0.0));
    let input = in_pin(target, 0);

    graph
        .connect(out_pin(x, 0), input, ConnectionPolicy::Single)
        .unwrap();
    let outcome = graph
        .connect(out_pin(y, 0), input, ConnectionPolicy::Single)
        .unwrap();

    assert_eq!(
        outcome,
        Connected::New {
            displaced: vec![wire(out_pin(x, 0), input)]
        }
    );
    assert_eq!(graph.sources_of(input), vec![out_pin(y, 0)]);
}

#[test]
fn a_multiple_input_keeps_every_wire() {
    let mut graph = Graph::new();
    let x = graph.add_node("x", pos2(0.0, 0.0));
    let y = graph.add_node("y", pos2(0.0, 0.0));
    let target = graph.add_node("target", pos2(0.0, 0.0));
    let input = in_pin(target, 0);

    graph
        .connect(out_pin(x, 0), input, ConnectionPolicy::Multiple)
        .unwrap();
    let outcome = graph
        .connect(out_pin(y, 0), input, ConnectionPolicy::Multiple)
        .unwrap();

    assert_eq!(outcome, Connected::New { displaced: vec![] });
    assert_eq!(graph.sources_of(input).len(), 2);
}

#[test]
fn connecting_the_same_wire_twice_changes_nothing() {
    let mut graph = Graph::new();
    let a = graph.add_node("a", pos2(0.0, 0.0));
    let b = graph.add_node("b", pos2(0.0, 0.0));

    graph
        .connect(out_pin(a, 0), in_pin(b, 0), ConnectionPolicy::Single)
        .unwrap();
    let revision = graph.topology_revision();
    let outcome = graph
        .connect(out_pin(a, 0), in_pin(b, 0), ConnectionPolicy::Single)
        .unwrap();

    assert_eq!(outcome, Connected::AlreadyExisted);
    assert_eq!(graph.wires().len(), 1);
    assert_eq!(graph.topology_revision(), revision);
}

#[test]
fn connecting_to_a_missing_node_is_an_error() {
    let mut graph = Graph::new();
    let a = graph.add_node("a", pos2(0.0, 0.0));
    let gone = graph.add_node("gone", pos2(0.0, 0.0));
    graph.remove_node(gone);

    assert_eq!(
        graph.connect(out_pin(a, 0), in_pin(gone, 0), ConnectionPolicy::Single),
        Err(UnknownNode(gone))
    );
    assert!(graph.wires().is_empty());
}

/// The contract undo relies on: what `remove_node` hands back, fed to
/// `add_node_with_id` and `connect`, rebuilds the graph exactly.
#[test]
fn a_removed_node_can_be_put_back_exactly() {
    let mut graph = Graph::new();
    let upstream = graph.add_node("upstream", pos2(0.0, 0.0));
    let middle = graph.add_node("middle", pos2(10.0, 20.0));
    let downstream = graph.add_node("downstream", pos2(0.0, 0.0));
    graph
        .connect(
            out_pin(upstream, 0),
            in_pin(middle, 0),
            ConnectionPolicy::Single,
        )
        .unwrap();
    graph
        .connect(
            out_pin(middle, 0),
            in_pin(downstream, 0),
            ConnectionPolicy::Single,
        )
        .unwrap();
    graph
        .connect(
            out_pin(middle, 1),
            in_pin(downstream, 1),
            ConnectionPolicy::Single,
        )
        .unwrap();
    let before = wire_set(graph.wires());

    let removed = graph.remove_node(middle).unwrap();
    assert_eq!(removed.node.payload, "middle");
    assert_eq!(removed.node.pos, pos2(10.0, 20.0));
    assert_eq!(removed.wires.len(), 3, "incoming and outgoing wires alike");
    assert!(graph.wires().is_empty());
    assert!(graph.remove_node(middle).is_none(), "already gone");

    graph
        .add_node_with_id(middle, removed.node.payload, removed.node.pos)
        .unwrap();
    for wire in removed.wires {
        graph
            .connect(wire.from, wire.to, ConnectionPolicy::Multiple)
            .unwrap();
    }
    assert_eq!(wire_set(graph.wires()), before);
}

#[test]
fn disconnecting_reports_whether_the_wire_existed() {
    let mut graph = Graph::new();
    let a = graph.add_node("a", pos2(0.0, 0.0));
    let b = graph.add_node("b", pos2(0.0, 0.0));
    let ab = wire(out_pin(a, 0), in_pin(b, 0));
    graph
        .connect(ab.from, ab.to, ConnectionPolicy::Single)
        .unwrap();

    assert!(graph.disconnect(ab));
    assert!(graph.wires().is_empty());
    assert!(!graph.disconnect(ab));
}

/// Why there are two revisions: a drag must not look like an edit to a
/// consumer that recompiles on topology changes.
#[test]
fn moving_a_node_bumps_layout_but_not_topology() {
    let mut graph = Graph::new();
    let a = graph.add_node("a", pos2(0.0, 0.0));
    let b = graph.add_node("b", pos2(0.0, 0.0));
    let (topology, layout) = (graph.topology_revision(), graph.layout_revision());

    assert_eq!(graph.set_pos(a, pos2(5.0, 5.0)), Some(pos2(0.0, 0.0)));
    assert_eq!(graph.topology_revision(), topology);
    assert_ne!(graph.layout_revision(), layout);

    let layout = graph.layout_revision();
    graph
        .connect(out_pin(a, 0), in_pin(b, 0), ConnectionPolicy::Single)
        .unwrap();
    assert_ne!(graph.topology_revision(), topology);
    assert_eq!(graph.layout_revision(), layout);
}

#[test]
fn a_node_can_be_spliced_into_a_wire() {
    let mut graph = Graph::new();
    let a = graph.add_node("a", pos2(0.0, 0.0));
    let c = graph.add_node("c", pos2(0.0, 0.0));
    let ac = wire(out_pin(a, 0), in_pin(c, 0));
    graph
        .connect(ac.from, ac.to, ConnectionPolicy::Single)
        .unwrap();
    let b = graph.add_node("b", pos2(0.0, 0.0));

    let outcome = graph
        .insert_into_wire(ac, b, InputId(7), ConnectionPolicy::Single, OutputId(3))
        .unwrap();

    assert_eq!(outcome, Inserted::Done { displaced: vec![] });
    assert_eq!(
        wire_set(graph.wires()),
        wire_set(&[
            wire(out_pin(a, 0), in_pin(b, 7)),
            wire(out_pin(b, 3), in_pin(c, 0)),
        ])
    );
}

#[test]
fn splicing_into_a_wire_that_no_longer_exists_changes_nothing() {
    let mut graph = Graph::new();
    let a = graph.add_node("a", pos2(0.0, 0.0));
    let b = graph.add_node("b", pos2(0.0, 0.0));
    let c = graph.add_node("c", pos2(0.0, 0.0));
    let never_connected = wire(out_pin(a, 0), in_pin(c, 0));

    let outcome = graph.insert_into_wire(
        never_connected,
        b,
        InputId(0),
        ConnectionPolicy::Single,
        OutputId(0),
    );

    assert_eq!(outcome, Ok(Inserted::WireGone));
    assert!(graph.wires().is_empty(), "no half-applied splice");
}
