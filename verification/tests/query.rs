use egui::pos2;
use egui_noodle::{ConnectionPolicy, Graph, InPin, InputId, NodeId, OutPin, OutputId, Wire};
use std::collections::BTreeMap;

fn link<N>(graph: &mut Graph<N>, from: NodeId, to: NodeId) {
    graph
        .connect(
            OutPin {
                node: from,
                output: OutputId(0),
            },
            InPin {
                node: to,
                input: InputId(0),
            },
            ConnectionPolicy::Multiple,
        )
        .unwrap();
}

fn wire(from: NodeId, to: NodeId) -> Wire {
    Wire {
        from: OutPin {
            node: from,
            output: OutputId(0),
        },
        to: InPin {
            node: to,
            input: InputId(0),
        },
    }
}

/// Every node passes through its pin 0 to its pin 0.
fn pass_through(nodes: &[NodeId]) -> BTreeMap<u64, Option<(InputId, OutputId)>> {
    nodes
        .iter()
        .map(|node| (node.0, Some((InputId(0), OutputId(0)))))
        .collect()
}

#[test]
fn downstream_follows_wires_forward_only() {
    let mut graph = Graph::new();
    let a = graph.add_node((), pos2(0.0, 0.0));
    let b = graph.add_node((), pos2(0.0, 0.0));
    let c = graph.add_node((), pos2(0.0, 0.0));
    let unrelated = graph.add_node((), pos2(0.0, 0.0));
    link(&mut graph, a, b);
    link(&mut graph, b, c);
    link(&mut graph, unrelated, c);

    assert_eq!(graph.downstream_nodes(a), vec![b, c]);
    assert!(graph.downstream_nodes(c).is_empty());
    assert_eq!(graph.downstream_nodes(unrelated), vec![c]);
}

#[test]
fn upstream_follows_wires_backward_only() {
    let mut graph = Graph::new();
    let a = graph.add_node((), pos2(0.0, 0.0));
    let b = graph.add_node((), pos2(0.0, 0.0));
    let c = graph.add_node((), pos2(0.0, 0.0));
    let unrelated = graph.add_node((), pos2(0.0, 0.0));
    link(&mut graph, a, b);
    link(&mut graph, b, c);
    link(&mut graph, a, unrelated);

    assert_eq!(graph.upstream_nodes(c), vec![a, b]);
    assert!(graph.upstream_nodes(a).is_empty());
    assert_eq!(graph.upstream_nodes(unrelated), vec![a]);
}

#[test]
fn downstream_terminates_on_a_cycle() {
    let mut graph = Graph::new();
    let a = graph.add_node((), pos2(0.0, 0.0));
    let b = graph.add_node((), pos2(0.0, 0.0));
    link(&mut graph, a, b);
    link(&mut graph, b, a);

    assert_eq!(
        graph.downstream_nodes(a),
        vec![a, b],
        "a reaches itself around the loop"
    );
}

#[test]
fn removing_the_middle_of_a_chain_bridges_its_ends() {
    let mut graph = Graph::new();
    let a = graph.add_node((), pos2(0.0, 0.0));
    let b = graph.add_node((), pos2(0.0, 0.0));
    let c = graph.add_node((), pos2(0.0, 0.0));
    link(&mut graph, a, b);
    link(&mut graph, b, c);

    assert_eq!(graph.bridges_over(&pass_through(&[b])), vec![wire(a, c)]);
}

#[test]
fn removing_several_chained_nodes_bridges_over_all_of_them() {
    let mut graph = Graph::new();
    let a = graph.add_node((), pos2(0.0, 0.0));
    let b = graph.add_node((), pos2(0.0, 0.0));
    let c = graph.add_node((), pos2(0.0, 0.0));
    let d = graph.add_node((), pos2(0.0, 0.0));
    link(&mut graph, a, b);
    link(&mut graph, b, c);
    link(&mut graph, c, d);

    assert_eq!(graph.bridges_over(&pass_through(&[b, c])), vec![wire(a, d)]);
}

#[test]
fn a_removed_node_feeding_two_targets_bridges_to_both() {
    let mut graph = Graph::new();
    let a = graph.add_node((), pos2(0.0, 0.0));
    let b = graph.add_node((), pos2(0.0, 0.0));
    let c = graph.add_node((), pos2(0.0, 0.0));
    let d = graph.add_node((), pos2(0.0, 0.0));
    link(&mut graph, a, b);
    link(&mut graph, b, c);
    link(&mut graph, b, d);

    assert_eq!(
        graph.bridges_over(&pass_through(&[b])),
        vec![wire(a, c), wire(a, d)]
    );
}

#[test]
fn a_node_without_pass_through_pins_breaks_the_chain() {
    let mut graph = Graph::new();
    let a = graph.add_node((), pos2(0.0, 0.0));
    let b = graph.add_node((), pos2(0.0, 0.0));
    let c = graph.add_node((), pos2(0.0, 0.0));
    link(&mut graph, a, b);
    link(&mut graph, b, c);

    assert!(
        graph
            .bridges_over(&[(b.0, None)].into_iter().collect())
            .is_empty()
    );
}

/// Only the wire into the pass-through input and out of the pass-through
/// output are bridged; a wire into some other input of the removed node
/// simply goes.
#[test]
fn only_the_pass_through_pins_are_bridged() {
    let mut graph = Graph::new();
    let a = graph.add_node((), pos2(0.0, 0.0));
    let side = graph.add_node((), pos2(0.0, 0.0));
    let b = graph.add_node((), pos2(0.0, 0.0));
    let c = graph.add_node((), pos2(0.0, 0.0));
    link(&mut graph, a, b);
    graph
        .connect(
            OutPin {
                node: side,
                output: OutputId(0),
            },
            InPin {
                node: b,
                input: InputId(1),
            },
            ConnectionPolicy::Multiple,
        )
        .unwrap();
    link(&mut graph, b, c);

    assert_eq!(graph.bridges_over(&pass_through(&[b])), vec![wire(a, c)]);
}

#[test]
fn a_bridge_never_loops_a_node_into_itself_and_never_duplicates_a_wire() {
    let mut graph = Graph::new();
    let a = graph.add_node((), pos2(0.0, 0.0));
    let b = graph.add_node((), pos2(0.0, 0.0));
    link(&mut graph, a, b);
    link(&mut graph, b, a);
    assert!(graph.bridges_over(&pass_through(&[b])).is_empty());

    let mut graph = Graph::new();
    let a = graph.add_node((), pos2(0.0, 0.0));
    let b = graph.add_node((), pos2(0.0, 0.0));
    let c = graph.add_node((), pos2(0.0, 0.0));
    link(&mut graph, a, b);
    link(&mut graph, b, c);
    link(&mut graph, a, c);
    assert!(graph.bridges_over(&pass_through(&[b])).is_empty());
}

#[test]
fn bridges_come_out_source_by_source_in_connection_order() {
    let mut graph = Graph::new();
    let a1 = graph.add_node((), pos2(0.0, 0.0));
    let a2 = graph.add_node((), pos2(0.0, 0.0));
    let b = graph.add_node((), pos2(0.0, 0.0));
    let c1 = graph.add_node((), pos2(0.0, 0.0));
    let c2 = graph.add_node((), pos2(0.0, 0.0));
    link(&mut graph, a2, b);
    link(&mut graph, a1, b);
    link(&mut graph, b, c2);
    link(&mut graph, b, c1);

    let bridges = graph.bridges_over(&pass_through(&[b]));

    assert_eq!(
        bridges,
        vec![wire(a2, c2), wire(a2, c1), wire(a1, c2), wire(a1, c1)]
    );
}

#[test]
fn bridges_follow_the_removed_nodes_in_id_order() {
    // a -> b -> c and d -> e -> f, with b and e removed.
    let mut graph = Graph::new();
    let ids: Vec<NodeId> = (0..6).map(|_| graph.add_node((), pos2(0.0, 0.0))).collect();
    let (a, b, c, d, e, f) = (ids[0], ids[1], ids[2], ids[3], ids[4], ids[5]);
    link(&mut graph, d, e);
    link(&mut graph, e, f);
    link(&mut graph, a, b);
    link(&mut graph, b, c);

    let bridges = graph.bridges_over(&pass_through(&[e, b]));

    assert_eq!(bridges, vec![wire(a, c), wire(d, f)]);
}
