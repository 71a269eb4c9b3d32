use egui::pos2;
use egui_noodle::{
    AnyPin, CanvasEvent, CanvasStats, ConnectionPolicy, Graph, Hovered, InPin, InputId,
    InsertTarget, NodeId, NodeMove, OutPin, OutputId, PinShape, Selection, Wire, can_connect,
    compatible, delete_request, insert_target, key_of, raise, release_nodes, release_wire,
    sliding_sides, sync_draw_order, wire_of,
};
use std::collections::BTreeMap;

fn out_pin(node: NodeId, output: u64) -> OutPin {
    OutPin {
        node,
        output: OutputId(output),
    }
}

fn in_pin(node: NodeId, input: u64) -> InPin {
    InPin {
        node,
        input: InputId(input),
    }
}

fn wire(from: NodeId, to: NodeId) -> Wire {
    Wire {
        from: out_pin(from, 0),
        to: in_pin(to, 0),
    }
}

fn chain() -> (Graph<&'static str>, NodeId, NodeId, NodeId) {
    let mut graph = Graph::new();
    let a = graph.add_node("a", pos2(0.0, 0.0));
    let b = graph.add_node("b", pos2(100.0, 0.0));
    let c = graph.add_node("c", pos2(200.0, 0.0));
    graph
        .connect(out_pin(a, 0), in_pin(b, 0), ConnectionPolicy::Single)
        .unwrap();
    graph
        .connect(out_pin(b, 0), in_pin(c, 0), ConnectionPolicy::Single)
        .unwrap();
    (graph, a, b, c)
}

#[test]
fn toggling_a_node_twice_leaves_the_selection_as_it_was() {
    let mut selection = Selection::default();
    assert!(selection.is_empty());
    selection.toggle_node(NodeId(3));
    assert!(selection.contains_node(NodeId(3)));
    assert!(!selection.is_empty());
    selection.toggle_node(NodeId(3));
    assert!(!selection.contains_node(NodeId(3)));
    assert!(selection.is_empty());
}

#[test]
fn toggling_a_wire_selects_it_and_its_key_gives_it_back() {
    let mut selection = Selection::default();
    let ab = wire(NodeId(1), NodeId(2));
    selection.toggle_wire(ab);
    assert!(selection.contains_wire(ab));
    assert!(!selection.contains_wire(wire(NodeId(2), NodeId(1))));
    assert_eq!(wire_of(key_of(ab)), ab);
    selection.toggle_wire(ab);
    assert!(selection.is_empty());
}

#[test]
fn extending_a_selection_adds_the_other_one() {
    let mut first = Selection::default();
    first.toggle_node(NodeId(1));
    let mut second = Selection::default();
    second.toggle_node(NodeId(2));
    second.toggle_wire(wire(NodeId(1), NodeId(2)));
    first.extend(&second);
    assert!(first.contains_node(NodeId(1)));
    assert!(first.contains_node(NodeId(2)));
    assert!(first.contains_wire(wire(NodeId(1), NodeId(2))));
    first.clear();
    assert!(first.is_empty());
}

#[test]
fn retaining_drops_what_the_graph_no_longer_holds() {
    let (mut graph, a, b, c) = chain();
    let mut selection = Selection::default();
    selection.toggle_node(a);
    selection.toggle_node(b);
    selection.toggle_wire(wire(a, b));
    selection.toggle_wire(wire(b, c));
    graph.remove_node(a);
    selection.retain_present(&graph);
    assert!(!selection.contains_node(a));
    assert!(selection.contains_node(b));
    assert!(!selection.contains_wire(wire(a, b)));
    assert!(selection.contains_wire(wire(b, c)));
}

#[test]
fn applying_a_move_sets_positions_and_bumps_layout_only() {
    let (mut graph, a, b, _) = chain();
    let (topology, layout) = (graph.topology_revision(), graph.layout_revision());
    graph.apply(&CanvasEvent::NodesMoved {
        moves: vec![
            NodeMove {
                id: a,
                from: pos2(0.0, 0.0),
                to: pos2(7.0, 8.0),
            },
            NodeMove {
                id: b,
                from: pos2(100.0, 0.0),
                to: pos2(100.0, 0.0),
            },
        ],
    });
    assert_eq!(graph.node(a).unwrap().pos, pos2(7.0, 8.0));
    assert_eq!(graph.node(b).unwrap().pos, pos2(100.0, 0.0));
    assert_eq!(graph.layout_revision(), layout + 1);
    assert_eq!(graph.topology_revision(), topology);
}

#[test]
fn applying_a_delete_closes_the_chain_over_the_node() {
    let (mut graph, a, b, c) = chain();
    let event = delete_request(&graph, vec![(b, Some((InputId(0), OutputId(0))))], vec![]);
    assert_eq!(
        event,
        CanvasEvent::DeleteRequested {
            nodes: vec![b],
            wires: vec![],
            bridges: vec![wire(a, c)],
        }
    );
    graph.apply(&event);
    assert!(!graph.contains(b));
    assert_eq!(graph.wires(), &[wire(a, c)]);
}

#[test]
fn a_delete_request_drops_the_wires_of_deleted_nodes() {
    let (graph, a, b, c) = chain();
    let event = delete_request(&graph, vec![(b, None)], vec![wire(a, b), wire(a, c)]);
    assert_eq!(
        event,
        CanvasEvent::DeleteRequested {
            nodes: vec![b],
            wires: vec![wire(a, c)],
            bridges: vec![],
        }
    );
}

#[test]
fn applying_a_connect_request_connects() {
    let (mut graph, a, _, c) = chain();
    graph.apply(&CanvasEvent::ConnectRequested {
        from: out_pin(a, 1),
        to: in_pin(c, 0),
        policy: ConnectionPolicy::Single,
    });
    assert_eq!(graph.sources_of(in_pin(c, 0)), vec![out_pin(a, 1)]);
}

#[test]
fn applying_a_drop_on_a_wire_splices_the_node_in() {
    let (mut graph, a, b, _) = chain();
    let d = graph.add_node("d", pos2(50.0, 50.0));
    graph.apply(&CanvasEvent::NodeDroppedOnWire {
        wire: wire(a, b),
        node: d,
        input: InputId(0),
        input_policy: ConnectionPolicy::Single,
        output: OutputId(0),
    });
    assert!(!graph.wires().contains(&wire(a, b)));
    assert!(graph.wires().contains(&wire(a, d)));
    assert!(graph.wires().contains(&wire(d, b)));
}

#[test]
fn a_question_for_the_application_changes_nothing() {
    let (mut graph, a, _, _) = chain();
    let (topology, layout) = (graph.topology_revision(), graph.layout_revision());
    let event = CanvasEvent::WireDropped {
        from: AnyPin::Out(out_pin(a, 0)),
        pos: pos2(1.0, 2.0),
    };
    assert_eq!(event.clone(), event);
    graph.apply(&event);
    graph.apply(&CanvasEvent::ContextMenuRequested { pos: pos2(3.0, 4.0) });
    assert_eq!(graph.wires().len(), 2);
    assert_eq!(graph.topology_revision(), topology);
    assert_eq!(graph.layout_revision(), layout);
}

#[test]
fn a_wire_never_connects_a_node_to_itself() {
    assert!(!can_connect(out_pin(NodeId(1), 0), in_pin(NodeId(1), 0)));
    assert!(can_connect(out_pin(NodeId(1), 0), in_pin(NodeId(2), 0)));
    assert!(compatible(
        AnyPin::In(in_pin(NodeId(2), 0)),
        AnyPin::Out(out_pin(NodeId(1), 0))
    ));
    assert!(!compatible(
        AnyPin::Out(out_pin(NodeId(2), 0)),
        AnyPin::Out(out_pin(NodeId(1), 0))
    ));
    assert!(!compatible(
        AnyPin::In(in_pin(NodeId(1), 0)),
        AnyPin::Out(out_pin(NodeId(1), 0))
    ));
}

#[test]
fn releasing_a_wire_drag_asks_for_what_it_landed_on() {
    let from = out_pin(NodeId(1), 0);
    let to = in_pin(NodeId(2), 3);
    assert_eq!(
        release_wire(
            AnyPin::Out(from),
            Some(AnyPin::In(to)),
            pos2(0.0, 0.0),
            None,
            Some(ConnectionPolicy::Multiple)
        ),
        Some(CanvasEvent::ConnectRequested {
            from,
            to,
            policy: ConnectionPolicy::Multiple
        })
    );
    assert_eq!(
        release_wire(
            AnyPin::In(to),
            Some(AnyPin::Out(from)),
            pos2(0.0, 0.0),
            Some(ConnectionPolicy::Single),
            None
        ),
        Some(CanvasEvent::ConnectRequested {
            from,
            to,
            policy: ConnectionPolicy::Single
        })
    );
    assert_eq!(
        release_wire(AnyPin::In(to), None, pos2(5.0, 6.0), None, None),
        Some(CanvasEvent::WireDropped {
            from: AnyPin::In(to),
            pos: pos2(5.0, 6.0)
        })
    );
    assert_eq!(
        release_wire(
            AnyPin::Out(from),
            Some(AnyPin::Out(from)),
            pos2(0.0, 0.0),
            None,
            None
        ),
        None
    );
    assert_eq!(
        release_wire(
            AnyPin::Out(from),
            Some(AnyPin::In(in_pin(NodeId(1), 0))),
            pos2(0.0, 0.0),
            None,
            Some(ConnectionPolicy::Single)
        ),
        None
    );
}

#[test]
fn the_draw_order_follows_the_graph_once_per_revision() {
    let (mut graph, a, b, c) = chain();
    let mut order = vec![c, NodeId(99)];
    let mut synced = None;
    sync_draw_order(&mut order, &mut synced, &graph);
    assert_eq!(order, vec![c, a, b]);
    assert_eq!(synced, Some(graph.topology_revision()));
    order.reverse();
    sync_draw_order(&mut order, &mut synced, &graph);
    assert_eq!(order, vec![b, a, c], "already in line: left alone");
    graph.remove_node(a);
    sync_draw_order(&mut order, &mut synced, &graph);
    assert_eq!(order, vec![b, c]);
}

#[test]
fn raising_a_node_puts_it_on_top() {
    let mut order = vec![NodeId(1), NodeId(2), NodeId(3)];
    raise(&mut order, NodeId(1));
    assert_eq!(order, vec![NodeId(2), NodeId(3), NodeId(1)]);
    raise(&mut order, NodeId(7));
    assert_eq!(order, vec![NodeId(2), NodeId(3), NodeId(1)]);
}

#[test]
fn nodes_come_out_in_id_order_and_can_be_changed_in_place() {
    let mut graph = Graph::new();
    graph
        .add_node_with_id(NodeId(5), "five", pos2(0.0, 0.0))
        .unwrap();
    let first = graph.add_node("six", pos2(0.0, 0.0));
    graph
        .add_node_with_id(NodeId(2), "two", pos2(0.0, 0.0))
        .unwrap();
    assert_eq!(first, NodeId(6));
    let ids: Vec<NodeId> = graph.nodes().iter().map(|(id, _)| *id).collect();
    assert_eq!(ids, vec![NodeId(2), NodeId(5), NodeId(6)]);
    graph.node_mut(NodeId(2)).unwrap().payload = "deux";
    assert_eq!(graph.node(NodeId(2)).unwrap().payload, "deux");
    assert!(graph.node_mut(NodeId(3)).is_none());
}

#[test]
fn setting_a_position_bumps_layout_only_when_it_changes() {
    let mut graph = Graph::new();
    let a = graph.add_node((), pos2(1.0, 2.0));
    let layout = graph.layout_revision();
    assert_eq!(graph.set_pos(a, pos2(1.0, 2.0)), Some(pos2(1.0, 2.0)));
    assert_eq!(graph.layout_revision(), layout);
    assert_eq!(graph.set_pos(a, pos2(1.0, 3.0)), Some(pos2(1.0, 2.0)));
    assert_eq!(graph.layout_revision(), layout + 1);
    assert_eq!(graph.set_pos(NodeId(40), pos2(0.0, 0.0)), None);
    assert_eq!(graph.layout_revision(), layout + 1);
}

#[test]
fn a_nan_position_counts_as_a_move() {
    let mut graph = Graph::new();
    let a = graph.add_node((), pos2(1.0, 2.0));
    let layout = graph.layout_revision();
    graph.set_pos(a, pos2(f32::NAN, 0.0));
    assert_eq!(graph.layout_revision(), layout + 1);
    graph.set_pos(a, pos2(f32::NAN, 0.0));
    assert_eq!(graph.layout_revision(), layout + 2);
}

#[test]
fn the_largest_id_can_be_restored() {
    let mut graph = Graph::default();
    assert_eq!(
        graph.add_node_with_id(NodeId(u64::MAX), (), pos2(0.0, 0.0)),
        Ok(())
    );
    assert!(graph.contains(NodeId(u64::MAX)));
}

#[test]
fn targets_are_listed_in_connection_order() {
    let (mut graph, a, b, c) = chain();
    graph
        .connect(out_pin(a, 0), in_pin(c, 1), ConnectionPolicy::Multiple)
        .unwrap();
    assert_eq!(graph.targets_of(out_pin(a, 0)), vec![in_pin(b, 0), in_pin(c, 1)]);
}

#[test]
fn downstream_of_one_node_is_upstream_of_the_other() {
    let (graph, a, b, c) = chain();
    assert_eq!(graph.downstream_nodes(a), vec![b, c]);
    assert_eq!(graph.upstream_nodes(c), vec![a, b]);
    assert!(graph.upstream_nodes(b).contains(&a));
}

#[test]
fn a_single_policy_splice_reports_what_it_displaced() {
    let (mut graph, a, b, c) = chain();
    graph
        .connect(out_pin(c, 0), in_pin(a, 0), ConnectionPolicy::Single)
        .unwrap();
    let d = graph.add_node("d", pos2(0.0, 0.0));
    graph
        .connect(out_pin(c, 1), in_pin(d, 0), ConnectionPolicy::Single)
        .unwrap();
    let outcome = graph
        .insert_into_wire(wire(a, b), d, InputId(0), ConnectionPolicy::Single, OutputId(0))
        .unwrap();
    assert_eq!(
        outcome,
        egui_noodle::Inserted::Done {
            displaced: vec![Wire {
                from: out_pin(c, 1),
                to: in_pin(d, 0)
            }]
        }
    );
    assert_eq!(
        graph.insert_into_wire(wire(a, b), NodeId(77), InputId(0), ConnectionPolicy::Single, OutputId(0)),
        Err(egui_noodle::UnknownNode(NodeId(77)))
    );
}

#[test]
fn releasing_a_drag_reports_only_what_moved_in_one_event() {
    let (a, b, c) = (NodeId(1), NodeId(2), NodeId(3));
    let start = vec![(a, pos2(0.0, 0.0)), (b, pos2(10.0, 0.0)), (c, pos2(20.0, 0.0))];
    let mut targets = BTreeMap::new();
    targets.insert(1, pos2(5.0, 5.0));
    targets.insert(2, pos2(10.0, 0.0));
    targets.insert(3, pos2(25.0, 0.0));

    let events = release_nodes(&start, &targets, None, None, None);

    assert_eq!(
        events,
        vec![CanvasEvent::NodesMoved {
            moves: vec![
                NodeMove {
                    id: a,
                    from: pos2(0.0, 0.0),
                    to: pos2(5.0, 5.0),
                },
                NodeMove {
                    id: c,
                    from: pos2(20.0, 0.0),
                    to: pos2(25.0, 0.0),
                },
            ],
        }]
    );
}

#[test]
fn a_drag_that_moved_nothing_reports_nothing() {
    let start = vec![(NodeId(1), pos2(3.0, 4.0))];
    let mut targets = BTreeMap::new();
    targets.insert(1, pos2(3.0, 4.0));
    assert!(release_nodes(&start, &targets, None, Some(NodeId(1)), None).is_empty());
}

#[test]
fn dropping_a_node_on_a_wire_it_fits_splices_it_after_the_move() {
    let node = NodeId(5);
    let target = wire(NodeId(1), NodeId(2));
    let start = vec![(node, pos2(0.0, 0.0))];
    let mut targets = BTreeMap::new();
    targets.insert(5, pos2(50.0, 0.0));
    let splice = Some((InputId(0), ConnectionPolicy::Single, OutputId(1)));

    let events = release_nodes(
        &start,
        &targets,
        Some(InsertTarget {
            wire: target,
            valid: true,
        }),
        Some(node),
        splice,
    );

    assert_eq!(events.len(), 2);
    assert_eq!(
        events[1],
        CanvasEvent::NodeDroppedOnWire {
            wire: target,
            node,
            input: InputId(0),
            input_policy: ConnectionPolicy::Single,
            output: OutputId(1),
        }
    );
    // A wire the node cannot go into takes nothing.
    let refused = release_nodes(
        &start,
        &targets,
        Some(InsertTarget {
            wire: target,
            valid: false,
        }),
        Some(node),
        splice,
    );
    assert_eq!(refused.len(), 1);
    assert!(matches!(refused[0], CanvasEvent::NodesMoved { .. }));
}

#[test]
fn making_room_slides_downstream_right_and_upstream_left() {
    // a -> b -> c -> d, with x spliced into b -> c.
    let mut graph: Graph<&str> = Graph::new();
    let a = graph.add_node("a", pos2(0.0, 0.0));
    let b = graph.add_node("b", pos2(100.0, 0.0));
    let c = graph.add_node("c", pos2(200.0, 0.0));
    let d = graph.add_node("d", pos2(300.0, 0.0));
    let x = graph.add_node("x", pos2(150.0, 0.0));
    for (from, to) in [(a, b), (b, c), (c, d)] {
        graph
            .connect(out_pin(from, 0), in_pin(to, 0), ConnectionPolicy::Single)
            .unwrap();
    }
    let spliced = wire(b, c);

    let mut both = sliding_sides(&graph, x, spliced, true, true);
    both.sort();
    assert_eq!(both, vec![(a, false), (b, false), (c, true), (d, true)]);

    let right_only = sliding_sides(&graph, x, spliced, true, false);
    assert_eq!(right_only.len(), 2);
    assert!(right_only.contains(&(c, true)) && right_only.contains(&(d, true)));

    assert!(sliding_sides(&graph, x, spliced, false, false).is_empty());
}

#[test]
fn a_node_on_both_sides_slides_with_the_downstream_side() {
    // a -> b -> a: a cycle, so each is downstream and upstream of the other.
    let mut graph: Graph<&str> = Graph::new();
    let a = graph.add_node("a", pos2(0.0, 0.0));
    let b = graph.add_node("b", pos2(100.0, 0.0));
    let x = graph.add_node("x", pos2(50.0, 0.0));
    graph
        .connect(out_pin(a, 0), in_pin(b, 0), ConnectionPolicy::Single)
        .unwrap();
    graph
        .connect(out_pin(b, 0), in_pin(a, 0), ConnectionPolicy::Single)
        .unwrap();

    let mut sides = sliding_sides(&graph, x, wire(a, b), true, true);
    sides.sort();
    assert_eq!(sides, vec![(a, true), (b, true)]);
}

#[test]
fn nothing_is_hovered_and_nothing_counted_to_begin_with() {
    let hovered = Hovered::default();
    assert!(hovered.wire.is_none() && hovered.pin.is_none());
    let stats = CanvasStats::default();
    assert_eq!((stats.nodes, stats.culled, stats.wires), (0, 0, 0));
    assert_ne!(PinShape::Circle, PinShape::Square);
}

#[test]
fn a_delete_keeps_the_survivors_in_order_and_counts_each_change_once() {
    let mut graph: Graph<&str> = Graph::new();
    let a = graph.add_node("a", pos2(0.0, 0.0));
    let b = graph.add_node("b", pos2(100.0, 0.0));
    let c = graph.add_node("c", pos2(200.0, 0.0));
    let d = graph.add_node("d", pos2(200.0, 100.0));
    for (from, to) in [(a, d), (a, b), (b, c), (c, d)] {
        graph
            .connect(out_pin(from, 0), in_pin(to, 0), ConnectionPolicy::Multiple)
            .unwrap();
    }
    let before = graph.topology_revision();

    // The wire a -> d listed twice, node b listed twice, a bridge that is
    // already there and one into a node that goes.
    graph.apply(&CanvasEvent::DeleteRequested {
        nodes: vec![b, b],
        wires: vec![wire(a, d), wire(a, d)],
        bridges: vec![wire(a, c), wire(c, d), wire(a, b), wire(a, c)],
    });

    assert_eq!(graph.wires(), &[wire(c, d), wire(a, c)]);
    // One for a -> d, one for b, one for the new bridge a -> c.
    assert_eq!(graph.topology_revision(), before + 3);
}

#[test]
fn clicking_a_node_selects_it_alone_and_a_command_click_toggles_it() {
    let mut selection = Selection::default();
    selection.toggle_wire(wire(NodeId(1), NodeId(2)));
    selection.click_node(NodeId(4), false);
    assert!(selection.contains_node(NodeId(4)));
    assert!(!selection.contains_wire(wire(NodeId(1), NodeId(2))));

    selection.click_node(NodeId(5), true);
    assert!(selection.contains_node(NodeId(4)) && selection.contains_node(NodeId(5)));
    selection.click_node(NodeId(4), true);
    assert!(!selection.contains_node(NodeId(4)) && selection.contains_node(NodeId(5)));
}

#[test]
fn dragging_a_selected_node_keeps_the_selection_and_another_replaces_it() {
    let mut selection = Selection::default();
    selection.toggle_node(NodeId(1));
    selection.toggle_node(NodeId(2));
    let before = selection.clone();
    selection.press_node(NodeId(2));
    assert_eq!(selection, before);
    selection.press_node(NodeId(3));
    assert!(selection.contains_node(NodeId(3)));
    assert!(!selection.contains_node(NodeId(1)) && !selection.contains_node(NodeId(2)));
}

#[test]
fn clicking_the_background_picks_the_hovered_wire_or_clears() {
    let ab = wire(NodeId(1), NodeId(2));
    let cd = wire(NodeId(3), NodeId(4));
    let mut selection = Selection::default();
    selection.toggle_node(NodeId(9));

    selection.click_background(Some(ab), false);
    assert!(selection.contains_wire(ab) && !selection.contains_node(NodeId(9)));
    selection.click_background(Some(cd), true);
    assert!(selection.contains_wire(ab) && selection.contains_wire(cd));
    selection.click_background(Some(ab), true);
    assert!(!selection.contains_wire(ab) && selection.contains_wire(cd));

    let before = selection.clone();
    selection.click_background(None, true);
    assert_eq!(selection, before);
    selection.click_background(None, false);
    assert!(selection.is_empty());
}

#[test]
fn a_drag_undone_puts_every_node_back() {
    let (mut graph, a, b, _) = chain();
    let moves = vec![
        NodeMove {
            id: a,
            from: pos2(0.0, 0.0),
            to: pos2(10.0, 20.0),
        },
        NodeMove {
            id: b,
            from: pos2(100.0, 0.0),
            to: pos2(110.0, 20.0),
        },
    ];
    let undo: Vec<NodeMove> = moves
        .iter()
        .rev()
        .map(|step| NodeMove {
            id: step.id,
            from: step.to,
            to: step.from,
        })
        .collect();
    graph.apply(&CanvasEvent::NodesMoved { moves });
    assert_eq!(graph.node(b).unwrap().pos, pos2(110.0, 20.0));
    graph.apply(&CanvasEvent::NodesMoved { moves: undo });
    assert_eq!(graph.node(a).unwrap().pos, pos2(0.0, 0.0));
    assert_eq!(graph.node(b).unwrap().pos, pos2(100.0, 0.0));
}

#[test]
fn a_single_dragged_node_splices_into_a_wire_it_is_not_an_end_of() {
    let (a, b, x) = (NodeId(1), NodeId(2), NodeId(3));
    let ab = wire(a, b);
    assert_eq!(
        insert_target(false, Some(x), Some(ab), true),
        Some(InsertTarget {
            wire: ab,
            valid: true
        })
    );
    // Shown as refusing when the node has no pins to splice with.
    assert_eq!(
        insert_target(false, Some(x), Some(ab), false),
        Some(InsertTarget {
            wire: ab,
            valid: false
        })
    );
    // Alt moves past the wire; a node is not spliced into its own wire;
    // nothing when several nodes are dragged or no wire is under them.
    assert_eq!(insert_target(true, Some(x), Some(ab), true), None);
    assert_eq!(insert_target(false, Some(a), Some(ab), true), None);
    assert_eq!(insert_target(false, None, Some(ab), true), None);
    assert_eq!(insert_target(false, Some(x), None, true), None);
}

#[test]
fn a_pin_beats_a_node_and_a_node_beats_a_wire() {
    let pin = AnyPin::In(in_pin(NodeId(1), 0));
    let near = wire(NodeId(2), NodeId(3));
    let button = wire(NodeId(4), NodeId(5));

    let over_pin = Hovered::under_pointer(true, Some(pin), true, Some(near), None);
    assert_eq!((over_pin.pin, over_pin.wire), (Some(pin), None));
    let over_node = Hovered::under_pointer(true, None, true, Some(near), Some(button));
    assert_eq!((over_node.pin, over_node.wire), (None, None));
    let over_wire = Hovered::under_pointer(true, None, false, Some(near), Some(button));
    assert_eq!(over_wire.wire, Some(near));
    // The `+` counts as its wire.
    let over_button = Hovered::under_pointer(true, None, false, None, Some(button));
    assert_eq!(over_button.wire, Some(button));
    // Nothing while a gesture runs.
    let busy = Hovered::under_pointer(false, Some(pin), false, Some(near), None);
    assert_eq!((busy.pin, busy.wire), (None, None));
}
