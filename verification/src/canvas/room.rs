//! Which nodes slide out of the way when a node is spliced into a wire: the
//! ones downstream of the wire's target slide right, the ones upstream of its
//! source slide left. How far, and the animation, belong to the view.

use crate::model::{Graph, NodeId, Wire, lemma_push_to_set, lemma_take_one_more, reaches};
use std::collections::BTreeSet;
use vstd::prelude::*;

verus! {

broadcast use vstd::std_specs::btree::group_btree_axioms;

/// `node` is `root`, or reachable from it along wires in the given direction.
pub open spec fn in_cone(wires: Seq<Wire>, forward: bool, root: NodeId, node: NodeId) -> bool {
    node == root || reaches(wires, forward, root, node)
}

/// Which way `node` slides once `inserted` is spliced into `wire`: right
/// (`true`) with the target's downstream cone when that side overhangs,
/// left (`false`) with the source's upstream cone when that side does, and
/// not at all otherwise. A node in both cones - the wire closed a cycle -
/// goes with the side handled first, downstream. The inserted node itself
/// stays, and so does a node the graph does not hold.
pub open spec fn slide_side<N>(
    graph: &Graph<N>,
    inserted: NodeId,
    wire: Wire,
    right: bool,
    left: bool,
    node: NodeId,
) -> Option<bool> {
    if !graph.holds(node) || node == inserted {
        None
    } else if right && in_cone(graph.wire_list(), true, wire.to.node, node) {
        Some(true)
    } else if left && in_cone(graph.wire_list(), false, wire.from.node, node) {
        Some(false)
    } else {
        None
    }
}

/// Every node that slides after `inserted` is spliced into `wire`, each
/// once, with the way it slides (`true` for right). `right` and `left` say
/// whether the inserted node overhangs the downstream and the upstream side.
pub fn sliding_sides<N>(graph: &Graph<N>, inserted: NodeId, wire: Wire, right: bool, left: bool) -> (sides:
    Vec<(NodeId, bool)>)
    ensures
        forall|i: int, j: int| 0 <= i < j < sides@.len() ==> sides@[i].0 != sides@[j].0,
        forall|node: NodeId, goes_right: bool| #[trigger]
            sides@.contains((node, goes_right)) <==> slide_side(
                graph,
                inserted,
                wire,
                right,
                left,
                node,
            ) == Some(goes_right),
{
    let ghost wires = graph.wire_list();
    let mut sides: Vec<(NodeId, bool)> = Vec::new();
    let mut taken: BTreeSet<u64> = BTreeSet::new();
    if right {
        let root = wire.to.node;
        let mut cone = graph.downstream_nodes(root);
        let ghost reached = cone@;
        cone.push(root);
        proof {
            lemma_push_to_set(reached, root);
            assert forall|node: NodeId| #[trigger]
                cone@.contains(node) <==> in_cone(wires, true, root, node) by {
                assert(cone@.to_set().contains(node) == cone@.contains(node));
                assert(reached.to_set().contains(node) == reached.contains(node));
            }
        }
        add_side(graph, &cone, inserted, true, &mut sides, &mut taken);
    }
    let ghost after_right = sides@;
    if left {
        let root = wire.from.node;
        let mut cone = graph.upstream_nodes(root);
        let ghost reached = cone@;
        cone.push(root);
        proof {
            lemma_push_to_set(reached, root);
            assert forall|node: NodeId| #[trigger]
                cone@.contains(node) <==> in_cone(wires, false, root, node) by {
                assert(cone@.to_set().contains(node) == cone@.contains(node));
                assert(reached.to_set().contains(node) == reached.contains(node));
            }
        }
        add_side(graph, &cone, inserted, false, &mut sides, &mut taken);
    }
    proof {
        assert forall|node: NodeId, goes_right: bool|
            #[trigger] after_right.contains((node, goes_right)) <==> right && goes_right && in_cone(
                wires,
                true,
                wire.to.node,
                node,
            ) && node != inserted && graph.holds(node) by {}
        assert forall|node: NodeId, goes_right: bool| #[trigger]
            sides@.contains((node, goes_right)) <==> slide_side(
                graph,
                inserted,
                wire,
                right,
                left,
                node,
            ) == Some(goes_right) by {
            assert(NodeId(node.0) == node);
        }
    }
    sides
}

/// Appends every id of `ids` that the graph holds, that is not `inserted`
/// and that no side has taken yet, going the way `goes_right` says.
/// `taken` holds the value of every id `sides` lists.
fn add_side<N>(
    graph: &Graph<N>,
    ids: &Vec<NodeId>,
    inserted: NodeId,
    goes_right: bool,
    sides: &mut Vec<(NodeId, bool)>,
    taken: &mut BTreeSet<u64>,
)
    requires
        forall|k: u64| #[trigger]
            old(taken)@.contains(k) <==> old(sides)@.contains((NodeId(k), true)) || old(sides)@.contains((NodeId(k), false)),
        forall|i: int, j: int| 0 <= i < j < old(sides)@.len() ==> old(sides)@[i].0 != old(sides)@[j].0,
    ensures
        forall|k: u64| #[trigger]
            final(taken)@.contains(k) <==> final(sides)@.contains((NodeId(k), true)) || final(sides)@.contains((NodeId(k), false)),
        forall|i: int, j: int|
            0 <= i < j < final(sides)@.len() ==> final(sides)@[i].0 != final(sides)@[j].0,
        forall|node: NodeId, b: bool| #[trigger]
            final(sides)@.contains((node, b)) <==> old(sides)@.contains((node, b)) || (b == goes_right
                && ids@.contains(node) && node != inserted && graph.holds(node) && !old(taken)@.contains(node.0)),
{
    let ghost sides0 = sides@;
    let ghost taken0 = taken@;
    for i in 0..ids.len()
        invariant
            forall|k: u64| #[trigger]
                taken@.contains(k) <==> sides@.contains((NodeId(k), true)) || sides@.contains(
                    (NodeId(k), false),
                ),
            forall|a: int, c: int| 0 <= a < c < sides@.len() ==> sides@[a].0 != sides@[c].0,
            forall|node: NodeId, b: bool| #[trigger]
                sides@.contains((node, b)) <==> sides0.contains((node, b)) || (b == goes_right
                    && ids@.take(i as int).contains(node) && node != inserted && graph.holds(node)
                    && !taken0.contains(node.0)),
            forall|k: u64| taken0.contains(k) ==> #[trigger] taken@.contains(k),
            forall|k: u64| #[trigger]
                taken0.contains(k) <==> sides0.contains((NodeId(k), true)) || sides0.contains(
                    (NodeId(k), false),
                ),
    {
        let id = ids[i];
        proof {
            lemma_take_one_more(ids@, i as int);
        }
        if id != inserted && graph.contains(id) && !taken.contains(&id.0) {
            proof {
                assert(NodeId(id.0) == id);
                assert forall|a: int| 0 <= a < sides@.len() implies sides@[a].0 != id by {
                    if sides@[a].0 == id {
                        assert(sides@.contains((id, sides@[a].1)));
                    }
                }
            }
            let ghost before = sides@;
            sides.push((id, goes_right));
            taken.insert(id.0);
            proof {
                assert forall|node: NodeId, b: bool| #[trigger]
                    sides@.contains((node, b)) <==> before.contains((node, b)) || (node, b) == (
                        id,
                        goes_right,
                    ) by {
                    if before.contains((node, b)) {
                        let j = choose|j: int| 0 <= j < before.len() && before[j] == (node, b);
                        assert(sides@[j] == (node, b));
                    }
                    if sides@.contains((node, b)) {
                        let j = choose|j: int| 0 <= j < sides@.len() && sides@[j] == (node, b);
                        if j < before.len() {
                            assert(before[j] == (node, b));
                        }
                    }
                    if (node, b) == (id, goes_right) {
                        assert(sides@[before.len() as int] == (node, b));
                    }
                }
            }
        } else {
            proof {
                if id != inserted && graph.holds(id) && !taken0.contains(id.0) {
                    assert(NodeId(id.0) == id);
                    assert(taken@.contains(id.0));
                    assert(!sides0.contains((id, true)) && !sides0.contains((id, false)));
                    assert(sides@.contains((id, goes_right)));
                }
            }
        }
    }
    proof {
        assert(ids@.take(ids@.len() as int) =~= ids@);
    }
}

} // verus!
