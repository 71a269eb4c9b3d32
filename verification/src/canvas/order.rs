//! The order nodes are drawn in, back to front: nodes the graph gained go on
//! top, nodes it lost are dropped, and a clicked node is raised.

use crate::model::{Graph, Node, NodeId};
use std::collections::BTreeSet;
use vstd::prelude::*;

verus! {

broadcast use {vstd::std_specs::btree::group_btree_axioms, vstd::laws_cmp::group_laws_cmp};

/// Brings the draw order in line with the graph, once per topology revision:
/// the ids the graph no longer holds are dropped, the rest keep their order,
/// and every node the order lacks is appended, in id order. `synced` is the
/// revision the order was last brought in line with.
pub fn sync_draw_order<N>(draw_order: &mut Vec<NodeId>, synced: &mut Option<u64>, graph: &Graph<N>)
    ensures
        *final(synced) == Some(graph.topology()),
        *old(synced) == Some(graph.topology()) ==> final(draw_order)@ == old(draw_order)@,
        *old(synced) != Some(graph.topology()) ==> {
            let kept = old(draw_order)@.filter(|id: NodeId| graph.holds(id));
            let added = final(draw_order)@.skip(kept.len() as int);
            &&& final(draw_order)@.take(kept.len() as int) == kept
            &&& kept.len() <= final(draw_order)@.len()
            &&& forall|i: int, j: int| 0 <= i < j < added.len() ==> added[i].0 < added[j].0
            &&& forall|id: NodeId| #[trigger]
                added.contains(id) <==> graph.holds(id) && !old(draw_order)@.contains(id)
        },
{
    let revision = graph.topology_revision();
    if *synced == Some(revision) {
        return;
    }
    *synced = Some(revision);
    let ghost before = draw_order@;
    let mut order: Vec<NodeId> = Vec::new();
    let mut present: BTreeSet<u64> = BTreeSet::new();
    for i in 0..draw_order.len()
        invariant
            before == draw_order@,
            order@ == before.take(i as int).filter(|id: NodeId| graph.holds(id)),
            forall|key: u64| #[trigger]
                present@.contains(key) <==> order@.contains(NodeId(key)),
    {
        let id = draw_order[i];
        proof {
            crate::model::lemma_filter_step(before, i as int, |id: NodeId| graph.holds(id));
        }
        if graph.contains(id) {
            let ghost grown = order@;
            order.push(id);
            present.insert(id.0);
            proof {
                crate::model::lemma_push_to_set(grown, id);
                assert forall|key: u64| #[trigger] present@.contains(key) <==> order@.contains(NodeId(key)) by {
                    assert(order@.to_set().contains(NodeId(key)) == order@.contains(NodeId(key)));
                    assert(grown.to_set().contains(NodeId(key)) == grown.contains(NodeId(key)));
                }
            }
        }
    }
    proof {
        assert(before.take(before.len() as int) =~= before);
        crate::model::lemma_filter_members(before, |id: NodeId| graph.holds(id));
    }
    let ghost kept = order@;
    let nodes = graph.nodes();
    let ghost ids = nodes@.map_values(|entry: (NodeId, &Node<N>)| entry.0);
    for i in 0..nodes.len()
        invariant
            ids == nodes@.map_values(|entry: (NodeId, &Node<N>)| entry.0),
            kept == before.filter(|id: NodeId| graph.holds(id)),
            forall|id: NodeId| #[trigger] kept.contains(id) <==> before.contains(id) && graph.holds(id),
            forall|key: u64| #[trigger] present@.contains(key) <==> kept.contains(NodeId(key)),
            forall|a: int, b: int| 0 <= a < b < nodes@.len() ==> nodes@[a].0.0 < nodes@[b].0.0,
            kept.len() <= order@.len(),
            order@.take(kept.len() as int) == kept,
            forall|a: int, b: int|
                kept.len() <= a < b < order@.len() ==> order@[a].0 < order@[b].0,
            forall|a: int, b: int|
                kept.len() <= a < order@.len() && i <= b < nodes@.len() ==> #[trigger] order@[a].0
                    < #[trigger] nodes@[b].0.0,
            forall|id: NodeId| #[trigger]
                order@.skip(kept.len() as int).contains(id) <==> ids.take(i as int).contains(id)
                    && !present@.contains(id.0),
    {
        let id = nodes[i].0;
        let ghost grown = order@;
        proof {
            crate::model::lemma_take_one_more(ids, i as int);
        }
        if !present.contains(&id.0) {
            order.push(id);
            proof {
                assert(order@.take(kept.len() as int) =~= grown.take(kept.len() as int));
                assert(order@.skip(kept.len() as int) =~= grown.skip(kept.len() as int).push(id));
                crate::model::lemma_push_to_set(grown.skip(kept.len() as int), id);
                assert forall|x: NodeId| #[trigger] order@.skip(kept.len() as int).contains(x) <==> ids.take(i + 1).contains(x)
                    && !present@.contains(x.0) by {
                    assert(order@.skip(kept.len() as int).to_set().contains(x) == order@.skip(kept.len() as int).contains(x));
                    assert(grown.skip(kept.len() as int).to_set().contains(x) == grown.skip(kept.len() as int).contains(x));
                }
            }
        }
    }
    proof {
        let added = order@.skip(kept.len() as int);
        assert(ids.take(ids.len() as int) =~= ids);
        assert forall|id: NodeId| #[trigger]
            added.contains(id) <==> graph.holds(id) && !before.contains(id) by {
            if graph.holds(id) {
                let j = choose|j: int| 0 <= j < nodes@.len() && nodes@[j].0.0 == id.0;
                assert(ids[j] == id);
            }
            if ids.contains(id) {
                let j = choose|j: int| 0 <= j < ids.len() && ids[j] == id;
                assert(graph.node_map().contains_key(nodes@[j].0.0));
            }
        }
        assert forall|a: int, b: int| 0 <= a < b < added.len() implies added[a].0 < added[b].0 by {
            assert(added[a] == order@[kept.len() + a]);
            assert(added[b] == order@[kept.len() + b]);
        }
    }
    *draw_order = order;
}

/// Moves a node to the top of the draw order: out of the first place it
/// holds, onto the end. An id the order does not hold leaves it as it is.
pub fn raise(draw_order: &mut Vec<NodeId>, id: NodeId)
    ensures
        !old(draw_order)@.contains(id) ==> final(draw_order)@ == old(draw_order)@,
        old(draw_order)@.contains(id) ==> exists|i: int|
            0 <= i < old(draw_order)@.len() && old(draw_order)@[i] == id && (forall|j: int|
                0 <= j < i ==> old(draw_order)@[j] != id) && final(draw_order)@ == old(
                draw_order,
            )@.remove(i).push(id),
{
    let count = draw_order.len();
    for i in 0..count
        invariant
            count == draw_order@.len(),
            draw_order@ == old(draw_order)@,
            forall|j: int| 0 <= j < i ==> draw_order@[j] != id,
    {
        if draw_order[i] == id {
            draw_order.remove(i);
            draw_order.push(id);
            return;
        }
    }
}

} // verus!
