//! What is selected on the canvas: nodes and wires alike, so one Delete
//! removes both.

use crate::model::lemma_push_to_set;
use crate::model::{Graph, InPin, InputId, NodeId, OutPin, OutputId, Wire};
use std::collections::BTreeSet;
use vstd::prelude::*;
use vstd::std_specs::iter::IteratorSpec;

verus! {

broadcast use {vstd::std_specs::btree::group_btree_axioms, vstd::laws_cmp::group_laws_cmp};

/// A wire as the tuple of its four ids - source node, output, target node,
/// input - which orders wires as `Wire`'s own derived order does.
pub type WireKey = (u64, u64, u64, u64);

pub open spec fn wire_key(wire: Wire) -> WireKey {
    (wire.from.node.0, wire.from.output.0, wire.to.node.0, wire.to.input.0)
}

pub open spec fn key_wire(key: WireKey) -> Wire {
    Wire {
        from: OutPin { node: NodeId(key.0), output: OutputId(key.1) },
        to: InPin { node: NodeId(key.2), input: InputId(key.3) },
    }
}

/// The key a wire is selected under.
pub fn key_of(wire: Wire) -> (key: WireKey)
    ensures
        key == wire_key(wire),
        key_wire(key) == wire,
{
    (wire.from.node.0, wire.from.output.0, wire.to.node.0, wire.to.input.0)
}

/// The wire a key stands for.
pub fn wire_of(key: WireKey) -> (wire: Wire)
    ensures
        wire == key_wire(key),
        wire_key(wire) == key,
{
    Wire {
        from: OutPin { node: NodeId(key.0), output: OutputId(key.1) },
        to: InPin { node: NodeId(key.2), input: InputId(key.3) },
    }
}

/// `set` with `item` taken out if it was in, put in if it was not.
pub open spec fn toggled<A>(set: Set<A>, item: A) -> Set<A> {
    if set.contains(item) {
        set.remove(item)
    } else {
        set.insert(item)
    }
}

/// Toggling the same item twice leaves the set as it was.
pub proof fn lemma_toggle_twice<A>(set: Set<A>, item: A)
    ensures
        toggled(toggled(set, item), item) == set,
{
    assert(toggled(toggled(set, item), item) =~= set);
}

/// Every wire has its own key, and the key gives the wire back.
pub proof fn lemma_wire_keys_distinct(a: Wire, b: Wire)
    ensures
        wire_key(a) == wire_key(b) <==> a == b,
        key_wire(wire_key(a)) == a,
{
}

/// What is selected: nodes and wires alike, so one Delete removes both.
/// Nodes are held by the value of their id, wires by their key, both in
/// sets, so each is there once and they come out in order.
#[derive(Clone, Debug, PartialEq, Eq)]
pub struct Selection {
    pub nodes: BTreeSet<u64>,
    pub wires: BTreeSet<WireKey>,
}

impl Selection {
    pub fn is_empty(&self) -> (empty: bool)
        ensures
            empty == (self.nodes@.is_empty() && self.wires@.is_empty()),
    {
        self.nodes.is_empty() && self.wires.is_empty()
    }

    pub fn clear(&mut self)
        ensures
            final(self).nodes@ == Set::<u64>::empty(),
            final(self).wires@ == Set::<WireKey>::empty(),
    {
        self.nodes.clear();
        self.wires.clear();
    }

    pub fn contains_node(&self, id: NodeId) -> (selected: bool)
        ensures
            selected == self.nodes@.contains(id.0),
    {
        self.nodes.contains(&id.0)
    }

    pub fn contains_wire(&self, wire: Wire) -> (selected: bool)
        ensures
            selected == self.wires@.contains(wire_key(wire)),
    {
        self.wires.contains(&key_of(wire))
    }

    /// Selects the node if it was not, unselects it if it was.
    pub fn toggle_node(&mut self, id: NodeId)
        ensures
            final(self).nodes@ == toggled(old(self).nodes@, id.0),
            final(self).wires@ == old(self).wires@,
    {
        if !self.nodes.remove(&id.0) {
            self.nodes.insert(id.0);
        }
    }

    /// Selects the wire if it was not, unselects it if it was.
    pub fn toggle_wire(&mut self, wire: Wire)
        ensures
            final(self).wires@ == toggled(old(self).wires@, wire_key(wire)),
            final(self).nodes@ == old(self).nodes@,
    {
        let key = key_of(wire);
        if !self.wires.remove(&key) {
            self.wires.insert(key);
        }
    }

    /// Nothing selected but node `id`.
    pub fn select_only(&mut self, id: NodeId)
        ensures
            final(self).nodes@ == set![id.0],
            final(self).wires@ == Set::<WireKey>::empty(),
    {
        self.clear();
        self.nodes.insert(id.0);
    }

    /// Nothing selected but `wire`.
    pub fn select_only_wire(&mut self, wire: Wire)
        ensures
            final(self).nodes@ == Set::<u64>::empty(),
            final(self).wires@ == set![wire_key(wire)],
    {
        self.clear();
        self.wires.insert(key_of(wire));
    }

    /// A click on node `id`'s frame: with the command modifier held it joins
    /// or leaves the selection, otherwise it is selected alone.
    pub fn click_node(&mut self, id: NodeId, command: bool)
        ensures
            command ==> final(self).nodes@ == toggled(old(self).nodes@, id.0) && final(self).wires@
                == old(self).wires@,
            !command ==> final(self).nodes@ == set![id.0] && final(self).wires@ == Set::<
                WireKey,
            >::empty(),
    {
        if command {
            self.toggle_node(id);
        } else {
            self.select_only(id);
        }
    }

    /// A drag starting on node `id`'s frame: it carries the whole selection
    /// when `id` is part of it, and `id` alone otherwise.
    pub fn press_node(&mut self, id: NodeId)
        ensures
            old(self).nodes@.contains(id.0) ==> *final(self) == *old(self),
            !old(self).nodes@.contains(id.0) ==> final(self).nodes@ == set![id.0]
                && final(self).wires@ == Set::<WireKey>::empty(),
    {
        if !self.contains_node(id) {
            self.select_only(id);
        }
    }

    /// A click on the canvas behind every node, with `hovered` the wire under
    /// the pointer, if any: with the command modifier held a hovered wire
    /// joins or leaves the selection and a click on nothing changes nothing;
    /// otherwise a hovered wire is selected alone, and a click on nothing
    /// clears the selection.
    pub fn click_background(&mut self, hovered: Option<Wire>, command: bool)
        ensures
            match hovered {
                Some(wire) => if command {
                    &&& final(self).wires@ == toggled(old(self).wires@, wire_key(wire))
                    &&& final(self).nodes@ == old(self).nodes@
                } else {
                    &&& final(self).wires@ == set![wire_key(wire)]
                    &&& final(self).nodes@ == Set::<u64>::empty()
                },
                None => if command {
                    *final(self) == *old(self)
                } else {
                    &&& final(self).nodes@ == Set::<u64>::empty()
                    &&& final(self).wires@ == Set::<WireKey>::empty()
                },
            },
    {
        match hovered {
            Some(wire) => if command {
                self.toggle_wire(wire);
            } else {
                self.select_only_wire(wire);
            },
            None => if !command {
                self.clear();
            },
        }
    }

    /// Adds everything `other` selects.
    pub fn extend(&mut self, other: &Selection)
        ensures
            final(self).nodes@ == old(self).nodes@.union(other.nodes@),
            final(self).wires@ == old(self).wires@.union(other.wires@),
    {
        for id in it: other.nodes.iter()
            invariant
                it.seq() == other.nodes.iter().remaining(),
                self.wires@ == old(self).wires@,
                self.nodes@ == old(self).nodes@.union(
                    it.seq().take(it.index() as int).map_values(|r: &u64| *r).to_set(),
                ),
        {
            proof {
                let seen = it.seq().take(it.index() as int).map_values(|r: &u64| *r);
                let more = it.seq().take(it.index() + 1).map_values(|r: &u64| *r);
                assert(more =~= seen.push(*it.seq()[it.index()]));
                lemma_push_to_set(seen, *it.seq()[it.index()]);
            }
            self.nodes.insert(*id);
        }
        proof {
            let all = other.nodes.iter().remaining();
            assert(all.take(all.len() as int) =~= all);
            assert(all.map_values(|r: &u64| *r) =~= all.unref());
        }
        for key in it: other.wires.iter()
            invariant
                it.seq() == other.wires.iter().remaining(),
                self.nodes@ == old(self).nodes@.union(other.nodes@),
                self.wires@ == old(self).wires@.union(
                    it.seq().take(it.index() as int).map_values(|r: &WireKey| *r).to_set(),
                ),
        {
            proof {
                let seen = it.seq().take(it.index() as int).map_values(|r: &WireKey| *r);
                let more = it.seq().take(it.index() + 1).map_values(|r: &WireKey| *r);
                assert(more =~= seen.push(*it.seq()[it.index()]));
                lemma_push_to_set(seen, *it.seq()[it.index()]);
            }
            self.wires.insert(*key);
        }
        proof {
            let all = other.wires.iter().remaining();
            assert(all.take(all.len() as int) =~= all);
            assert(all.map_values(|r: &WireKey| *r) =~= all.unref());
        }
    }

    /// Drops what the graph no longer holds.
    pub fn retain_present<N>(&mut self, graph: &Graph<N>)
        ensures
            final(self).nodes@ == old(self).nodes@.filter(|key: u64| graph.holds(NodeId(key))),
            final(self).wires@ == old(self).wires@.filter(
                |key: WireKey| graph.wire_list().contains(key_wire(key)),
            ),
    {
        let mut nodes: BTreeSet<u64> = BTreeSet::new();
        for id in it: self.nodes.iter()
            invariant
                it.seq() == self.nodes.iter().remaining(),
                nodes@ == it.seq().take(it.index() as int).map_values(|r: &u64| *r).to_set().filter(
                    |key: u64| graph.holds(NodeId(key)),
                ),
        {
            proof {
                let seen = it.seq().take(it.index() as int).map_values(|r: &u64| *r);
                let more = it.seq().take(it.index() + 1).map_values(|r: &u64| *r);
                assert(more =~= seen.push(*it.seq()[it.index()]));
                lemma_push_to_set(seen, *it.seq()[it.index()]);
            }
            if graph.contains(NodeId(*id)) {
                nodes.insert(*id);
            }
            proof {
                let more = it.seq().take(it.index() + 1).map_values(|r: &u64| *r);
                assert(nodes@ =~= more.to_set().filter(|key: u64| graph.holds(NodeId(key))));
            }
        }
        proof {
            let all = self.nodes.iter().remaining();
            assert(all.take(all.len() as int) =~= all);
            assert(all.map_values(|r: &u64| *r) =~= all.unref());
        }
        let present = graph.wires();
        let mut wires: BTreeSet<WireKey> = BTreeSet::new();
        for key in it: self.wires.iter()
            invariant
                it.seq() == self.wires.iter().remaining(),
                present@ == graph.wire_list(),
                wires@ == it.seq().take(it.index() as int).map_values(|r: &WireKey| *r).to_set().filter(
                    |key: WireKey| graph.wire_list().contains(key_wire(key)),
                ),
        {
            proof {
                let seen = it.seq().take(it.index() as int).map_values(|r: &WireKey| *r);
                let more = it.seq().take(it.index() + 1).map_values(|r: &WireKey| *r);
                assert(more =~= seen.push(*it.seq()[it.index()]));
                lemma_push_to_set(seen, *it.seq()[it.index()]);
            }
            if wire_listed(present, wire_of(*key)) {
                wires.insert(*key);
            }
            proof {
                let more = it.seq().take(it.index() + 1).map_values(|r: &WireKey| *r);
                assert(wires@ =~= more.to_set().filter(
                    |key: WireKey| graph.wire_list().contains(key_wire(key)),
                ));
            }
        }
        proof {
            let all = self.wires.iter().remaining();
            assert(all.take(all.len() as int) =~= all);
            assert(all.map_values(|r: &WireKey| *r) =~= all.unref());
        }
        self.nodes = nodes;
        self.wires = wires;
    }
}

impl Default for Selection {
    fn default() -> (selection: Self)
        ensures
            selection.nodes@ == Set::<u64>::empty(),
            selection.wires@ == Set::<WireKey>::empty(),
    {
        Selection { nodes: BTreeSet::new(), wires: BTreeSet::new() }
    }
}

/// Whether `wire` is in the list.
fn wire_listed(list: &[Wire], wire: Wire) -> (found: bool)
    ensures
        found == list@.contains(wire),
{
    let count = list.len();
    for i in 0..count
        invariant
            count == list@.len(),
            forall|j: int| 0 <= j < i ==> list@[j] != wire,
    {
        if list[i] == wire {
            return true;
        }
    }
    false
}

} // verus!
