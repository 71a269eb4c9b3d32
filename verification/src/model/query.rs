//! What the graph can say about itself: which nodes lie downstream or
//! upstream of one, and which wires would close the chains a deletion opens.

use super::graph::{Graph, lemma_increasing_keys};
use super::graph::feeds;
use super::graph::leaves;
use super::ids::{InPin, InputId, NodeId, OutPin, OutputId, Wire};
use super::seqs::lemma_filter_members;
use std::collections::{BTreeMap, BTreeSet};
use vstd::prelude::*;
use vstd::std_specs::cmp::OrdSpec;
use vstd::std_specs::iter::IteratorSpec;

verus! {

broadcast use vstd::std_specs::btree::group_btree_axioms;

/// The two ends of a wire as a step from one node to the next: source to
/// target going forward, target to source going backward.
pub open spec fn step(wire: Wire, forward: bool) -> (NodeId, NodeId) {
    if forward {
        (wire.from.node, wire.to.node)
    } else {
        (wire.to.node, wire.from.node)
    }
}

/// The nodes one wire away from `node`, in the given direction.
pub open spec fn next_nodes(wires: Seq<Wire>, forward: bool, node: NodeId) -> Set<NodeId> {
    Set::new(
        |next: NodeId|
            exists|i: int| 0 <= i < wires.len() && #[trigger] step(wires[i], forward) == (node, next),
    )
}

/// The nodes at most `k + 1` wires away from `start` (and at least one), in
/// the given direction.
pub open spec fn reach_within(wires: Seq<Wire>, forward: bool, start: NodeId, k: nat) -> Set<
    NodeId,
>
    decreases k,
{
    if k == 0 {
        next_nodes(wires, forward, start)
    } else {
        let nearer = reach_within(wires, forward, start, (k - 1) as nat);
        nearer.union(
            Set::new(
                |next: NodeId|
                    exists|via: NodeId| nearer.contains(via) && #[trigger] next_nodes(
                        wires,
                        forward,
                        via,
                    ).contains(next),
            ),
        )
    }
}

/// Whether following one or more wires from `start`, in the given direction,
/// arrives at `node`.
pub open spec fn reaches(wires: Seq<Wire>, forward: bool, start: NodeId, node: NodeId) -> bool {
    exists|k: nat| #[trigger] reach_within(wires, forward, start, k).contains(node)
}

/// The far ends of every wire, in the given direction.
spec fn far_ends(wires: Seq<Wire>, forward: bool) -> Set<u64> {
    far_end_list(wires, forward).to_set()
}

/// The far end of each wire, in the given direction.
spec fn far_end_list(wires: Seq<Wire>, forward: bool) -> Seq<u64> {
    wires.map_values(|wire: Wire| step(wire, forward).1.0)
}

/// A set closed under steps, holding every step out of `start`, holds every
/// node `start` reaches.
proof fn lemma_closed_holds_reach(
    wires: Seq<Wire>,
    forward: bool,
    start: NodeId,
    closed: Set<u64>,
    k: nat,
)
    requires
        closed_at(wires, forward, start, closed),
        forall|m: NodeId| #[trigger] closed.contains(m.0) ==> closed_at(wires, forward, m, closed),
    ensures
        forall|n: NodeId| #[trigger]
            reach_within(wires, forward, start, k).contains(n) ==> closed.contains(n.0),
    decreases k,
{
    if k > 0 {
        lemma_closed_holds_reach(wires, forward, start, closed, (k - 1) as nat);
        let nearer = reach_within(wires, forward, start, (k - 1) as nat);
        assert forall|n: NodeId| #[trigger]
            reach_within(wires, forward, start, k).contains(n) implies closed.contains(n.0) by {
            if !nearer.contains(n) {
                let via = choose|via: NodeId|
                    nearer.contains(via) && #[trigger] next_nodes(wires, forward, via).contains(n);
                assert(closed.contains(via.0));
                assert(closed_at(wires, forward, via, closed));
            }
        }
    }
}

/// Closed in a set, closed in any set around it.
proof fn lemma_closed_grows(wires: Seq<Wire>, forward: bool, node: NodeId, a: Set<u64>, b: Set<u64>)
    requires
        closed_at(wires, forward, node, a),
        a.subset_of(b),
    ensures
        closed_at(wires, forward, node, b),
{
    assert forall|n: NodeId| #[trigger] next_nodes(wires, forward, node).contains(n) implies b.contains(
        n.0,
    ) by {
        assert(a.contains(n.0));
    }
}

/// Every node one step from `node` is in `set`.
spec fn closed_at(wires: Seq<Wire>, forward: bool, node: NodeId, set: Set<u64>) -> bool {
    forall|n: NodeId| #[trigger] next_nodes(wires, forward, node).contains(n) ==> set.contains(n.0)
}

/// A step past a node within `k` lands within `k + 1`.
proof fn lemma_reach_extends(wires: Seq<Wire>, forward: bool, start: NodeId, via: NodeId, next: NodeId, k: nat)
    requires
        reach_within(wires, forward, start, k).contains(via),
        next_nodes(wires, forward, via).contains(next),
    ensures
        reach_within(wires, forward, start, k + 1).contains(next),
{
    assert(reach_within(wires, forward, start, (k + 1) as nat) == reach_within(wires, forward, start, k).union(
        Set::new(
            |n: NodeId|
                exists|v: NodeId| reach_within(wires, forward, start, k).contains(v) && #[trigger] next_nodes(
                    wires,
                    forward,
                    v,
                ).contains(n),
        ),
    ));
}


/// The pass-through pins of `node`, when it is among the removed and has
/// them: whatever feeds the input is to be wired to whatever the output feeds.
pub open spec fn pass_pins(removed: Map<u64, Option<(InputId, OutputId)>>, node: NodeId) -> Option<
    (InputId, OutputId),
> {
    if removed.contains_key(node.0) {
        removed[node.0]
    } else {
        None
    }
}

/// The pass-through input of a removed node.
pub open spec fn pass_input(removed: Map<u64, Option<(InputId, OutputId)>>, node: NodeId) -> InPin {
    InPin { node, input: pass_pins(removed, node).unwrap().0 }
}

/// The pass-through output of a removed node.
pub open spec fn pass_output(removed: Map<u64, Option<(InputId, OutputId)>>, node: NodeId) -> OutPin {
    OutPin { node, output: pass_pins(removed, node).unwrap().1 }
}

/// The outputs wired straight into `pin`, in connection order.
pub open spec fn feeding(wires: Seq<Wire>, pin: InPin) -> Seq<OutPin> {
    wires.filter(feeds(pin)).map_values(|wire: Wire| wire.from)
}

/// The inputs `pin` is wired straight into, in connection order.
pub open spec fn fed_from(wires: Seq<Wire>, pin: OutPin) -> Seq<InPin> {
    wires.filter(leaves(pin)).map_values(|wire: Wire| wire.to)
}

/// Looking back from the outputs `froms`, in order: the output of a
/// surviving node is found as it is; the pass-through output of a removed
/// node not yet in `visited` is looked through - the node is visited, and
/// what feeds its pass-through input is found in its place; anything else is
/// passed over. What was found, in the order found, and the nodes visited by
/// the end. `fuel` bounds how deep the look goes: as many as there are
/// removed nodes not yet visited is enough.
pub open spec fn search_sources(
    wires: Seq<Wire>,
    removed: Map<u64, Option<(InputId, OutputId)>>,
    froms: Seq<OutPin>,
    visited: Set<u64>,
    fuel: nat,
) -> (Seq<OutPin>, Set<u64>)
    decreases fuel, froms.len(),
{
    if froms.len() == 0 {
        (Seq::empty(), visited)
    } else {
        let from = froms[0];
        let first = if !removed.contains_key(from.node.0) {
            (seq![from], visited)
        } else if pass_pins(removed, from.node) is Some && pass_output(removed, from.node) == from
            && !visited.contains(from.node.0) && fuel > 0 {
            search_sources(
                wires,
                removed,
                feeding(wires, pass_input(removed, from.node)),
                visited.insert(from.node.0),
                (fuel - 1) as nat,
            )
        } else {
            (Seq::empty(), visited)
        };
        let rest = search_sources(wires, removed, froms.drop_first(), first.1, fuel);
        (first.0 + rest.0, rest.1)
    }
}

/// Looking on from the inputs `tos`, in order, as `search_sources` looks
/// back: the input of a surviving node is found as it is, and the
/// pass-through input of a removed node not yet visited is looked through to
/// what its pass-through output feeds.
pub open spec fn search_targets(
    wires: Seq<Wire>,
    removed: Map<u64, Option<(InputId, OutputId)>>,
    tos: Seq<InPin>,
    visited: Set<u64>,
    fuel: nat,
) -> (Seq<InPin>, Set<u64>)
    decreases fuel, tos.len(),
{
    if tos.len() == 0 {
        (Seq::empty(), visited)
    } else {
        let to = tos[0];
        let first = if !removed.contains_key(to.node.0) {
            (seq![to], visited)
        } else if pass_pins(removed, to.node) is Some && pass_input(removed, to.node) == to
            && !visited.contains(to.node.0) && fuel > 0 {
            search_targets(
                wires,
                removed,
                fed_from(wires, pass_output(removed, to.node)),
                visited.insert(to.node.0),
                (fuel - 1) as nat,
            )
        } else {
            (Seq::empty(), visited)
        };
        let rest = search_targets(wires, removed, tos.drop_first(), first.1, fuel);
        (first.0 + rest.0, rest.1)
    }
}

/// The outputs of surviving nodes wired straight into `pin`.
pub open spec fn direct_sources(
    wires: Seq<Wire>,
    removed: Map<u64, Option<(InputId, OutputId)>>,
    pin: InPin,
) -> Set<OutPin> {
    Set::new(
        |from: OutPin|
            !removed.contains_key(from.node.0) && exists|i: int|
                0 <= i < wires.len() && #[trigger] wires[i] == (Wire { from, to: pin }),
    )
}

/// The removed nodes whose pass-through output is wired into `pin`.
pub open spec fn feeders(
    wires: Seq<Wire>,
    removed: Map<u64, Option<(InputId, OutputId)>>,
    pin: InPin,
) -> Set<NodeId> {
    Set::new(
        |node: NodeId|
            pass_pins(removed, node) is Some && exists|i: int|
                0 <= i < wires.len() && #[trigger] wires[i] == (Wire {
                    from: pass_output(removed, node),
                    to: pin,
                }),
    )
}

/// The removed nodes a chain of pass-throughs, at most `k + 1` long, leads
/// back to from `pin`.
pub open spec fn feeders_within(
    wires: Seq<Wire>,
    removed: Map<u64, Option<(InputId, OutputId)>>,
    pin: InPin,
    k: nat,
) -> Set<NodeId>
    decreases k,
{
    if k == 0 {
        feeders(wires, removed, pin)
    } else {
        let nearer = feeders_within(wires, removed, pin, (k - 1) as nat);
        nearer.union(
            Set::new(
                |node: NodeId|
                    exists|via: NodeId| nearer.contains(via) && #[trigger] feeders(
                        wires,
                        removed,
                        pass_input(removed, via),
                    ).contains(node),
            ),
        )
    }
}

/// The outputs of surviving nodes that feed `pin`, straight or through a
/// chain of removed pass-through nodes.
pub open spec fn sources_through(
    wires: Seq<Wire>,
    removed: Map<u64, Option<(InputId, OutputId)>>,
    pin: InPin,
) -> Set<OutPin> {
    Set::new(
        |from: OutPin|
            direct_sources(wires, removed, pin).contains(from) || exists|k: nat, via: NodeId|
                #[trigger] feeders_within(wires, removed, pin, k).contains(via) && direct_sources(
                    wires,
                    removed,
                    pass_input(removed, via),
                ).contains(from),
    )
}

/// The inputs of surviving nodes wired straight from `pin`.
pub open spec fn direct_targets(
    wires: Seq<Wire>,
    removed: Map<u64, Option<(InputId, OutputId)>>,
    pin: OutPin,
) -> Set<InPin> {
    Set::new(
        |to: InPin|
            !removed.contains_key(to.node.0) && exists|i: int|
                0 <= i < wires.len() && #[trigger] wires[i] == (Wire { from: pin, to }),
    )
}

/// The removed nodes whose pass-through input `pin` is wired into.
pub open spec fn consumers(
    wires: Seq<Wire>,
    removed: Map<u64, Option<(InputId, OutputId)>>,
    pin: OutPin,
) -> Set<NodeId> {
    Set::new(
        |node: NodeId|
            pass_pins(removed, node) is Some && exists|i: int|
                0 <= i < wires.len() && #[trigger] wires[i] == (Wire {
                    from: pin,
                    to: pass_input(removed, node),
                }),
    )
}

/// The removed nodes a chain of pass-throughs, at most `k + 1` long, leads
/// on to from `pin`.
pub open spec fn consumers_within(
    wires: Seq<Wire>,
    removed: Map<u64, Option<(InputId, OutputId)>>,
    pin: OutPin,
    k: nat,
) -> Set<NodeId>
    decreases k,
{
    if k == 0 {
        consumers(wires, removed, pin)
    } else {
        let nearer = consumers_within(wires, removed, pin, (k - 1) as nat);
        nearer.union(
            Set::new(
                |node: NodeId|
                    exists|via: NodeId| nearer.contains(via) && #[trigger] consumers(
                        wires,
                        removed,
                        pass_output(removed, via),
                    ).contains(node),
            ),
        )
    }
}

/// The inputs of surviving nodes that `pin` feeds, straight or through a
/// chain of removed pass-through nodes.
pub open spec fn targets_through(
    wires: Seq<Wire>,
    removed: Map<u64, Option<(InputId, OutputId)>>,
    pin: OutPin,
) -> Set<InPin> {
    Set::new(
        |to: InPin|
            direct_targets(wires, removed, pin).contains(to) || exists|k: nat, via: NodeId|
                #[trigger] consumers_within(wires, removed, pin, k).contains(via) && direct_targets(
                    wires,
                    removed,
                    pass_output(removed, via),
                ).contains(to),
    )
}

/// Whether `wire` closes the chain that removed node `key` sat in: it runs
/// from an output that fed the node's pass-through input to an input its
/// pass-through output fed, joins two different nodes, and is not already
/// there.
pub open spec fn bridges_at(
    wires: Seq<Wire>,
    removed: Map<u64, Option<(InputId, OutputId)>>,
    key: u64,
    wire: Wire,
) -> bool {
    &&& pass_pins(removed, NodeId(key)) is Some
    &&& sources_through(wires, removed, pass_input(removed, NodeId(key))).contains(wire.from)
    &&& targets_through(wires, removed, pass_output(removed, NodeId(key))).contains(wire.to)
    &&& wire.from.node != wire.to.node
    &&& !wires.contains(wire)
}

/// `bridges` with the wire from `from` into each of `targets` appended in
/// turn, unless it would loop a node into itself, is already in `wires`, or
/// is already appended.
pub open spec fn pair_row(bridges: Seq<Wire>, wires: Seq<Wire>, from: OutPin, targets: Seq<InPin>) -> Seq<
    Wire,
>
    decreases targets.len(),
{
    if targets.len() == 0 {
        bridges
    } else {
        let earlier = pair_row(bridges, wires, from, targets.drop_last());
        let wire = Wire { from, to: targets.last() };
        if from.node != wire.to.node && !wires.contains(wire) && !earlier.contains(wire) {
            earlier.push(wire)
        } else {
            earlier
        }
    }
}

/// `bridges` with the wires from each of `sources`, in order, into
/// `targets` appended as `pair_row` appends them.
pub open spec fn pair_up(
    bridges: Seq<Wire>,
    wires: Seq<Wire>,
    sources: Seq<OutPin>,
    targets: Seq<InPin>,
) -> Seq<Wire>
    decreases sources.len(),
{
    if sources.len() == 0 {
        bridges
    } else {
        pair_row(pair_up(bridges, wires, sources.drop_last(), targets), wires, sources.last(), targets)
    }
}

/// The bridges over the removed nodes, taken in the order `keys` lists them:
/// for each with pass-through pins, what the search back from its input
/// finds paired up with what the search on from its output finds.
pub open spec fn bridge_list(
    wires: Seq<Wire>,
    removed: Map<u64, Option<(InputId, OutputId)>>,
    keys: Seq<u64>,
) -> Seq<Wire>
    decreases keys.len(),
{
    if keys.len() == 0 {
        Seq::empty()
    } else {
        let earlier = bridge_list(wires, removed, keys.drop_last());
        let node = NodeId(keys.last());
        if pass_pins(removed, node) is Some {
            pair_up(
                earlier,
                wires,
                search_sources(
                    wires,
                    removed,
                    feeding(wires, pass_input(removed, node)),
                    Set::empty(),
                    removed.dom().len(),
                ).0,
                search_targets(
                    wires,
                    removed,
                    fed_from(wires, pass_output(removed, node)),
                    Set::empty(),
                    removed.dom().len(),
                ).0,
            )
        } else {
            earlier
        }
    }
}

/// `keys` lists the values of `set`, in increasing order.
pub open spec fn in_increasing_order(keys: Seq<u64>, set: Set<u64>) -> bool {
    &&& keys.to_set() == set
    &&& forall|i: int, j: int| 0 <= i < j < keys.len() ==> keys[i] < keys[j]
}

/// A set has one listing in increasing order.
pub proof fn lemma_increasing_order_unique(a: Seq<u64>, b: Seq<u64>, set: Set<u64>)
    requires
        in_increasing_order(a, set),
        in_increasing_order(b, set),
    ensures
        a == b,
    decreases a.len(),
{
    if a.len() == 0 {
        if b.len() > 0 {
            assert(b.to_set().contains(b[0]));
        }
        assert(a =~= b);
    } else {
        assert(a.to_set().contains(a[0]));
        if b.len() == 0 {
            assert(!b.to_set().contains(a[0]));
        }
        assert(b.to_set().contains(b[0]));
        let ka = choose|k: int| 0 <= k < a.len() && a[k] == b[0];
        let kb = choose|k: int| 0 <= k < b.len() && b[k] == a[0];
        assert(a[0] <= a[ka]);
        assert(b[0] <= b[kb]);
        let rest = set.remove(a[0]);
        assert forall|x: u64| #[trigger] a.drop_first().to_set().contains(x) <==> rest.contains(x) by {
            if a.drop_first().to_set().contains(x) {
                let k = choose|k: int| 0 <= k < a.drop_first().len() && a.drop_first()[k] == x;
                assert(a[k + 1] == x);
                assert(a.to_set().contains(x));
            }
            if rest.contains(x) {
                assert(a.to_set().contains(x));
                let k = choose|k: int| 0 <= k < a.len() && a[k] == x;
                assert(k != 0);
                assert(a.drop_first()[k - 1] == x);
            }
        }
        assert forall|x: u64| #[trigger] b.drop_first().to_set().contains(x) <==> rest.contains(x) by {
            if b.drop_first().to_set().contains(x) {
                let k = choose|k: int| 0 <= k < b.drop_first().len() && b.drop_first()[k] == x;
                assert(b[k + 1] == x);
                assert(b.to_set().contains(x));
            }
            if rest.contains(x) {
                assert(b.to_set().contains(x));
                let k = choose|k: int| 0 <= k < b.len() && b[k] == x;
                assert(k != 0);
                assert(b.drop_first()[k - 1] == x);
            }
        }
        assert(a.drop_first().to_set() =~= rest);
        assert(b.drop_first().to_set() =~= rest);
        lemma_increasing_order_unique(a.drop_first(), b.drop_first(), rest);
        assert(a =~= b) by {
            assert forall|i: int| 0 <= i < a.len() implies a[i] == b[i] by {
                if i > 0 {
                    assert(a[i] == a.drop_first()[i - 1]);
                    assert(b[i] == b.drop_first()[i - 1]);
                }
            }
        }
    }
}

/// Whether `wire` closes a chain that some removed node sat in.
pub open spec fn is_bridge(
    wires: Seq<Wire>,
    removed: Map<u64, Option<(InputId, OutputId)>>,
    wire: Wire,
) -> bool {
    exists|key: u64| #[trigger] bridges_at(wires, removed, key, wire)
}

/// A chain back from a feeder of `pin` is a chain back from `pin`, one longer.
proof fn lemma_feeders_chain(
    wires: Seq<Wire>,
    removed: Map<u64, Option<(InputId, OutputId)>>,
    pin: InPin,
    first: NodeId,
    node: NodeId,
    k: nat,
)
    requires
        feeders(wires, removed, pin).contains(first),
        feeders_within(wires, removed, pass_input(removed, first), k).contains(node),
    ensures
        feeders_within(wires, removed, pin, k + 1).contains(node),
    decreases k,
{
    let outer = feeders_within(wires, removed, pin, k);
    if k == 0 {
        assert(outer.contains(first));
        assert(feeders(wires, removed, pass_input(removed, first)).contains(node));
    } else {
        let inner = feeders_within(wires, removed, pass_input(removed, first), (k - 1) as nat);
        if inner.contains(node) {
            lemma_feeders_chain(wires, removed, pin, first, node, (k - 1) as nat);
        } else {
            let via = choose|via: NodeId|
                inner.contains(via) && #[trigger] feeders(
                    wires,
                    removed,
                    pass_input(removed, via),
                ).contains(node);
            lemma_feeders_chain(wires, removed, pin, first, via, (k - 1) as nat);
            assert(outer.contains(via));
        }
    }
}

/// What feeds a feeder of `pin` feeds `pin`.
proof fn lemma_sources_through_feeder(
    wires: Seq<Wire>,
    removed: Map<u64, Option<(InputId, OutputId)>>,
    pin: InPin,
    first: NodeId,
)
    requires
        feeders(wires, removed, pin).contains(first),
    ensures
        sources_through(wires, removed, pass_input(removed, first)).subset_of(
            sources_through(wires, removed, pin),
        ),
{
    assert forall|from: OutPin|
        #[trigger] sources_through(wires, removed, pass_input(removed, first)).contains(
            from,
        ) implies sources_through(wires, removed, pin).contains(from) by {
        if direct_sources(wires, removed, pass_input(removed, first)).contains(from) {
            assert(feeders_within(wires, removed, pin, 0).contains(first));
        } else {
            let (k, via) = choose|k: nat, via: NodeId|
                #[trigger] feeders_within(wires, removed, pass_input(removed, first), k).contains(via)
                    && direct_sources(wires, removed, pass_input(removed, via)).contains(from);
            lemma_feeders_chain(wires, removed, pin, first, via, k);
        }
    }
}

/// A set of removed nodes holding every feeder of `pin`, and every feeder of
/// each of its own, holds every node a chain back from `pin` reaches.
proof fn lemma_feeders_closed(
    wires: Seq<Wire>,
    removed: Map<u64, Option<(InputId, OutputId)>>,
    pin: InPin,
    closed: Set<u64>,
    k: nat,
)
    requires
        forall|node: NodeId| #[trigger] feeders(wires, removed, pin).contains(node) ==> closed.contains(node.0),
        forall|via: NodeId, node: NodeId|
            closed.contains(via.0) && #[trigger] feeders(wires, removed, pass_input(removed, via)).contains(node)
                ==> closed.contains(node.0),
    ensures
        forall|node: NodeId| #[trigger]
            feeders_within(wires, removed, pin, k).contains(node) ==> closed.contains(node.0),
    decreases k,
{
    if k > 0 {
        lemma_feeders_closed(wires, removed, pin, closed, (k - 1) as nat);
        let nearer = feeders_within(wires, removed, pin, (k - 1) as nat);
        assert forall|node: NodeId| #[trigger]
            feeders_within(wires, removed, pin, k).contains(node) implies closed.contains(node.0) by {
            if !nearer.contains(node) {
                let via = choose|via: NodeId|
                    nearer.contains(via) && #[trigger] feeders(
                        wires,
                        removed,
                        pass_input(removed, via),
                    ).contains(node);
                assert(closed.contains(via.0));
            }
        }
    }
}

/// A chain on from a consumer of `pin` is a chain on from `pin`, one longer.
proof fn lemma_consumers_chain(
    wires: Seq<Wire>,
    removed: Map<u64, Option<(InputId, OutputId)>>,
    pin: OutPin,
    first: NodeId,
    node: NodeId,
    k: nat,
)
    requires
        consumers(wires, removed, pin).contains(first),
        consumers_within(wires, removed, pass_output(removed, first), k).contains(node),
    ensures
        consumers_within(wires, removed, pin, k + 1).contains(node),
    decreases k,
{
    let outer = consumers_within(wires, removed, pin, k);
    if k == 0 {
        assert(outer.contains(first));
        assert(consumers(wires, removed, pass_output(removed, first)).contains(node));
    } else {
        let inner = consumers_within(wires, removed, pass_output(removed, first), (k - 1) as nat);
        if inner.contains(node) {
            lemma_consumers_chain(wires, removed, pin, first, node, (k - 1) as nat);
        } else {
            let via = choose|via: NodeId|
                inner.contains(via) && #[trigger] consumers(
                    wires,
                    removed,
                    pass_output(removed, via),
                ).contains(node);
            lemma_consumers_chain(wires, removed, pin, first, via, (k - 1) as nat);
            assert(outer.contains(via));
        }
    }
}

/// What a consumer of `pin` feeds, `pin` feeds.
proof fn lemma_targets_through_consumer(
    wires: Seq<Wire>,
    removed: Map<u64, Option<(InputId, OutputId)>>,
    pin: OutPin,
    first: NodeId,
)
    requires
        consumers(wires, removed, pin).contains(first),
    ensures
        targets_through(wires, removed, pass_output(removed, first)).subset_of(
            targets_through(wires, removed, pin),
        ),
{
    assert forall|to: InPin|
        #[trigger] targets_through(wires, removed, pass_output(removed, first)).contains(
            to,
        ) implies targets_through(wires, removed, pin).contains(to) by {
        if direct_targets(wires, removed, pass_output(removed, first)).contains(to) {
            assert(consumers_within(wires, removed, pin, 0).contains(first));
        } else {
            let (k, via) = choose|k: nat, via: NodeId|
                #[trigger] consumers_within(wires, removed, pass_output(removed, first), k).contains(via)
                    && direct_targets(wires, removed, pass_output(removed, via)).contains(to);
            lemma_consumers_chain(wires, removed, pin, first, via, k);
        }
    }
}

/// A set of removed nodes holding every consumer of `pin`, and every consumer
/// of each of its own, holds every node a chain on from `pin` reaches.
proof fn lemma_consumers_closed(
    wires: Seq<Wire>,
    removed: Map<u64, Option<(InputId, OutputId)>>,
    pin: OutPin,
    closed: Set<u64>,
    k: nat,
)
    requires
        forall|node: NodeId| #[trigger] consumers(wires, removed, pin).contains(node) ==> closed.contains(node.0),
        forall|via: NodeId, node: NodeId|
            closed.contains(via.0) && #[trigger] consumers(wires, removed, pass_output(removed, via)).contains(node)
                ==> closed.contains(node.0),
    ensures
        forall|node: NodeId| #[trigger]
            consumers_within(wires, removed, pin, k).contains(node) ==> closed.contains(node.0),
    decreases k,
{
    if k > 0 {
        lemma_consumers_closed(wires, removed, pin, closed, (k - 1) as nat);
        let nearer = consumers_within(wires, removed, pin, (k - 1) as nat);
        assert forall|node: NodeId| #[trigger]
            consumers_within(wires, removed, pin, k).contains(node) implies closed.contains(node.0) by {
            if !nearer.contains(node) {
                let via = choose|via: NodeId|
                    nearer.contains(via) && #[trigger] consumers(
                        wires,
                        removed,
                        pass_output(removed, via),
                    ).contains(node);
                assert(closed.contains(via.0));
            }
        }
    }
}

/// The values in a set, in increasing order.
fn ascending(set: &BTreeSet<u64>) -> (values: Vec<u64>)
    ensures
        values@.to_set() == set@,
        forall|i: int, j: int| 0 <= i < j < values@.len() ==> values@[i] < values@[j],
{
    let mut values: Vec<u64> = Vec::new();
    for value in it: set.iter()
        invariant
            values@ == it.seq().take(it.index() as int).map_values(|r: &u64| *r),
            it.seq() == set.iter().remaining(),
    {
        values.push(*value);
    }
    proof {
        let seen = set.iter().remaining();
        assert(values@ == seen.map_values(|r: &u64| *r));
        assert(seen.unref() == seen.map_values(|r: &u64| *r));
        lemma_increasing_refs(seen);
    }
    values
}

proof fn lemma_refs_to_u64_ordered()
    ensures
        vstd::laws_cmp::obeys_cmp::<&u64>(),
{
    broadcast use vstd::laws_eq::group_laws_eq;
    broadcast use vstd::laws_cmp::group_laws_cmp;

    reveal(vstd::laws_eq::obeys_eq_spec_properties);
    reveal(vstd::laws_cmp::obeys_partial_cmp_spec_properties);
    reveal(vstd::laws_cmp::obeys_cmp_partial_ord);
    reveal(vstd::laws_cmp::obeys_cmp_ord);
    assert(vstd::laws_eq::obeys_eq::<&u64>());
}

/// A set hands out its values in increasing order.
proof fn lemma_increasing_refs(values: Seq<&u64>)
    requires
        vstd::std_specs::btree::increasing_seq(values),
    ensures
        forall|i: int, j: int| 0 <= i < j < values.len() ==> *values[i] < *values[j],
{
    lemma_refs_to_u64_ordered();
    vstd::std_specs::btree::axiom_increasing_seq_meaning::<&u64>(values);
    assert forall|i: int, j: int| 0 <= i < j < values.len() implies *values[i] < *values[j] by {
        assert(OrdSpec::cmp_spec(&values[i], &values[j]) is Less);
    }
}


impl<N> Graph<N> {
    /// The outputs feeding `pin`, looking through removed pass-through nodes.
    /// `visited` holds the removed nodes already looked through; each is
    /// looked through once.
    fn surviving_sources(
        &self,
        pin: InPin,
        removed: &BTreeMap<u64, Option<(InputId, OutputId)>>,
        visited: &mut BTreeSet<u64>,
        Ghost(fuel): Ghost<nat>,
    ) -> (sources: Vec<OutPin>)
        requires
            old(visited)@.subset_of(removed@.dom()),
            removed@.dom().len() <= fuel + old(visited)@.len(),
        ensures
            (sources@, final(visited)@) == search_sources(
                self.wire_list(),
                removed@,
                feeding(self.wire_list(), pin),
                old(visited)@,
                fuel,
            ),
            final(visited)@.subset_of(removed@.dom()),
            old(visited)@.subset_of(final(visited)@),
            forall|from: OutPin| #[trigger]
                sources@.contains(from) ==> sources_through(self.wire_list(), removed@, pin).contains(
                    from,
                ),
            forall|from: OutPin| #[trigger]
                direct_sources(self.wire_list(), removed@, pin).contains(from) ==> sources@.contains(
                    from,
                ),
            forall|node: NodeId| #[trigger]
                feeders(self.wire_list(), removed@, pin).contains(node) ==> final(visited)@.contains(
                    node.0,
                ),
            forall|key: u64| #[trigger]
                final(visited)@.contains(key) && !old(visited)@.contains(key) ==> self.looked_through(
                    removed@,
                    NodeId(key),
                    sources@,
                    final(visited)@,
                ),
        decreases removed@.dom().len() - old(visited)@.len(),
    {
        let ghost wires = self.wire_list();
        let ghost entry = visited@;
        let ghost removed_map = removed@;
        let list = self.sources_of(pin);
        let ghost fed = wires.filter(feeds(pin));
        proof {
            lemma_filter_members(wires, feeds(pin));
            vstd::set_lib::lemma_len_subset(visited@, removed@.dom());
        }
        let mut sources: Vec<OutPin> = Vec::new();
        proof {
            assert(list@.skip(0) =~= list@);
            assert(sources@ + search_sources(wires, removed@, list@, entry, fuel).0 =~= search_sources(
                wires,
                removed@,
                list@,
                entry,
                fuel,
            ).0);
        }
        for i in 0..list.len()
            invariant
                wires == self.wire_list(),
                removed_map == removed@,
                fed == wires.filter(feeds(pin)),
                list@ == fed.map_values(|wire: Wire| wire.from),
                entry == old(visited)@,
                removed@.dom().len() <= fuel + entry.len(),
                search_sources(wires, removed@, list@, entry, fuel) == (
                    sources@ + search_sources(wires, removed@, list@.skip(i as int), visited@, fuel).0,
                    search_sources(wires, removed@, list@.skip(i as int), visited@, fuel).1,
                ),
                entry.subset_of(visited@),
                visited@.subset_of(removed@.dom()),
                forall|from: OutPin| #[trigger]
                    sources@.contains(from) ==> sources_through(wires, removed@, pin).contains(from),
                forall|j: int|
                    0 <= j < i && !removed@.contains_key(#[trigger] list@[j].node.0) ==> sources@.contains(
                        list@[j],
                    ),
                forall|j: int|
                    0 <= j < i && feeders(wires, removed@, pin).contains(#[trigger] list@[j].node) && pass_output(removed@, list@[j].node)
                        == list@[j] ==> visited@.contains(list@[j].node.0),
                forall|key: u64| #[trigger]
                    visited@.contains(key) && !entry.contains(key) ==> self.looked_through(
                        removed@,
                        NodeId(key),
                        sources@,
                        visited@,
                    ),
        {
            let from = list[i];
            let ghost ahead = list@.skip(i as int);
            let ghost next = list@.skip(i + 1);
            let ghost at_entry = visited@;
            proof {
                lemma_filter_members(wires, feeds(pin));
                assert(fed[i as int].from == from);
                assert(fed.contains(fed[i as int]));
                assert(fed[i as int].to == pin);
                assert(ahead[0] == from);
                assert(ahead.drop_first() =~= next);
            }
            match removed.get(&from.node.0) {
                None => {
                    let ghost before = sources@;
                    sources.push(from);
                    proof {
                        let after = search_sources(wires, removed@, next, at_entry, fuel);
                        assert(search_sources(wires, removed@, ahead, at_entry, fuel) == (
                            seq![from] + after.0,
                            after.1,
                        ));
                        assert(before + (seq![from] + after.0) =~= sources@ + after.0);
                        let k = choose|k: int| 0 <= k < wires.len() && wires[k] == fed[i as int];
                        assert(wires[k] == (Wire { from, to: pin }));
                        assert(direct_sources(wires, removed@, pin).contains(from));
                        assert(sources@[before.len() as int] == from);
                        assert forall|x: OutPin| #[trigger] sources@.contains(x) implies sources_through(wires, removed@, pin).contains(x) by {
                            if x != from {
                                let k = choose|k: int| 0 <= k < sources@.len() && sources@[k] == x;
                                assert(before[k] == x);
                                assert(before.contains(x));
                            } else {
                                assert(direct_sources(wires, removed@, pin).contains(x));
                            }
                        }
                        assert forall|x: OutPin| before.contains(x) implies #[trigger] sources@.contains(x) by {
                            let k = choose|k: int| 0 <= k < before.len() && before[k] == x;
                            assert(sources@[k] == x);
                        }
                        self.lemma_looked_through_grows(removed@, before, visited@, sources@, visited@);
                        assert forall|j: int|
                            0 <= j <= i && !removed@.contains_key(#[trigger] list@[j].node.0) implies sources@.contains(
                            list@[j],
                        ) by {
                            if j < i {
                                assert(before.contains(list@[j]));
                            }
                        }
                    }
                },
                Some(pins) => {
                    match *pins {
                        Some((input, output)) => {
                            if output == from.output {
                                let ghost pre = visited@;
                                if visited.insert(from.node.0) {
                                proof {
                                    vstd::set_lib::lemma_set_subset_finite(removed@.dom(), pre);
                                    vstd::set_lib::lemma_len_subset(entry, pre);
                                    assert(visited@ == pre.insert(from.node.0));
                                    assert(visited@.len() == pre.len() + 1);
                                    vstd::set_lib::lemma_len_subset(visited@, removed@.dom());
                                }
                                    let ghost outer = visited@;
                                    let ghost before = sources@;
                                    proof {
                                        let k = choose|k: int| 0 <= k < wires.len() && wires[k] == fed[i as int];
                                        assert(pass_output(removed@, from.node) == from);
                                        assert(wires[k] == (Wire { from: pass_output(removed@, from.node), to: pin }));
                                        assert(feeders(wires, removed@, pin).contains(from.node));
                                        lemma_sources_through_feeder(wires, removed@, pin, from.node);
                                        vstd::set_lib::lemma_len_subset(outer, removed@.dom());
                                    }
                                    proof {
                                        vstd::set_lib::lemma_len_subset(entry, pre);
                                    }
                                    let mut found = self.surviving_sources(
                                        InPin { node: from.node, input },
                                        removed,
                                        visited,
                                        Ghost((fuel - 1) as nat),
                                    );
                                    let ghost inner = found@;
                                    sources.append(&mut found);
                                    proof {
                                        assert(pass_input(removed@, from.node) == (InPin { node: from.node, input }));
                                        let after = search_sources(wires, removed@, next, visited@, fuel);
                                        assert(search_sources(wires, removed@, ahead, at_entry, fuel) == (
                                            inner + after.0,
                                            after.1,
                                        ));
                                        assert(before + (inner + after.0) =~= sources@ + after.0);
                                        assert(pass_input(removed@, from.node) == (InPin { node: from.node, input }));
                                        assert forall|x: OutPin| #[trigger] sources@.contains(x) implies sources_through(wires, removed@, pin).contains(x) by {
                                            if !before.contains(x) {
                                                let k = choose|k: int| 0 <= k < sources@.len() && sources@[k] == x;
                                                assert(inner[k - before.len()] == x);
                                                assert(inner.contains(x));
                                            }
                                        }
                                        assert forall|x: OutPin| before.contains(x) implies #[trigger] sources@.contains(x) by {
                                            let k = choose|k: int| 0 <= k < before.len() && before[k] == x;
                                            assert(sources@[k] == x);
                                        }
                                        assert forall|x: OutPin| inner.contains(x) implies #[trigger] sources@.contains(x) by {
                                            let k = choose|k: int| 0 <= k < inner.len() && inner[k] == x;
                                            assert(sources@[before.len() + k] == x);
                                        }
                                        self.lemma_looked_through_grows(removed@, before, outer, sources@, visited@);
                                        assert(self.looked_through(removed@, from.node, sources@, visited@));
                                        assert forall|key: u64| #[trigger] visited@.contains(key) && !entry.contains(key) implies self.looked_through(
                                            removed@,
                                            NodeId(key),
                                            sources@,
                                            visited@,
                                        ) by {
                                            if outer.contains(key) && key != from.node.0 {
                                                assert(self.looked_through(removed@, NodeId(key), before, outer));
                                            } else if !outer.contains(key) {
                                                assert(self.looked_through(removed@, NodeId(key), inner, visited@));
                                            }
                                        }
                                    }
                                } else {
                                    proof {
                                    assert(visited@ =~= at_entry);
                                    let after = search_sources(wires, removed@, next, at_entry, fuel);
                                    assert(search_sources(wires, removed@, ahead, at_entry, fuel) == (
                                        Seq::<OutPin>::empty() + after.0,
                                        after.1,
                                    ));
                                    assert(sources@ + (Seq::<OutPin>::empty() + after.0) =~= sources@ + after.0);
                                }
                                }
                            } else {
                                proof {
                                    let after = search_sources(wires, removed@, next, at_entry, fuel);
                                    assert(search_sources(wires, removed@, ahead, at_entry, fuel) == (
                                        Seq::<OutPin>::empty() + after.0,
                                        after.1,
                                    ));
                                    assert(sources@ + (Seq::<OutPin>::empty() + after.0) =~= sources@ + after.0);
                                }
                            }
                        },
                        None => {
                            proof {
                                    let after = search_sources(wires, removed@, next, at_entry, fuel);
                                    assert(search_sources(wires, removed@, ahead, at_entry, fuel) == (
                                        Seq::<OutPin>::empty() + after.0,
                                        after.1,
                                    ));
                                    assert(sources@ + (Seq::<OutPin>::empty() + after.0) =~= sources@ + after.0);
                                }
                        },
                    }
                },
            }
        }
        proof {
            assert(list@.skip(list@.len() as int) =~= Seq::<OutPin>::empty());
            assert(sources@ + Seq::<OutPin>::empty() =~= sources@);
        }
        proof {
            assert forall|from: OutPin| #[trigger]
                direct_sources(wires, removed@, pin).contains(from) implies sources@.contains(from) by {
                let k = choose|k: int| 0 <= k < wires.len() && wires[k] == (Wire { from, to: pin });
                assert(fed.contains(wires[k]));
                let j = choose|j: int| 0 <= j < fed.len() && fed[j] == wires[k];
                assert(list@[j] == from);
            }
            assert forall|node: NodeId| #[trigger]
                feeders(wires, removed@, pin).contains(node) implies visited@.contains(node.0) by {
                let k = choose|k: int| 0 <= k < wires.len() && wires[k] == (Wire { from: pass_output(removed@, node), to: pin });
                assert(fed.contains(wires[k]));
                let j = choose|j: int| 0 <= j < fed.len() && fed[j] == wires[k];
                assert(list@[j] == pass_output(removed@, node));
                assert(feeders(wires, removed@, pin).contains(list@[j].node));
            }
        }
        sources
    }

    /// Whether removed node `node` has been looked through: it has
    /// pass-through pins, whatever surviving output feeds its pass-through
    /// input directly is among `sources`, and every removed node feeding that
    /// input is in `visited`.
    spec fn looked_through(
        &self,
        removed: Map<u64, Option<(InputId, OutputId)>>,
        node: NodeId,
        sources: Seq<OutPin>,
        visited: Set<u64>,
    ) -> bool {
        &&& pass_pins(removed, node) is Some
        &&& forall|from: OutPin| #[trigger]
            direct_sources(self.wire_list(), removed, pass_input(removed, node)).contains(from)
                ==> sources.contains(from)
        &&& forall|feeder: NodeId| #[trigger]
            feeders(self.wire_list(), removed, pass_input(removed, node)).contains(feeder)
                ==> visited.contains(feeder.0)
    }

    /// Looking through from `pin` with nothing visited yet finds every
    /// output that feeds it.
    proof fn lemma_every_source_found(
        &self,
        removed: Map<u64, Option<(InputId, OutputId)>>,
        pin: InPin,
        sources: Seq<OutPin>,
        visited: Set<u64>,
    )
        requires
            forall|from: OutPin| #[trigger]
                sources.contains(from) ==> sources_through(self.wire_list(), removed, pin).contains(from),
            forall|from: OutPin| #[trigger]
                direct_sources(self.wire_list(), removed, pin).contains(from) ==> sources.contains(from),
            forall|node: NodeId| #[trigger]
                feeders(self.wire_list(), removed, pin).contains(node) ==> visited.contains(node.0),
            forall|key: u64| #[trigger]
                visited.contains(key) && !Set::<u64>::empty().contains(key) ==> self.looked_through(
                    removed,
                    NodeId(key),
                    sources,
                    visited,
                ),
        ensures
            forall|from: OutPin| #[trigger]
                sources.contains(from) <==> sources_through(self.wire_list(), removed, pin).contains(from),
    {
        let wires = self.wire_list();
        assert forall|via: NodeId, node: NodeId|
            visited.contains(via.0) && #[trigger] feeders(wires, removed, pass_input(removed, via)).contains(node)
                implies visited.contains(node.0) by {
            assert(self.looked_through(removed, NodeId(via.0), sources, visited));
        }
        assert forall|from: OutPin| #[trigger]
            sources_through(wires, removed, pin).contains(from) implies sources.contains(from) by {
            if !direct_sources(wires, removed, pin).contains(from) {
                let (k, via) = choose|k: nat, via: NodeId|
                    #[trigger] feeders_within(wires, removed, pin, k).contains(via) && direct_sources(
                        wires,
                        removed,
                        pass_input(removed, via),
                    ).contains(from);
                lemma_feeders_closed(wires, removed, pin, visited, k);
                assert(visited.contains(via.0));
                assert(self.looked_through(removed, NodeId(via.0), sources, visited));
            }
        }
    }

    /// Looking on through from `pin` with nothing visited yet finds every
    /// input it feeds.
    proof fn lemma_every_target_found(
        &self,
        removed: Map<u64, Option<(InputId, OutputId)>>,
        pin: OutPin,
        targets: Seq<InPin>,
        visited: Set<u64>,
    )
        requires
            forall|to: InPin| #[trigger]
                targets.contains(to) ==> targets_through(self.wire_list(), removed, pin).contains(to),
            forall|to: InPin| #[trigger]
                direct_targets(self.wire_list(), removed, pin).contains(to) ==> targets.contains(to),
            forall|node: NodeId| #[trigger]
                consumers(self.wire_list(), removed, pin).contains(node) ==> visited.contains(node.0),
            forall|key: u64| #[trigger]
                visited.contains(key) && !Set::<u64>::empty().contains(key) ==> self.looked_on(
                    removed,
                    NodeId(key),
                    targets,
                    visited,
                ),
        ensures
            forall|to: InPin| #[trigger]
                targets.contains(to) <==> targets_through(self.wire_list(), removed, pin).contains(to),
    {
        let wires = self.wire_list();
        assert forall|via: NodeId, node: NodeId|
            visited.contains(via.0) && #[trigger] consumers(wires, removed, pass_output(removed, via)).contains(node)
                implies visited.contains(node.0) by {
            assert(self.looked_on(removed, NodeId(via.0), targets, visited));
        }
        assert forall|to: InPin| #[trigger]
            targets_through(wires, removed, pin).contains(to) implies targets.contains(to) by {
            if !direct_targets(wires, removed, pin).contains(to) {
                let (k, via) = choose|k: nat, via: NodeId|
                    #[trigger] consumers_within(wires, removed, pin, k).contains(via) && direct_targets(
                        wires,
                        removed,
                        pass_output(removed, via),
                    ).contains(to);
                lemma_consumers_closed(wires, removed, pin, visited, k);
                assert(visited.contains(via.0));
                assert(self.looked_on(removed, NodeId(via.0), targets, visited));
            }
        }
    }

    /// Looked through stays looked through as the sources and the visited
    /// set grow.
    proof fn lemma_looked_through_grows(
        &self,
        removed: Map<u64, Option<(InputId, OutputId)>>,
        sources: Seq<OutPin>,
        visited: Set<u64>,
        more_sources: Seq<OutPin>,
        more_visited: Set<u64>,
    )
        requires
            forall|from: OutPin| sources.contains(from) ==> #[trigger] more_sources.contains(from),
            visited.subset_of(more_visited),
        ensures
            forall|node: NodeId| #[trigger]
                self.looked_through(removed, node, sources, visited) ==> self.looked_through(
                    removed,
                    node,
                    more_sources,
                    more_visited,
                ),
    {
    }

    /// The inputs fed by `pin`, looking through removed pass-through nodes.
    /// `visited` holds the removed nodes already looked through; each is
    /// looked through once.
    fn surviving_targets(
        &self,
        pin: OutPin,
        removed: &BTreeMap<u64, Option<(InputId, OutputId)>>,
        visited: &mut BTreeSet<u64>,
        Ghost(fuel): Ghost<nat>,
    ) -> (targets: Vec<InPin>)
        requires
            old(visited)@.subset_of(removed@.dom()),
            removed@.dom().len() <= fuel + old(visited)@.len(),
        ensures
            (targets@, final(visited)@) == search_targets(
                self.wire_list(),
                removed@,
                fed_from(self.wire_list(), pin),
                old(visited)@,
                fuel,
            ),
            final(visited)@.subset_of(removed@.dom()),
            old(visited)@.subset_of(final(visited)@),
            forall|to: InPin| #[trigger]
                targets@.contains(to) ==> targets_through(self.wire_list(), removed@, pin).contains(
                    to,
                ),
            forall|to: InPin| #[trigger]
                direct_targets(self.wire_list(), removed@, pin).contains(to) ==> targets@.contains(
                    to,
                ),
            forall|node: NodeId| #[trigger]
                consumers(self.wire_list(), removed@, pin).contains(node) ==> final(visited)@.contains(
                    node.0,
                ),
            forall|key: u64| #[trigger]
                final(visited)@.contains(key) && !old(visited)@.contains(key) ==> self.looked_on(
                    removed@,
                    NodeId(key),
                    targets@,
                    final(visited)@,
                ),
        decreases removed@.dom().len() - old(visited)@.len(),
    {
        let ghost wires = self.wire_list();
        let ghost entry = visited@;
        let ghost removed_map = removed@;
        let list = self.targets_of(pin);
        let ghost fed = wires.filter(leaves(pin));
        proof {
            lemma_filter_members(wires, leaves(pin));
            vstd::set_lib::lemma_len_subset(visited@, removed@.dom());
        }
        let mut targets: Vec<InPin> = Vec::new();
        proof {
            assert(list@.skip(0) =~= list@);
            assert(targets@ + search_targets(wires, removed@, list@, entry, fuel).0 =~= search_targets(
                wires,
                removed@,
                list@,
                entry,
                fuel,
            ).0);
        }
        for i in 0..list.len()
            invariant
                wires == self.wire_list(),
                removed_map == removed@,
                fed == wires.filter(leaves(pin)),
                list@ == fed.map_values(|wire: Wire| wire.to),
                entry == old(visited)@,
                removed@.dom().len() <= fuel + entry.len(),
                search_targets(wires, removed@, list@, entry, fuel) == (
                    targets@ + search_targets(wires, removed@, list@.skip(i as int), visited@, fuel).0,
                    search_targets(wires, removed@, list@.skip(i as int), visited@, fuel).1,
                ),
                entry.subset_of(visited@),
                visited@.subset_of(removed@.dom()),
                forall|to: InPin| #[trigger]
                    targets@.contains(to) ==> targets_through(wires, removed@, pin).contains(to),
                forall|j: int|
                    0 <= j < i && !removed@.contains_key(#[trigger] list@[j].node.0) ==> targets@.contains(
                        list@[j],
                    ),
                forall|j: int|
                    0 <= j < i && consumers(wires, removed@, pin).contains(#[trigger] list@[j].node) && pass_input(removed@, list@[j].node)
                        == list@[j] ==> visited@.contains(list@[j].node.0),
                forall|key: u64| #[trigger]
                    visited@.contains(key) && !entry.contains(key) ==> self.looked_on(
                        removed@,
                        NodeId(key),
                        targets@,
                        visited@,
                    ),
        {
            let to = list[i];
            let ghost ahead = list@.skip(i as int);
            let ghost next = list@.skip(i + 1);
            let ghost at_entry = visited@;
            proof {
                lemma_filter_members(wires, leaves(pin));
                assert(fed[i as int].to == to);
                assert(fed.contains(fed[i as int]));
                assert(fed[i as int].from == pin);
                assert(ahead[0] == to);
                assert(ahead.drop_first() =~= next);
            }
            match removed.get(&to.node.0) {
                None => {
                    let ghost before = targets@;
                    targets.push(to);
                    proof {
                        let after = search_targets(wires, removed@, next, at_entry, fuel);
                        assert(search_targets(wires, removed@, ahead, at_entry, fuel) == (
                            seq![to] + after.0,
                            after.1,
                        ));
                        assert(before + (seq![to] + after.0) =~= targets@ + after.0);
                        let k = choose|k: int| 0 <= k < wires.len() && wires[k] == fed[i as int];
                        assert(wires[k] == (Wire { from: pin, to }));
                        assert(direct_targets(wires, removed@, pin).contains(to));
                        assert(targets@[before.len() as int] == to);
                        assert forall|x: InPin| #[trigger] targets@.contains(x) implies targets_through(wires, removed@, pin).contains(x) by {
                            if x != to {
                                let k = choose|k: int| 0 <= k < targets@.len() && targets@[k] == x;
                                assert(before[k] == x);
                                assert(before.contains(x));
                            } else {
                                assert(direct_targets(wires, removed@, pin).contains(x));
                            }
                        }
                        assert forall|x: InPin| before.contains(x) implies #[trigger] targets@.contains(x) by {
                            let k = choose|k: int| 0 <= k < before.len() && before[k] == x;
                            assert(targets@[k] == x);
                        }
                        self.lemma_looked_on_grows(removed@, before, visited@, targets@, visited@);
                        assert forall|j: int|
                            0 <= j <= i && !removed@.contains_key(#[trigger] list@[j].node.0) implies targets@.contains(
                            list@[j],
                        ) by {
                            if j < i {
                                assert(before.contains(list@[j]));
                            }
                        }
                    }
                },
                Some(pins) => {
                    match *pins {
                        Some((input, output)) => {
                            if input == to.input {
                                let ghost pre = visited@;
                                if visited.insert(to.node.0) {
                                proof {
                                    vstd::set_lib::lemma_set_subset_finite(removed@.dom(), pre);
                                    vstd::set_lib::lemma_len_subset(entry, pre);
                                    assert(visited@ == pre.insert(to.node.0));
                                    assert(visited@.len() == pre.len() + 1);
                                    vstd::set_lib::lemma_len_subset(visited@, removed@.dom());
                                }
                                    let ghost outer = visited@;
                                    let ghost before = targets@;
                                    proof {
                                        let k = choose|k: int| 0 <= k < wires.len() && wires[k] == fed[i as int];
                                        assert(pass_input(removed@, to.node) == to);
                                        assert(wires[k] == (Wire { from: pin, to: pass_input(removed@, to.node) }));
                                        assert(consumers(wires, removed@, pin).contains(to.node));
                                        lemma_targets_through_consumer(wires, removed@, pin, to.node);
                                        vstd::set_lib::lemma_len_subset(outer, removed@.dom());
                                    }
                                    proof {
                                        vstd::set_lib::lemma_len_subset(entry, pre);
                                    }
                                    let mut found = self.surviving_targets(
                                        OutPin { node: to.node, output },
                                        removed,
                                        visited,
                                        Ghost((fuel - 1) as nat),
                                    );
                                    let ghost inner = found@;
                                    targets.append(&mut found);
                                    proof {
                                        assert(pass_output(removed@, to.node) == (OutPin { node: to.node, output }));
                                        let after = search_targets(wires, removed@, next, visited@, fuel);
                                        assert(search_targets(wires, removed@, ahead, at_entry, fuel) == (
                                            inner + after.0,
                                            after.1,
                                        ));
                                        assert(before + (inner + after.0) =~= targets@ + after.0);
                                        assert(pass_output(removed@, to.node) == (OutPin { node: to.node, output }));
                                        assert forall|x: InPin| #[trigger] targets@.contains(x) implies targets_through(wires, removed@, pin).contains(x) by {
                                            if !before.contains(x) {
                                                let k = choose|k: int| 0 <= k < targets@.len() && targets@[k] == x;
                                                assert(inner[k - before.len()] == x);
                                                assert(inner.contains(x));
                                            }
                                        }
                                        assert forall|x: InPin| before.contains(x) implies #[trigger] targets@.contains(x) by {
                                            let k = choose|k: int| 0 <= k < before.len() && before[k] == x;
                                            assert(targets@[k] == x);
                                        }
                                        assert forall|x: InPin| inner.contains(x) implies #[trigger] targets@.contains(x) by {
                                            let k = choose|k: int| 0 <= k < inner.len() && inner[k] == x;
                                            assert(targets@[before.len() + k] == x);
                                        }
                                        self.lemma_looked_on_grows(removed@, before, outer, targets@, visited@);
                                        assert(self.looked_on(removed@, to.node, targets@, visited@));
                                        assert forall|key: u64| #[trigger] visited@.contains(key) && !entry.contains(key) implies self.looked_on(
                                            removed@,
                                            NodeId(key),
                                            targets@,
                                            visited@,
                                        ) by {
                                            if outer.contains(key) && key != to.node.0 {
                                                assert(self.looked_on(removed@, NodeId(key), before, outer));
                                            } else if !outer.contains(key) {
                                                assert(self.looked_on(removed@, NodeId(key), inner, visited@));
                                            }
                                        }
                                    }
                                } else {
                                    proof {
                                    assert(visited@ =~= at_entry);
                                    let after = search_targets(wires, removed@, next, at_entry, fuel);
                                    assert(search_targets(wires, removed@, ahead, at_entry, fuel) == (
                                        Seq::<InPin>::empty() + after.0,
                                        after.1,
                                    ));
                                    assert(targets@ + (Seq::<InPin>::empty() + after.0) =~= targets@ + after.0);
                                }
                                }
                            } else {
                                proof {
                                    let after = search_targets(wires, removed@, next, at_entry, fuel);
                                    assert(search_targets(wires, removed@, ahead, at_entry, fuel) == (
                                        Seq::<InPin>::empty() + after.0,
                                        after.1,
                                    ));
                                    assert(targets@ + (Seq::<InPin>::empty() + after.0) =~= targets@ + after.0);
                                }
                            }
                        },
                        None => {
                            proof {
                                    let after = search_targets(wires, removed@, next, at_entry, fuel);
                                    assert(search_targets(wires, removed@, ahead, at_entry, fuel) == (
                                        Seq::<InPin>::empty() + after.0,
                                        after.1,
                                    ));
                                    assert(targets@ + (Seq::<InPin>::empty() + after.0) =~= targets@ + after.0);
                                }
                        },
                    }
                },
            }
        }
        proof {
            assert(list@.skip(list@.len() as int) =~= Seq::<InPin>::empty());
            assert(targets@ + Seq::<InPin>::empty() =~= targets@);
        }
        proof {
            assert forall|to: InPin| #[trigger]
                direct_targets(wires, removed@, pin).contains(to) implies targets@.contains(to) by {
                let k = choose|k: int| 0 <= k < wires.len() && wires[k] == (Wire { from: pin, to });
                assert(fed.contains(wires[k]));
                let j = choose|j: int| 0 <= j < fed.len() && fed[j] == wires[k];
                assert(list@[j] == to);
            }
            assert forall|node: NodeId| #[trigger]
                consumers(wires, removed@, pin).contains(node) implies visited@.contains(node.0) by {
                let k = choose|k: int| 0 <= k < wires.len() && wires[k] == (Wire { from: pin, to: pass_input(removed@, node) });
                assert(fed.contains(wires[k]));
                let j = choose|j: int| 0 <= j < fed.len() && fed[j] == wires[k];
                assert(list@[j] == pass_input(removed@, node));
                assert(consumers(wires, removed@, pin).contains(list@[j].node));
            }
        }
        targets
    }

    /// Whether removed node `node` has been looked on through: it has
    /// pass-through pins, whatever surviving input its pass-through output
    /// feeds directly is among `targets`, and every removed node that output
    /// feeds is in `visited`.
    spec fn looked_on(
        &self,
        removed: Map<u64, Option<(InputId, OutputId)>>,
        node: NodeId,
        targets: Seq<InPin>,
        visited: Set<u64>,
    ) -> bool {
        &&& pass_pins(removed, node) is Some
        &&& forall|to: InPin| #[trigger]
            direct_targets(self.wire_list(), removed, pass_output(removed, node)).contains(to)
                ==> targets.contains(to)
        &&& forall|consumer: NodeId| #[trigger]
            consumers(self.wire_list(), removed, pass_output(removed, node)).contains(consumer)
                ==> visited.contains(consumer.0)
    }

    /// Looked on through stays so as the targets and the visited
    /// set grow.
    proof fn lemma_looked_on_grows(
        &self,
        removed: Map<u64, Option<(InputId, OutputId)>>,
        targets: Seq<InPin>,
        visited: Set<u64>,
        more_targets: Seq<InPin>,
        more_visited: Set<u64>,
    )
        requires
            forall|to: InPin| targets.contains(to) ==> #[trigger] more_targets.contains(to),
            visited.subset_of(more_visited),
        ensures
            forall|node: NodeId| #[trigger]
                self.looked_on(removed, node, targets, visited) ==> self.looked_on(
                    removed,
                    node,
                    more_targets,
                    more_visited,
                ),
    {
    }
}

/// Whether `wire` is in the list.
fn listed(list: &[Wire], wire: &Wire) -> (found: bool)
    ensures
        found == list@.contains(*wire),
{
    let count = list.len();
    for i in 0..count
        invariant
            count == list@.len(),
            forall|j: int| 0 <= j < i ==> list@[j] != *wire,
    {
        if list[i] == *wire {
            return true;
        }
    }
    false
}

impl<N> Graph<N> {
    /// The wires that close the chains `removed` nodes sit in: for every node
    /// removed with pass-through pins `(input, output)`, whatever feeds its
    /// input gets wired to whatever its output feeds - through any other
    /// removed node in between, so deleting `B` and `C` out of
    /// `A -> B -> C -> D` yields `A -> D`. Wires already present, and wires
    /// that would loop a node into itself, are left out. A removed node with
    /// no pass-through pins breaks its chain. `removed` is keyed by the value
    /// of each removed node's id. The bridges come node by node in id order;
    /// for each node, source by source in the order the search back from its
    /// input meets them, and for each source, target by target in the order
    /// the search on from its output meets them.
    pub fn bridges_over(&self, removed: &BTreeMap<u64, Option<(InputId, OutputId)>>) -> (bridges:
        Vec<Wire>)
        ensures
            bridges@.no_duplicates(),
            forall|wire: Wire| #[trigger]
                bridges@.contains(wire) <==> is_bridge(self.wire_list(), removed@, wire),
            exists|keys: Seq<u64>|
                in_increasing_order(keys, removed@.dom()) && bridges@ == #[trigger] bridge_list(
                    self.wire_list(),
                    removed@,
                    keys,
                ),
    {
        let wires = self.wires();
        let mut bridges: Vec<Wire> = Vec::new();
        for entry in it: removed.iter()
            invariant
                it.seq() == removed.iter().remaining(),
                wires@ == self.wire_list(),
                bridges@ == bridge_list(
                    wires@,
                    removed@,
                    it.seq().take(it.index() as int).map_values(
                        |e: (&u64, &Option<(InputId, OutputId)>)| *e.0,
                    ),
                ),
                bridges@.no_duplicates(),
                forall|wire: Wire| #[trigger]
                    bridges@.contains(wire) <==> exists|j: int|
                        0 <= j < it.index() && #[trigger] bridges_at(
                            wires@,
                            removed@,
                            *it.seq()[j].0,
                            wire,
                        ),
        {
            let ghost index = it.index();
            let node = *entry.0;
            let ghost keys_before = it.seq().take(index as int).map_values(
                |e: (&u64, &Option<(InputId, OutputId)>)| *e.0,
            );
            let ghost keys_after = it.seq().take(index + 1).map_values(
                |e: (&u64, &Option<(InputId, OutputId)>)| *e.0,
            );
            proof {
                assert(removed@.contains_key(node) && removed@[node] == *entry.1);
                assert(it.seq()[index] == entry);
                assert(keys_after.drop_last() =~= keys_before);
                assert(keys_after.last() == node);
            }
            let ghost earlier = bridges@;
            match *entry.1 {
                None => {
                    proof {
                        assert forall|wire: Wire|
                            bridges_at(wires@, removed@, node, wire) implies false by {}
                    }
                },
                Some((input, output)) => {
                    let mut fed: BTreeSet<u64> = BTreeSet::new();
                    let sources = self.surviving_sources(
                        InPin { node: NodeId(node), input },
                        removed,
                        &mut fed,
                        Ghost(removed@.dom().len()),
                    );
                    let mut fedby: BTreeSet<u64> = BTreeSet::new();
                    let targets = self.surviving_targets(
                        OutPin { node: NodeId(node), output },
                        removed,
                        &mut fedby,
                        Ghost(removed@.dom().len()),
                    );
                    proof {
                        assert(pass_input(removed@, NodeId(node)) == (InPin { node: NodeId(node), input }));
                        assert(pass_output(removed@, NodeId(node)) == (OutPin { node: NodeId(node), output }));
                        assert(sources@.take(0) =~= Seq::<OutPin>::empty());
                        self.lemma_every_source_found(removed@, InPin { node: NodeId(node), input }, sources@, fed@);
                        self.lemma_every_target_found(removed@, OutPin { node: NodeId(node), output }, targets@, fedby@);
                    }
                    for i in 0..sources.len()
                        invariant
                            bridges@ == pair_up(earlier, wires@, sources@.take(i as int), targets@),
                            wires@ == self.wire_list(),
                            bridges@.no_duplicates(),
                            pass_pins(removed@, NodeId(node)) == Some((input, output)),
                            forall|from: OutPin| #[trigger] sources@.contains(from) <==> sources_through(wires@, removed@, pass_input(removed@, NodeId(node))).contains(from),
                            forall|to: InPin| #[trigger] targets@.contains(to) <==> targets_through(wires@, removed@, pass_output(removed@, NodeId(node))).contains(to),
                            forall|wire: Wire| #[trigger]
                                bridges@.contains(wire) <==> earlier.contains(wire) || (
                                    bridges_at(wires@, removed@, node, wire) && exists|a: int| 0 <= a < i && sources@[a] == wire.from),
                    {
                        let from = sources[i];
                        let ghost middle = bridges@;
                        proof {
                            assert(targets@.take(0) =~= Seq::<InPin>::empty());
                        }
                        for t in 0..targets.len()
                            invariant
                                bridges@ == pair_row(middle, wires@, from, targets@.take(t as int)),
                                wires@ == self.wire_list(),
                                bridges@.no_duplicates(),
                                i < sources@.len(),
                                from == sources@[i as int],
                                pass_pins(removed@, NodeId(node)) == Some((input, output)),
                                forall|from: OutPin| #[trigger] sources@.contains(from) <==> sources_through(wires@, removed@, pass_input(removed@, NodeId(node))).contains(from),
                                forall|to: InPin| #[trigger] targets@.contains(to) <==> targets_through(wires@, removed@, pass_output(removed@, NodeId(node))).contains(to),
                                forall|wire: Wire| #[trigger]
                                    bridges@.contains(wire) <==> middle.contains(wire) || (
                                        bridges_at(wires@, removed@, node, wire) && wire.from == from && exists|b: int| 0 <= b < t && targets@[b] == wire.to),
                        {
                            let to = targets[t];
                            let wire = Wire { from, to };
                            proof {
                                assert(sources@.contains(sources@[i as int]));
                                assert(targets@.contains(targets@[t as int]));
                                assert(targets@.take(t + 1).drop_last() =~= targets@.take(t as int));
                                assert(targets@.take(t + 1).last() == to);
                            }
                            if from.node != to.node && !listed(wires, &wire) && !listed(
                                bridges.as_slice(),
                                &wire,
                            ) {
                                let ghost grown = bridges@;
                                bridges.push(wire);
                                proof {
                                    assert(bridges_at(wires@, removed@, node, wire));
                                    assert(bridges@[grown.len() as int] == wire);
                                    assert forall|x: Wire| #[trigger] bridges@.contains(x) <==> grown.contains(x) || x == wire by {
                                        if bridges@.contains(x) && x != wire {
                                            let k = choose|k: int| 0 <= k < bridges@.len() && bridges@[k] == x;
                                            assert(grown[k] == x);
                                        }
                                        if grown.contains(x) {
                                            let k = choose|k: int| 0 <= k < grown.len() && grown[k] == x;
                                            assert(bridges@[k] == x);
                                        }
                                    }
                                }
                            }
                        }
                        proof {
                            assert(targets@.take(targets@.len() as int) =~= targets@);
                            assert(sources@.take(i + 1).drop_last() =~= sources@.take(i as int));
                            assert(sources@.take(i + 1).last() == from);
                            assert forall|wire: Wire| #[trigger]
                                bridges@.contains(wire) <==> earlier.contains(wire) || (
                                    bridges_at(wires@, removed@, node, wire) && exists|a: int| 0 <= a < i + 1 && sources@[a] == wire.from) by {
                                if bridges_at(wires@, removed@, node, wire) && wire.from == from {
                                    assert(targets@.contains(wire.to));
                                    let b = choose|b: int| 0 <= b < targets@.len() && targets@[b] == wire.to;
                                }
                            }
                        }
                    }
                    proof {
                        assert(sources@.take(sources@.len() as int) =~= sources@);
                        assert forall|wire: Wire| #[trigger]
                            bridges@.contains(wire) <==> earlier.contains(wire) || bridges_at(wires@, removed@, node, wire) by {
                            if bridges_at(wires@, removed@, node, wire) {
                                assert(sources@.contains(wire.from));
                                let a = choose|a: int| 0 <= a < sources@.len() && sources@[a] == wire.from;
                            }
                        }
                    }
                },
            }
            proof {
                assert(it.seq()[index] == entry);
            }
        }
        proof {
            let seen = removed.iter().remaining();
            assert forall|wire: Wire| #[trigger]
                bridges@.contains(wire) <==> is_bridge(self.wire_list(), removed@, wire) by {
                if is_bridge(self.wire_list(), removed@, wire) {
                    let key = choose|key: u64| #[trigger] bridges_at(wires@, removed@, key, wire);
                    assert(removed@.contains_key(key));
                    assert(seen.contains((&key, &removed@[key])));
                    let j = choose|j: int| 0 <= j < seen.len() && seen[j] == (&key, &removed@[key]);
                    assert(bridges_at(wires@, removed@, *seen[j].0, wire));
                }
            }
            let keys = seen.map_values(|e: (&u64, &Option<(InputId, OutputId)>)| *e.0);
            assert(seen.take(seen.len() as int) =~= seen);
            lemma_increasing_keys(keys);
            assert forall|key: u64| #[trigger] keys.to_set().contains(key) <==> removed@.dom().contains(
                key,
            ) by {
                if removed@.dom().contains(key) {
                    assert(seen.contains((&key, &removed@[key])));
                    let j = choose|j: int| 0 <= j < seen.len() && seen[j] == (&key, &removed@[key]);
                    assert(keys[j] == key);
                }
                if keys.to_set().contains(key) {
                    let j = choose|j: int| 0 <= j < keys.len() && keys[j] == key;
                    assert(removed@.contains_key(*seen[j].0));
                }
            }
            assert(keys.to_set() =~= removed@.dom());
            assert(in_increasing_order(keys, removed@.dom()));
            assert(bridges@ == bridge_list(self.wire_list(), removed@, keys));
        }
        bridges
    }
}

impl<N> Graph<N> {
    /// Every node reachable by following wires forward from `start`, in id
    /// order. `start` itself appears only if a cycle leads back to it.
    pub fn downstream_nodes(&self, start: NodeId) -> (nodes: Vec<NodeId>)
        ensures
            forall|n: NodeId| nodes@.contains(n) <==> reaches(self.wire_list(), true, start, n),
            forall|i: int, j: int| 0 <= i < j < nodes@.len() ==> nodes@[i].0 < nodes@[j].0,
    {
        self.reachable(start, true)
    }

    /// Every node reachable by following wires backward from `start`, in id
    /// order. `start` itself appears only if a cycle leads back to it.
    pub fn upstream_nodes(&self, start: NodeId) -> (nodes: Vec<NodeId>)
        ensures
            forall|n: NodeId| nodes@.contains(n) <==> reaches(self.wire_list(), false, start, n),
            forall|i: int, j: int| 0 <= i < j < nodes@.len() ==> nodes@[i].0 < nodes@[j].0,
    {
        self.reachable(start, false)
    }

    fn reachable(&self, start: NodeId, forward: bool) -> (nodes: Vec<NodeId>)
        ensures
            forall|n: NodeId| nodes@.contains(n) <==> reaches(self.wire_list(), forward, start, n),
            forall|i: int, j: int| 0 <= i < j < nodes@.len() ==> nodes@[i].0 < nodes@[j].0,
    {
        let wires = self.wires();
        let ghost ends = far_ends(wires@, forward);
        proof {
            far_end_list(wires@, forward).lemma_cardinality_of_set();
        }
        let mut reached: BTreeSet<u64> = BTreeSet::new();
        let mut frontier: Vec<NodeId> = Vec::new();
        frontier.push(start);
        assert(frontier@[0] == start);
        while frontier.len() > 0
            invariant
                wires@ == self.wire_list(),
                ends.finite(),
                ends == far_ends(wires@, forward),
                reached@.subset_of(ends),
                forall|r: u64| #[trigger]
                    reached@.contains(r) ==> reaches(wires@, forward, start, NodeId(r)),
                forall|i: int|
                    0 <= i < frontier@.len() ==> #[trigger] frontier@[i] == start || reached@.contains(
                        frontier@[i].0,
                    ),
                frontier@.contains(start) || closed_at(wires@, forward, start, reached@),
                forall|r: u64| #[trigger]
                    reached@.contains(r) ==> frontier@.contains(NodeId(r)) || closed_at(
                        wires@,
                        forward,
                        NodeId(r),
                        reached@,
                    ),
            decreases ends.len() - reached@.len(), frontier@.len(),
        {
            proof {
                vstd::set_lib::lemma_len_subset(reached@, ends);
            }
            let ghost queued = frontier@;
            let node = frontier.pop().unwrap();
            let ghost before = reached@;
            let ghost waiting = frontier@;
            assert(node == queued.last());
            assert(node == start || before.contains(node.0));
            let count = wires.len();
            for i in 0..count
                invariant
                    count == wires@.len(),
                    wires@ == self.wire_list(),
                    ends.finite(),
                    ends == far_ends(wires@, forward),
                ends == far_ends(wires@, forward),
                    reached@.subset_of(ends),
                    before.subset_of(reached@),
                    node == start || before.contains(node.0),
                    forall|r: u64| #[trigger]
                        reached@.contains(r) ==> reaches(wires@, forward, start, NodeId(r)),
                    frontier@.len() >= waiting.len(),
                    forall|k: int| 0 <= k < waiting.len() ==> frontier@[k] == #[trigger] waiting[k],
                    forall|k: int|
                        waiting.len() <= k < frontier@.len() ==> #[trigger] reached@.contains(
                            frontier@[k].0,
                        ),
                    forall|r: u64| #[trigger]
                        reached@.contains(r) && !before.contains(r) ==> frontier@.contains(NodeId(r)),
                    forall|j: int|
                        0 <= j < i && #[trigger] step(wires@[j], forward).0 == node ==> reached@.contains(
                            step(wires@[j], forward).1.0,
                        ),
                    reached@.len() - before.len() == frontier@.len() - waiting.len(),
            {
                let wire = wires[i];
                let (here, next) = if forward {
                    (wire.from.node, wire.to.node)
                } else {
                    (wire.to.node, wire.from.node)
                };
                assert(step(wires@[i as int], forward) == (here, next));
                if here == node {
                    proof {
                        assert(next_nodes(wires@, forward, node).contains(next));
                        let far = far_end_list(wires@, forward);
                        assert(far[i as int] == next.0);
                        assert(far.contains(next.0));
                        assert(ends.contains(next.0));
                        if node == start {
                            assert(reach_within(wires@, forward, start, 0).contains(next));
                        } else {
                            assert(reaches(wires@, forward, start, NodeId(node.0)));
                            let k = choose|k: nat| #[trigger]
                                reach_within(wires@, forward, start, k).contains(node);
                            lemma_reach_extends(wires@, forward, start, node, next, k);
                        }
                    }
                    if reached.insert(next.0) {
                        let ghost grown = frontier@;
                        frontier.push(next);
                        proof {
                            assert(frontier@[grown.len() as int] == next);
                            assert forall|r: u64| #[trigger]
                                reached@.contains(r) && !before.contains(r) implies frontier@.contains(
                                NodeId(r),
                            ) by {
                                if r != next.0 {
                                    let k = choose|k: int|
                                        0 <= k < grown.len() && grown[k] == NodeId(r);
                                    assert(frontier@[k] == NodeId(r));
                                }
                            }
                        }
                    }
                }
            }
            proof {
                assert(closed_at(wires@, forward, node, reached@)) by {
                    assert forall|n: NodeId| #[trigger]
                        next_nodes(wires@, forward, node).contains(n) implies reached@.contains(
                        n.0,
                    ) by {
                        let j = choose|j: int|
                            0 <= j < wires@.len() && #[trigger] step(wires@[j], forward) == (node, n);
                        assert(step(wires@[j], forward).0 == node);
                    }
                }
                assert forall|i: int|
                    0 <= i < frontier@.len() implies #[trigger] frontier@[i] == start || reached@.contains(
                    frontier@[i].0,
                ) by {
                    if i < waiting.len() {
                        assert(waiting[i] == queued[i]);
                        assert(queued[i] == start || before.contains(queued[i].0));
                    }
                }
                if !queued.contains(start) {
                    lemma_closed_grows(wires@, forward, start, before, reached@);
                } else if !frontier@.contains(start) {
                    let p = choose|p: int| 0 <= p < queued.len() && queued[p] == start;
                    if p < waiting.len() {
                        assert(waiting[p] == queued[p]);
                        assert(frontier@[p] == start);
                    }
                }
                assert forall|r: u64| #[trigger]
                    reached@.contains(r) implies frontier@.contains(NodeId(r)) || closed_at(
                    wires@,
                    forward,
                    NodeId(r),
                    reached@,
                ) by {
                    if before.contains(r) {
                        if !queued.contains(NodeId(r)) {
                            lemma_closed_grows(wires@, forward, NodeId(r), before, reached@);
                        } else {
                            let p = choose|p: int| 0 <= p < queued.len() && queued[p] == NodeId(r);
                            if p < waiting.len() {
                                assert(waiting[p] == queued[p]);
                                assert(frontier@[p] == NodeId(r));
                            }
                        }
                    }
                }
                vstd::set_lib::lemma_len_subset(reached@, ends);
            }
        }
        proof {
            assert forall|m: NodeId| #[trigger] reached@.contains(m.0) implies closed_at(
                wires@,
                forward,
                m,
                reached@,
            ) by {
                assert(reached@.contains(NodeId(m.0).0));
            }
        }
        let values = ascending(&reached);
        let mut nodes: Vec<NodeId> = Vec::new();
        for i in 0..values.len()
            invariant
                nodes@ == values@.take(i as int).map_values(|value: u64| NodeId(value)),
        {
            nodes.push(NodeId(values[i]));
        }
        proof {
            assert(values@.take(values@.len() as int) =~= values@);
            assert forall|n: NodeId| nodes@.contains(n) implies reaches(wires@, forward, start, n) by {
                let i = choose|i: int| 0 <= i < nodes@.len() && nodes@[i] == n;
                assert(values@[i] == n.0);
                assert(values@.contains(values@[i]));
                assert(values@.to_set().contains(n.0));
                assert(reached@.contains(n.0));
            }
            assert forall|n: NodeId| reaches(wires@, forward, start, n) implies nodes@.contains(n) by {
                let k = choose|k: nat| #[trigger] reach_within(wires@, forward, start, k).contains(n);
                lemma_closed_holds_reach(wires@, forward, start, reached@, k);
                assert(reached@.contains(n.0));
                assert(values@.to_set().contains(n.0));
                let i = choose|i: int| 0 <= i < values@.len() && values@[i] == n.0;
                assert(nodes@[i] == n);
            }
        }
        nodes
    }
}

} // verus!
