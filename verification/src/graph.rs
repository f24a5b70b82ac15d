//! The directed-graph store.
//!
//! Every node touched by an edge owns a `NodeMap`: one outgoing and one
//! incoming adjacency set, kept symmetric with each other. The store also
//! tracks the nodes mutated since the last successful flush, the
//! load-phase flag, and a FIFO queue of writes deferred while a bulk load
//! is in flight.

use vstd::prelude::*;
use crate::adjacency::AdjacencySet;
use crate::node_index::NodeIndex;
use crate::node_index::index_entries;
use crate::node_index::index_with_capacity;
use crate::node_index::index_get;
use crate::node_index::index_insert;

verus! {

/// The two adjacency directions of one node: the targets of its outgoing
/// edges and the sources of its incoming edges.
pub struct NodeMap {
    pub outgoing_edges: AdjacencySet,
    pub incoming_edges: AdjacencySet,
}

/// A write deferred while a bulk load is in flight.
#[derive(Clone, Copy, PartialEq, Eq, Structural, Debug)]
pub enum PendingAction {
    AddEdge(u32, u32),
    RemoveEdge(u32, u32),
}

/// The abstract state of the store: which nodes have an entry, each
/// node's two edge directions (total maps, empty for an absent node), and
/// the dirty set.
#[verifier::ext_equal]
pub struct GraphView {
    pub nodes: Set<u32>,
    pub out: Map<u32, Set<u32>>,
    pub inc: Map<u32, Set<u32>>,
    pub dirty: Set<u32>,
}

/// The abstract effect of one deferred write.
pub open spec fn apply_action(v: GraphView, a: PendingAction) -> GraphView {
    match a {
        PendingAction::AddEdge(s, t) => GraphView {
            nodes: v.nodes.insert(s).insert(t),
            out: v.out.insert(s, v.out[s].insert(t)),
            inc: v.inc.insert(t, v.inc[t].insert(s)),
            dirty: v.dirty.insert(s).insert(t),
        },
        PendingAction::RemoveEdge(s, t) => GraphView {
            nodes: v.nodes,
            out: v.out.insert(s, v.out[s].remove(t)),
            inc: v.inc.insert(t, v.inc[t].remove(s)),
            dirty: v.dirty.insert(s).insert(t),
        },
    }
}

/// The abstract effect of a sequence of deferred writes, oldest first.
pub open spec fn apply_actions(v: GraphView, actions: Seq<PendingAction>) -> GraphView
    decreases actions.len(),
{
    if actions.len() == 0 {
        v
    } else {
        apply_actions(apply_action(v, actions[0]), actions.drop_first())
    }
}

/// The directed-graph store: a map from node identifier to its entry,
/// a dirty-node set, the load-phase flag, and the pending-write queue.
///
/// Entries live in `entries`; `index` maps a node identifier to its slot.
/// An entry is created the first time an edge touches its identifier and
/// keeps its slot from then on.
pub struct Graph {
    index: NodeIndex,
    entries: Vec<(u32, NodeMap)>,
    dirty: AdjacencySet,
    loaded: bool,
    pending: Vec<PendingAction>,
}

impl View for Graph {
    type V = GraphView;

    /// The store's abstract state.
    open spec fn view(&self) -> GraphView {
        GraphView {
            nodes: self.node_ids(),
            out: Map::new(|k: u32| true, |k: u32| self.out_edges(k)),
            inc: Map::new(|k: u32| true, |k: u32| self.in_edges(k)),
            dirty: self.dirty_ids(),
        }
    }
}

impl Graph {
    /// The identifier-to-slot map.
    pub closed spec fn idx(self) -> Map<u32, usize> {
        index_entries(self.index)
    }

    /// The identifiers that have an entry.
    pub closed spec fn node_ids(self) -> Set<u32> {
        self.idx().dom()
    }

    /// The targets of the node's outgoing edges; empty for an absent node.
    pub closed spec fn out_edges(self, id: u32) -> Set<u32> {
        if self.idx().dom().contains(id) {
            self.entries@[self.idx()[id] as int].1.outgoing_edges@
        } else {
            Set::empty()
        }
    }

    /// The sources of the node's incoming edges; empty for an absent node.
    pub closed spec fn in_edges(self, id: u32) -> Set<u32> {
        if self.idx().dom().contains(id) {
            self.entries@[self.idx()[id] as int].1.incoming_edges@
        } else {
            Set::empty()
        }
    }

    /// The nodes mutated since the last successful flush.
    pub closed spec fn dirty_ids(self) -> Set<u32> {
        self.dirty@
    }

    /// The load-phase flag.
    pub closed spec fn is_loaded_spec(self) -> bool {
        self.loaded
    }

    /// The queued writes, oldest first.
    pub closed spec fn pending_actions(self) -> Seq<PendingAction> {
        self.pending@
    }

    /// Internal consistency: the index is a bijection between identifiers
    /// and entry slots, and the two edge directions mirror each other.
    pub closed spec fn well_formed(self) -> bool {
        &&& self.idx().dom().finite()
        &&& forall|k: u32| #[trigger] self.idx().dom().contains(k)
                ==> self.idx()[k] < self.entries@.len()
                    && self.entries@[self.idx()[k] as int].0 == k
        &&& forall|i: int| 0 <= i < self.entries@.len()
                ==> self.idx().dom().contains((#[trigger] self.entries@[i]).0)
                    && self.idx()[self.entries@[i].0] == i
        &&& self.idx().dom().len() == self.entries@.len()
        &&& forall|s: u32, t: u32|
                #![trigger self.out_edges(s).contains(t)]
                #![trigger self.in_edges(t).contains(s)]
                self.out_edges(s).contains(t) <==> self.in_edges(t).contains(s)
    }

    /// An empty store in the loading phase, sized for an expected node count.
    pub fn new(expected_node_count: u32) -> (r: Graph)
        ensures
            r.well_formed(),
            r.node_ids() == Set::<u32>::empty(),
            forall|x: u32| r.out_edges(x) == Set::<u32>::empty(),
            forall|x: u32| r.in_edges(x) == Set::<u32>::empty(),
            r.dirty_ids() == Set::<u32>::empty(),
            !r.is_loaded_spec(),
            r.pending_actions() == Seq::<PendingAction>::empty(),
    {
        let r = Graph {
            index: index_with_capacity(expected_node_count as usize),
            entries: Vec::new(),
            dirty: AdjacencySet::new(),
            loaded: false,
            pending: Vec::new(),
        };
        proof {
            assert(forall|x: u32| r.out_edges(x) =~= Set::<u32>::empty());
            assert(forall|x: u32| r.in_edges(x) =~= Set::<u32>::empty());
        }
        r
    }

    /// The slot of the node's entry, creating an empty entry if absent.
    fn lookup_or_create(&mut self, id: u32) -> (slot: usize)
        requires
            old(self).well_formed(),
        ensures
            final(self).well_formed(),
            final(self).node_ids() == old(self).node_ids().insert(id),
            final(self).idx().dom().contains(id) && final(self).idx()[id] == slot,
            slot < final(self).entries@.len(),
            final(self).entries@[slot as int].0 == id,
            forall|k: u32| #[trigger] old(self).idx().dom().contains(k)
                ==> final(self).idx().dom().contains(k)
                    && final(self).idx()[k] == old(self).idx()[k],
            forall|x: u32| final(self).out_edges(x) == old(self).out_edges(x),
            forall|x: u32| final(self).in_edges(x) == old(self).in_edges(x),
            final(self).dirty_ids() == old(self).dirty_ids(),
            final(self).is_loaded_spec() == old(self).is_loaded_spec(),
            final(self).pending_actions() == old(self).pending_actions(),
    {
        match index_get(&self.index, id) {
            Some(slot) => {
                proof {
                    assert(old(self).node_ids().insert(id) =~= old(self).node_ids());
                    assert(forall|x: u32| self.out_edges(x) =~= old(self).out_edges(x));
                    assert(forall|x: u32| self.in_edges(x) =~= old(self).in_edges(x));
                }
                slot
            },
            None => {
                let slot = self.entries.len();
                let entry = NodeMap {
                    outgoing_edges: AdjacencySet::new(),
                    incoming_edges: AdjacencySet::new(),
                };
                self.entries.push((id, entry));
                index_insert(&mut self.index, id, slot);
                proof {
                    assert forall|x: u32| final(self).out_edges(x) == old(self).out_edges(x) by {
                        if x == id {
                            assert(final(self).out_edges(x) =~= Set::<u32>::empty());
                            assert(old(self).out_edges(x) =~= Set::<u32>::empty());
                        } else {
                            assert(final(self).out_edges(x) =~= old(self).out_edges(x));
                        }
                    }
                    assert forall|x: u32| final(self).in_edges(x) == old(self).in_edges(x) by {
                        if x == id {
                            assert(final(self).in_edges(x) =~= Set::<u32>::empty());
                            assert(old(self).in_edges(x) =~= Set::<u32>::empty());
                        } else {
                            assert(final(self).in_edges(x) =~= old(self).in_edges(x));
                        }
                    }
                    assert(final(self).well_formed());
                }
                slot
            },
        }
    }
}

/// Inserts `value` into the outgoing set of the entry in `slot`; returns
/// whether it was newly added.
fn slot_insert_outgoing(entries: &mut Vec<(u32, NodeMap)>, slot: usize, value: u32) -> (added: bool)
    requires
        slot < old(entries)@.len(),
    ensures
        final(entries)@.len() == old(entries)@.len(),
        final(entries)@[slot as int].0 == old(entries)@[slot as int].0,
        final(entries)@[slot as int].1.outgoing_edges@
            == old(entries)@[slot as int].1.outgoing_edges@.insert(value),
        final(entries)@[slot as int].1.incoming_edges@
            == old(entries)@[slot as int].1.incoming_edges@,
        forall|j: int| 0 <= j < final(entries)@.len() && j != slot
            ==> final(entries)@[j] == old(entries)@[j],
        added == !old(entries)@[slot as int].1.outgoing_edges@.contains(value),
{
    let mut tmp = (
        0u32,
        NodeMap { outgoing_edges: AdjacencySet::new(), incoming_edges: AdjacencySet::new() },
    );
    entries.set_and_swap(slot, &mut tmp);
    let added = tmp.1.outgoing_edges.insert(value);
    entries.set_and_swap(slot, &mut tmp);
    added
}

/// Inserts `value` into the incoming set of the entry in `slot`; returns
/// whether it was newly added.
fn slot_insert_incoming(entries: &mut Vec<(u32, NodeMap)>, slot: usize, value: u32) -> (added: bool)
    requires
        slot < old(entries)@.len(),
    ensures
        final(entries)@.len() == old(entries)@.len(),
        final(entries)@[slot as int].0 == old(entries)@[slot as int].0,
        final(entries)@[slot as int].1.incoming_edges@
            == old(entries)@[slot as int].1.incoming_edges@.insert(value),
        final(entries)@[slot as int].1.outgoing_edges@
            == old(entries)@[slot as int].1.outgoing_edges@,
        forall|j: int| 0 <= j < final(entries)@.len() && j != slot
            ==> final(entries)@[j] == old(entries)@[j],
        added == !old(entries)@[slot as int].1.incoming_edges@.contains(value),
{
    let mut tmp = (
        0u32,
        NodeMap { outgoing_edges: AdjacencySet::new(), incoming_edges: AdjacencySet::new() },
    );
    entries.set_and_swap(slot, &mut tmp);
    let added = tmp.1.incoming_edges.insert(value);
    entries.set_and_swap(slot, &mut tmp);
    added
}

impl Graph {
    /// Adds the edge from `source` to `target`, creating entries as
    /// needed; idempotent, and a self-loop is a single entry's update.
    /// Both identifiers are marked dirty. Returns whether the edge was
    /// absent before, so a caller can keep an edge tally.
    pub fn add_edge(&mut self, source: u32, target: u32) -> (added: bool)
        requires
            old(self).well_formed(),
        ensures
            added == !old(self).out_edges(source).contains(target),
            final(self).well_formed(),
            forall|x: u32| final(self).out_edges(x)
                == if x == source { old(self).out_edges(x).insert(target) } else { old(self).out_edges(x) },
            forall|x: u32| final(self).in_edges(x)
                == if x == target { old(self).in_edges(x).insert(source) } else { old(self).in_edges(x) },
            final(self).node_ids() == old(self).node_ids().insert(source).insert(target),
            final(self).dirty_ids() == old(self).dirty_ids().insert(source).insert(target),
            final(self).is_loaded_spec() == old(self).is_loaded_spec(),
            final(self).pending_actions() == old(self).pending_actions(),
            final(self)@ == apply_action(old(self)@, PendingAction::AddEdge(source, target)),
    {
        let si = self.lookup_or_create(source);
        let ti = self.lookup_or_create(target);
        let ghost pre = *self;
        let added = slot_insert_outgoing(&mut self.entries, si, target);
        slot_insert_incoming(&mut self.entries, ti, source);
        self.dirty.insert(source);
        self.dirty.insert(target);
        proof {
            let post = *self;
            assert forall|x: u32| post.out_edges(x)
                == if x == source { pre.out_edges(x).insert(target) } else { pre.out_edges(x) } by {
                if pre.idx().dom().contains(x) {
                    if x == source {
                        assert(post.out_edges(x) =~= pre.out_edges(x).insert(target));
                    } else {
                        assert(pre.idx()[x] != si);
                        assert(post.out_edges(x) =~= pre.out_edges(x));
                    }
                } else {
                    assert(post.out_edges(x) =~= pre.out_edges(x));
                }
            }
            assert forall|x: u32| post.in_edges(x)
                == if x == target { pre.in_edges(x).insert(source) } else { pre.in_edges(x) } by {
                if pre.idx().dom().contains(x) {
                    if x == target {
                        assert(post.in_edges(x) =~= pre.in_edges(x).insert(source));
                    } else {
                        assert(pre.idx()[x] != ti);
                        assert(post.in_edges(x) =~= pre.in_edges(x));
                    }
                } else {
                    assert(post.in_edges(x) =~= pre.in_edges(x));
                }
            }
            assert forall|s: u32, t: u32|
                post.out_edges(s).contains(t) <==> post.in_edges(t).contains(s) by {
                assert(pre.out_edges(s).contains(t) <==> pre.in_edges(t).contains(s));
            }
            assert(post.well_formed());
            assert(post.node_ids() =~= old(self).node_ids().insert(source).insert(target));
            let act = PendingAction::AddEdge(source, target);
            assert(post@.out =~= apply_action(old(self)@, act).out);
            assert(post@.inc =~= apply_action(old(self)@, act).inc);
            assert(post@.nodes =~= apply_action(old(self)@, act).nodes);
            assert(post@.dirty =~= apply_action(old(self)@, act).dirty);
            assert(post@ =~= apply_action(old(self)@, act));
        }
        added
    }
}

/// Removes `value` from the outgoing set of the entry in `slot`; returns
/// whether it was present.
fn slot_remove_outgoing(entries: &mut Vec<(u32, NodeMap)>, slot: usize, value: u32) -> (removed: bool)
    requires
        slot < old(entries)@.len(),
    ensures
        final(entries)@.len() == old(entries)@.len(),
        final(entries)@[slot as int].0 == old(entries)@[slot as int].0,
        final(entries)@[slot as int].1.outgoing_edges@
            == old(entries)@[slot as int].1.outgoing_edges@.remove(value),
        final(entries)@[slot as int].1.incoming_edges@
            == old(entries)@[slot as int].1.incoming_edges@,
        forall|j: int| 0 <= j < final(entries)@.len() && j != slot
            ==> final(entries)@[j] == old(entries)@[j],
        removed == old(entries)@[slot as int].1.outgoing_edges@.contains(value),
{
    let mut tmp = (
        0u32,
        NodeMap { outgoing_edges: AdjacencySet::new(), incoming_edges: AdjacencySet::new() },
    );
    entries.set_and_swap(slot, &mut tmp);
    let removed = tmp.1.outgoing_edges.remove(value);
    entries.set_and_swap(slot, &mut tmp);
    removed
}

/// Removes `value` from the incoming set of the entry in `slot`; returns
/// whether it was present.
fn slot_remove_incoming(entries: &mut Vec<(u32, NodeMap)>, slot: usize, value: u32) -> (removed: bool)
    requires
        slot < old(entries)@.len(),
    ensures
        final(entries)@.len() == old(entries)@.len(),
        final(entries)@[slot as int].0 == old(entries)@[slot as int].0,
        final(entries)@[slot as int].1.incoming_edges@
            == old(entries)@[slot as int].1.incoming_edges@.remove(value),
        final(entries)@[slot as int].1.outgoing_edges@
            == old(entries)@[slot as int].1.outgoing_edges@,
        forall|j: int| 0 <= j < final(entries)@.len() && j != slot
            ==> final(entries)@[j] == old(entries)@[j],
        removed == old(entries)@[slot as int].1.incoming_edges@.contains(value),
{
    let mut tmp = (
        0u32,
        NodeMap { outgoing_edges: AdjacencySet::new(), incoming_edges: AdjacencySet::new() },
    );
    entries.set_and_swap(slot, &mut tmp);
    let removed = tmp.1.incoming_edges.remove(value);
    entries.set_and_swap(slot, &mut tmp);
    removed
}

impl Graph {
    /// Removes the edge from `source` to `target`; a no-op on an absent
    /// node or edge. Both identifiers are marked dirty.
    pub fn remove_edge(&mut self, source: u32, target: u32)
        requires
            old(self).well_formed(),
        ensures
            final(self).well_formed(),
            forall|x: u32| final(self).out_edges(x)
                == if x == source { old(self).out_edges(x).remove(target) } else { old(self).out_edges(x) },
            forall|x: u32| final(self).in_edges(x)
                == if x == target { old(self).in_edges(x).remove(source) } else { old(self).in_edges(x) },
            final(self).node_ids() == old(self).node_ids(),
            final(self).dirty_ids() == old(self).dirty_ids().insert(source).insert(target),
            final(self).is_loaded_spec() == old(self).is_loaded_spec(),
            final(self).pending_actions() == old(self).pending_actions(),
            final(self)@ == apply_action(old(self)@, PendingAction::RemoveEdge(source, target)),
    {
        let ghost pre = *self;
        match index_get(&self.index, source) {
            Some(si) => {
                slot_remove_outgoing(&mut self.entries, si, target);
            },
            None => {},
        }
        match index_get(&self.index, target) {
            Some(ti) => {
                slot_remove_incoming(&mut self.entries, ti, source);
            },
            None => {},
        }
        self.dirty.insert(source);
        self.dirty.insert(target);
        proof {
            let post = *self;
            assert forall|x: u32| post.out_edges(x)
                == if x == source { pre.out_edges(x).remove(target) } else { pre.out_edges(x) } by {
                if pre.idx().dom().contains(x) {
                    if x == source {
                        assert(post.out_edges(x) =~= pre.out_edges(x).remove(target));
                    } else {
                        assert(post.out_edges(x) =~= pre.out_edges(x));
                    }
                } else {
                    if x == source {
                        assert(post.out_edges(x) =~= pre.out_edges(x).remove(target));
                    } else {
                        assert(post.out_edges(x) =~= pre.out_edges(x));
                    }
                }
            }
            assert forall|x: u32| post.in_edges(x)
                == if x == target { pre.in_edges(x).remove(source) } else { pre.in_edges(x) } by {
                if pre.idx().dom().contains(x) {
                    if x == target {
                        assert(post.in_edges(x) =~= pre.in_edges(x).remove(source));
                    } else {
                        assert(post.in_edges(x) =~= pre.in_edges(x));
                    }
                } else {
                    if x == target {
                        assert(post.in_edges(x) =~= pre.in_edges(x).remove(source));
                    } else {
                        assert(post.in_edges(x) =~= pre.in_edges(x));
                    }
                }
            }
            assert forall|s: u32, t: u32|
                post.out_edges(s).contains(t) <==> post.in_edges(t).contains(s) by {
                assert(pre.out_edges(s).contains(t) <==> pre.in_edges(t).contains(s));
            }
            assert(post.well_formed());
            let act = PendingAction::RemoveEdge(source, target);
            assert(post@.out =~= apply_action(old(self)@, act).out);
            assert(post@.inc =~= apply_action(old(self)@, act).inc);
            assert(post@.nodes =~= apply_action(old(self)@, act).nodes);
            assert(post@.dirty =~= apply_action(old(self)@, act).dirty);
            assert(post@ =~= apply_action(old(self)@, act));
        }
    }

    /// A snapshot copy of the node's outgoing set; empty for an absent
    /// node, never an error.
    pub fn get_outgoing_edges(&self, source: u32) -> (r: AdjacencySet)
        requires
            self.well_formed(),
        ensures
            r@ == self.out_edges(source),
    {
        match index_get(&self.index, source) {
            Some(slot) => self.entries[slot].1.outgoing_edges.snapshot(),
            None => {
                proof {
                    assert(self.out_edges(source) =~= Set::<u32>::empty());
                }
                AdjacencySet::new()
            },
        }
    }

    /// A snapshot copy of the node's incoming set; empty for an absent
    /// node, never an error.
    pub fn get_incoming_edges(&self, target: u32) -> (r: AdjacencySet)
        requires
            self.well_formed(),
        ensures
            r@ == self.in_edges(target),
    {
        match index_get(&self.index, target) {
            Some(slot) => self.entries[slot].1.incoming_edges.snapshot(),
            None => {
                proof {
                    assert(self.in_edges(target) =~= Set::<u32>::empty());
                }
                AdjacencySet::new()
            },
        }
    }

    /// Whether the edge from `source` to `target` is present; false for
    /// unknown nodes.
    pub fn has_edge(&self, source: u32, target: u32) -> (r: bool)
        requires
            self.well_formed(),
        ensures
            r == self.out_edges(source).contains(target),
    {
        match index_get(&self.index, source) {
            Some(slot) => self.entries[slot].1.outgoing_edges.contains(target),
            None => false,
        }
    }

    /// The identifier back, if the node has an entry.
    pub fn get_node(&self, id: u32) -> (r: Option<u32>)
        ensures
            r == if self.node_ids().contains(id) { Some(id) } else { None::<u32> },
    {
        match index_get(&self.index, id) {
            Some(_) => Some(id),
            None => None,
        }
    }

    /// Whether the node has an entry.
    pub fn node_exists(&self, id: u32) -> (r: bool)
        ensures
            r == self.node_ids().contains(id),
    {
        match index_get(&self.index, id) {
            Some(_) => true,
            None => false,
        }
    }

    /// The node count as the health report carries it.
    pub open spec fn node_count_value(self) -> u64 {
        self.node_ids().len() as u64
    }

    /// The number of nodes that have an entry.
    pub fn node_count(&self) -> (r: u64)
        requires
            self.well_formed(),
        ensures
            r == self.node_ids().len(),
            r == self.node_count_value(),
    {
        self.entries.len() as u64
    }

    /// The load-phase flag.
    pub fn is_loaded(&self) -> (r: bool)
        ensures
            r == self.is_loaded_spec(),
    {
        self.loaded
    }

    /// Appends a deferred edge insertion to the pending queue.
    pub fn enqueue_add_edge(&mut self, source: u32, target: u32)
        requires
            old(self).well_formed(),
        ensures
            final(self).well_formed(),
            final(self).pending_actions()
                == old(self).pending_actions().push(PendingAction::AddEdge(source, target)),
            forall|x: u32| final(self).out_edges(x) == old(self).out_edges(x),
            forall|x: u32| final(self).in_edges(x) == old(self).in_edges(x),
            final(self).node_ids() == old(self).node_ids(),
            final(self).dirty_ids() == old(self).dirty_ids(),
            final(self).is_loaded_spec() == old(self).is_loaded_spec(),
    {
        self.pending.push(PendingAction::AddEdge(source, target));
        proof {
            self.lemma_same_store_well_formed(*old(self));
        }
    }

    /// Appends a deferred edge removal to the pending queue.
    pub fn enqueue_remove_edge(&mut self, source: u32, target: u32)
        requires
            old(self).well_formed(),
        ensures
            final(self).well_formed(),
            final(self).pending_actions()
                == old(self).pending_actions().push(PendingAction::RemoveEdge(source, target)),
            forall|x: u32| final(self).out_edges(x) == old(self).out_edges(x),
            forall|x: u32| final(self).in_edges(x) == old(self).in_edges(x),
            final(self).node_ids() == old(self).node_ids(),
            final(self).dirty_ids() == old(self).dirty_ids(),
            final(self).is_loaded_spec() == old(self).is_loaded_spec(),
    {
        self.pending.push(PendingAction::RemoveEdge(source, target));
        proof {
            self.lemma_same_store_well_formed(*old(self));
        }
    }

    /// Symmetry: in every well-formed store — so after any sequence of
    /// edge mutations — `t` is among the outgoing edges of `s` exactly
    /// when `s` is among the incoming edges of `t`, and those two sets
    /// are what the snapshot queries hand out.
    pub proof fn lemma_symmetry(self, s: u32, t: u32)
        requires
            self.well_formed(),
        ensures
            self.out_edges(s).contains(t) <==> self.in_edges(t).contains(s),
    {
    }

    /// Existence closure: a node with any outgoing or incoming edge has
    /// an entry, so queries on nodes without an entry always see two
    /// empty sets.
    pub proof fn lemma_existence_closure(self, id: u32)
        requires
            self.well_formed(),
        ensures
            self.out_edges(id) != Set::<u32>::empty() || self.in_edges(id) != Set::<u32>::empty()
                ==> self.node_ids().contains(id),
    {
    }

    /// Two states with the same index and entries agree on the node map:
    /// well-formedness and every per-node set carry over.
    proof fn lemma_same_nodes(self, other: Graph)
        requires
            other.well_formed(),
            self.index == other.index,
            self.entries == other.entries,
        ensures
            self.well_formed(),
            forall|x: u32| self.out_edges(x) == other.out_edges(x),
            forall|x: u32| self.in_edges(x) == other.in_edges(x),
            self.node_ids() == other.node_ids(),
    {
        assert forall|x: u32| self.out_edges(x) == other.out_edges(x) by {
            assert(self.out_edges(x) =~= other.out_edges(x));
        }
        assert forall|x: u32| self.in_edges(x) == other.in_edges(x) by {
            assert(self.in_edges(x) =~= other.in_edges(x));
        }
        assert forall|s: u32, t: u32|
            self.out_edges(s).contains(t) <==> self.in_edges(t).contains(s) by {
            assert(other.out_edges(s).contains(t) <==> other.in_edges(t).contains(s));
        }
    }

    /// With the dirty set also unchanged, the abstract state carries over
    /// whole.
    proof fn lemma_same_store_well_formed(self, other: Graph)
        requires
            other.well_formed(),
            self.index == other.index,
            self.entries == other.entries,
            self.dirty == other.dirty,
        ensures
            self.well_formed(),
            forall|x: u32| self.out_edges(x) == other.out_edges(x),
            forall|x: u32| self.in_edges(x) == other.in_edges(x),
            self.node_ids() == other.node_ids(),
            self.dirty_ids() == other.dirty_ids(),
            self@ == other@,
    {
        self.lemma_same_nodes(other);
        assert(self@.out =~= other@.out);
        assert(self@.inc =~= other@.inc);
        assert(self@ =~= other@);
    }

    /// How many writes wait in the pending queue.
    pub fn pending_action_queue_len(&self) -> (r: usize)
        ensures
            r == self.pending_actions().len(),
    {
        self.pending.len()
    }

    /// Drains the pending queue, applying each deferred write in FIFO
    /// order, then flips the store to the ready phase. A write queued
    /// before this call is applied exactly once; none survives it.
    pub fn complete_load(&mut self)
        requires
            old(self).well_formed(),
        ensures
            final(self).well_formed(),
            final(self)@ == apply_actions(old(self)@, old(self).pending_actions()),
            final(self).pending_actions() == Seq::<PendingAction>::empty(),
            final(self).is_loaded_spec(),
    {
        let ghost orig = *self;
        while self.pending.len() > 0
            invariant
                self.well_formed(),
                apply_actions(orig@, orig.pending_actions())
                    == apply_actions(self@, self.pending_actions()),
            decreases self.pending.len(),
        {
            let ghost before = *self;
            let action = self.pending.remove(0);
            proof {
                self.lemma_same_store_well_formed(before);
                assert(self.pending_actions() =~= before.pending_actions().drop_first());
                assert(action == before.pending_actions()[0]);
            }
            let ghost mid = *self;
            match action {
                PendingAction::AddEdge(s, t) => {
                    self.add_edge(s, t);
                },
                PendingAction::RemoveEdge(s, t) => self.remove_edge(s, t),
            }
            proof {
                assert(self@ == apply_action(mid@, action));
                assert(apply_actions(before@, before.pending_actions())
                    == apply_actions(apply_action(before@, action),
                        before.pending_actions().drop_first()));
            }
        }
        let ghost pre_flip = *self;
        self.loaded = true;
        proof {
            self.lemma_same_store_well_formed(pre_flip);
            assert(apply_actions(self@, self.pending_actions()) == self@);
        }
    }
}

/// One node's part of a flush snapshot: its identifier and a copy of its
/// two adjacency sets at the time the snapshot was taken.
pub struct FlushRecord {
    pub id: u32,
    pub outgoing_edges: AdjacencySet,
    pub incoming_edges: AdjacencySet,
}

/// The identifiers a flush snapshot covers.
pub open spec fn flush_ids(snapshot: Seq<FlushRecord>) -> Set<u32> {
    Set::new(|v: u32| exists|i: int| 0 <= i < snapshot.len() && snapshot[i].id == v)
}

impl Graph {
    /// Swaps the dirty set for an empty one and returns a snapshot of the
    /// swapped-out nodes, identifiers ascending, each with a copy of its
    /// adjacency at this moment. The caller hands the snapshot to the
    /// persistence backend; on failure it calls [`Graph::flush_failed`]
    /// with the same snapshot so the nodes are retried. Mutations after
    /// this call land in the fresh dirty set and are unaffected.
    pub fn begin_flush(&mut self) -> (snapshot: Vec<FlushRecord>)
        requires
            old(self).well_formed(),
        ensures
            final(self).well_formed(),
            final(self).dirty_ids() == Set::<u32>::empty(),
            forall|x: u32| final(self).out_edges(x) == old(self).out_edges(x),
            forall|x: u32| final(self).in_edges(x) == old(self).in_edges(x),
            final(self).node_ids() == old(self).node_ids(),
            final(self).is_loaded_spec() == old(self).is_loaded_spec(),
            final(self).pending_actions() == old(self).pending_actions(),
            flush_ids(snapshot@) == old(self).dirty_ids(),
            forall|i: int, j: int| 0 <= i < j < snapshot@.len()
                ==> snapshot@[i].id < snapshot@[j].id,
            forall|i: int| 0 <= i < snapshot@.len()
                ==> (#[trigger] snapshot@[i]).outgoing_edges@ == old(self).out_edges(snapshot@[i].id)
                    && snapshot@[i].incoming_edges@ == old(self).in_edges(snapshot@[i].id),
    {
        let ids = self.dirty.to_sorted_vec();
        let ghost pre = *self;
        self.dirty = AdjacencySet::new();
        proof {
            self.lemma_same_nodes(pre);
        }
        let mut snapshot: Vec<FlushRecord> = Vec::new();
        let mut k: usize = 0;
        while k < ids.len()
            invariant
                pre.well_formed(),
                self.index == pre.index,
                self.entries == pre.entries,
                self.loaded == pre.loaded,
                self.pending == pre.pending,
                self.dirty@ == Set::<u32>::empty(),
                self.well_formed(),
                forall|x: u32| self.out_edges(x) == pre.out_edges(x),
                k <= ids.len(),
                snapshot@.len() == k,
                forall|i: int| 0 <= i < k ==> (#[trigger] snapshot@[i]).id == ids@[i],
                forall|i: int| 0 <= i < k
                    ==> (#[trigger] snapshot@[i]).outgoing_edges@ == pre.out_edges(ids@[i])
                        && snapshot@[i].incoming_edges@ == pre.in_edges(ids@[i]),
            decreases ids.len() - k,
        {
            let id = ids[k];
            let outgoing_edges = self.get_outgoing_edges(id);
            let incoming_edges = self.get_incoming_edges(id);
            proof {
                self.lemma_same_nodes(pre);
            }
            snapshot.push(FlushRecord { id, outgoing_edges, incoming_edges });
            k += 1;
        }
        proof {
            assert forall|v: u32| flush_ids(snapshot@).contains(v)
                == old(self).dirty_ids().contains(v) by {
                if flush_ids(snapshot@).contains(v) {
                    let i = choose|i: int| 0 <= i < snapshot@.len() && snapshot@[i].id == v;
                    assert(ids@[i] == v);
                    assert(old(self).dirty_ids().contains(v));
                }
                if old(self).dirty_ids().contains(v) {
                    let i = choose|i: int| 0 <= i < ids@.len() && ids@[i] == v;
                    assert(snapshot@[i].id == v);
                    assert(flush_ids(snapshot@).contains(v));
                }
            }
            assert(flush_ids(snapshot@) =~= old(self).dirty_ids());
        }
        snapshot
    }

    /// Re-merges a failed flush snapshot's identifiers into the live
    /// dirty set, so a later flush retries them; nodes dirtied since the
    /// snapshot was taken stay dirty.
    pub fn flush_failed(&mut self, snapshot: &Vec<FlushRecord>)
        requires
            old(self).well_formed(),
        ensures
            final(self).well_formed(),
            final(self).dirty_ids() == old(self).dirty_ids().union(flush_ids(snapshot@)),
            forall|x: u32| final(self).out_edges(x) == old(self).out_edges(x),
            forall|x: u32| final(self).in_edges(x) == old(self).in_edges(x),
            final(self).node_ids() == old(self).node_ids(),
            final(self).is_loaded_spec() == old(self).is_loaded_spec(),
            final(self).pending_actions() == old(self).pending_actions(),
    {
        let ghost pre = *self;
        let mut k: usize = 0;
        while k < snapshot.len()
            invariant
                pre.well_formed(),
                self.index == pre.index,
                self.entries == pre.entries,
                self.loaded == pre.loaded,
                self.pending == pre.pending,
                self.well_formed(),
                k <= snapshot@.len(),
                self.dirty@ == pre.dirty@.union(flush_ids(snapshot@.subrange(0, k as int))),
            decreases snapshot@.len() - k,
        {
            let id = snapshot[k].id;
            self.dirty.insert(id);
            proof {
                self.lemma_same_nodes(pre);
                let prefix_old = snapshot@.subrange(0, k as int);
                let prefix_new = snapshot@.subrange(0, k as int + 1);
                assert forall|v: u32| flush_ids(prefix_new).contains(v)
                    == flush_ids(prefix_old).insert(id).contains(v) by {
                    if flush_ids(prefix_new).contains(v) {
                        let i = choose|i: int| 0 <= i < prefix_new.len() && prefix_new[i].id == v;
                        if i < k as int {
                            assert(prefix_old[i].id == v);
                            assert(flush_ids(prefix_old).contains(v));
                        } else {
                            assert(v == id);
                        }
                    }
                    if flush_ids(prefix_old).insert(id).contains(v) {
                        if flush_ids(prefix_old).contains(v) {
                            let i = choose|i: int| 0 <= i < prefix_old.len() && prefix_old[i].id == v;
                            assert(prefix_new[i].id == v);
                            assert(flush_ids(prefix_new).contains(v));
                        } else {
                            assert(prefix_new[k as int].id == id);
                            assert(flush_ids(prefix_new).contains(id));
                        }
                    }
                }
                assert(flush_ids(prefix_new) =~= flush_ids(prefix_old).insert(id));
                assert(self.dirty@ =~= pre.dirty@.union(flush_ids(prefix_new)));
            }
            k += 1;
        }
        proof {
            self.lemma_same_nodes(pre);
            assert(snapshot@.subrange(0, snapshot@.len() as int) =~= snapshot@);
            assert(self.dirty_ids() =~= old(self).dirty_ids().union(flush_ids(snapshot@)));
        }
    }
}

} // verus!
