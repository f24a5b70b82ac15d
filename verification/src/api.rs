//! The data shapes of the service interface, the caller-facing error
//! signals, and the decision logic of the endpoints: whether a write
//! applies now or is deferred, and whether a query may run or the graph
//! is still loading.
//!
//! Wire encoding and transport live outside the library; these types hold
//! plain values only.

use vstd::prelude::*;
use crate::adjacency::AdjacencySet;
use crate::graph::Graph;
use crate::graph::PendingAction;
use crate::graph::apply_action;
use crate::graph::apply_actions;
use crate::loader::lemma_apply_actions_append;

verus! {

/// One edge of a write request.
pub struct Edge {
    pub source: u32,
    pub target: u32,
}

/// A batch of edges to add.
pub struct EdgeBody {
    pub new_edges: Vec<Edge>,
}

/// An outgoing-edges query.
pub struct OutgoingEdgeQuery {
    pub source: u32,
}

/// Reply to an outgoing-edges query.
pub struct OutgoingEdgeResponse {
    pub targets: Vec<u32>,
}

/// An incoming-edges query.
pub struct IncomingEdgeQuery {
    pub target: u32,
}

/// Reply to an incoming-edges query.
pub struct IncomingEdgeResponse {
    pub sources: Vec<u32>,
}

/// An edge-membership query.
pub struct HasEdgeQuery {
    pub source: u32,
    pub target: u32,
}

/// Reply to an edge-membership query.
pub struct HasEdgeResponse {
    pub has_edge: bool,
}

/// A health query; stats are included when `stats` reads `"true"`.
pub struct HealthStatusQuery {
    pub stats: String,
}

/// The health report of a running store.
pub struct HealthStatus {
    pub status: &'static str,
    pub version: &'static str,
    pub node_count: Option<u64>,
    pub edge_count: Option<u64>,
    pub loaded: bool,
}

/// Caller-facing failure signals of the service.
#[derive(Clone, Copy, PartialEq, Eq, Structural, Debug)]
pub enum Errors {
    /// A query needs the full graph, and it is still loading into memory.
    StillLoading,
    /// The store failed to flush updates to the persistence backend.
    CloggedFlush,
}

impl Errors {
    /// The caller-facing description.
    pub fn message(&self) -> (r: &'static str)
        ensures
            self is StillLoading ==> r@ == "graph data is still loading to memory"@,
            self is CloggedFlush ==> r@ == "failed to flush updates to graph"@,
    {
        match self {
            Errors::StillLoading => "graph data is still loading to memory",
            Errors::CloggedFlush => "failed to flush updates to graph",
        }
    }
}

/// The edge insertions a batch requests, in order.
pub open spec fn batch_actions(edges: Seq<Edge>) -> Seq<PendingAction> {
    edges.map(|i: int, e: Edge| PendingAction::AddEdge(e.source, e.target))
}

/// Whether the vector lists exactly the members of the set, ascending.
pub open spec fn lists_set_ascending(v: Seq<u32>, s: Set<u32>) -> bool {
    &&& forall|i: int, j: int| 0 <= i < j < v.len() ==> v[i] < v[j]
    &&& forall|i: int| 0 <= i < v.len() ==> s.contains(v[i])
    &&& forall|x: u32| s.contains(x) ==> v.contains(x)
}

impl Graph {
    /// One write, routed as the write endpoints route it: applied at once
    /// when the store is ready, deferred to the pending queue while it is
    /// loading. Says whether the edge was queued and, if applied, whether
    /// it was new, so the caller can keep an edge tally.
    pub fn submit_add_edge(&mut self, source: u32, target: u32) -> (r: (bool, bool))
        requires
            old(self).well_formed(),
        ensures
            final(self).well_formed(),
            r.0 == !old(self).is_loaded_spec(),
            final(self).is_loaded_spec() == old(self).is_loaded_spec(),
            r.0 ==> final(self)@ == old(self)@
                && final(self).pending_actions()
                    == old(self).pending_actions().push(PendingAction::AddEdge(source, target))
                && !r.1,
            !r.0 ==> final(self)@
                == apply_action(old(self)@, PendingAction::AddEdge(source, target))
                && final(self).pending_actions() == old(self).pending_actions()
                && r.1 == !old(self).out_edges(source).contains(target),
    {
        if self.is_loaded() {
            let added = self.add_edge(source, target);
            (false, added)
        } else {
            self.enqueue_add_edge(source, target);
            (true, false)
        }
    }

    /// A whole batch of writes, routed edge by edge as the bulk write
    /// endpoint routes them: all applied in order when the store is
    /// ready, all deferred in order while it is loading.
    pub fn submit_edges(&mut self, body: &EdgeBody)
        requires
            old(self).well_formed(),
        ensures
            final(self).well_formed(),
            final(self).is_loaded_spec() == old(self).is_loaded_spec(),
            old(self).is_loaded_spec() ==> final(self)@
                == apply_actions(old(self)@, batch_actions(body.new_edges@))
                && final(self).pending_actions() == old(self).pending_actions(),
            !old(self).is_loaded_spec() ==> final(self)@ == old(self)@
                && final(self).pending_actions()
                    == old(self).pending_actions() + batch_actions(body.new_edges@),
    {
        let mut k: usize = 0;
        while k < body.new_edges.len()
            invariant
                old(self).well_formed(),
                self.well_formed(),
                k <= body.new_edges@.len(),
                self.is_loaded_spec() == old(self).is_loaded_spec(),
                old(self).is_loaded_spec() ==> self@
                    == apply_actions(old(self)@, batch_actions(body.new_edges@.take(k as int)))
                    && self.pending_actions() == old(self).pending_actions(),
                !old(self).is_loaded_spec() ==> self@ == old(self)@
                    && self.pending_actions()
                        == old(self).pending_actions()
                            + batch_actions(body.new_edges@.take(k as int)),
            decreases body.new_edges@.len() - k,
        {
            let source = body.new_edges[k].source;
            let target = body.new_edges[k].target;
            let ghost before = *self;
            self.submit_add_edge(source, target);
            proof {
                let acts = batch_actions(body.new_edges@.take(k as int));
                let act = PendingAction::AddEdge(source, target);
                assert(batch_actions(body.new_edges@.take(k as int + 1)) =~= acts.push(act));
                if old(self).is_loaded_spec() {
                    lemma_apply_actions_append(old(self)@, acts, seq![act]);
                    assert(acts + seq![act] =~= acts.push(act));
                    let x = apply_actions(old(self)@, acts);
                    assert(seq![act].drop_first() =~= Seq::<PendingAction>::empty());
                    assert(apply_actions(x, seq![act])
                        == apply_actions(apply_action(x, act), Seq::<PendingAction>::empty()));
                    assert(self@ == apply_actions(
                        old(self)@,
                        batch_actions(body.new_edges@.take(k as int + 1)),
                    ));
                } else {
                    assert(old(self).pending_actions() + acts.push(act)
                        =~= (old(self).pending_actions() + acts).push(act));
                }
            }
            k += 1;
        }
        proof {
            assert(body.new_edges@.take(body.new_edges@.len() as int) =~= body.new_edges@);
        }
    }

    /// The outgoing-edges endpoint's reply: the node's targets in
    /// ascending order once the store is ready, or the still-loading
    /// signal before that.
    pub fn outgoing_edges_response(&self, query: &OutgoingEdgeQuery)
        -> (r: Result<OutgoingEdgeResponse, Errors>)
        requires
            self.well_formed(),
        ensures
            match r {
                Ok(resp) => self.is_loaded_spec()
                    && lists_set_ascending(resp.targets@, self.out_edges(query.source)),
                Err(e) => !self.is_loaded_spec() && e is StillLoading,
            },
    {
        if !self.is_loaded() {
            return Err(Errors::StillLoading);
        }
        let snapshot: AdjacencySet = self.get_outgoing_edges(query.source);
        Ok(OutgoingEdgeResponse { targets: snapshot.to_sorted_vec() })
    }

    /// The incoming-edges endpoint's reply: the node's sources in
    /// ascending order once the store is ready, or the still-loading
    /// signal before that.
    pub fn incoming_edges_response(&self, query: &IncomingEdgeQuery)
        -> (r: Result<IncomingEdgeResponse, Errors>)
        requires
            self.well_formed(),
        ensures
            match r {
                Ok(resp) => self.is_loaded_spec()
                    && lists_set_ascending(resp.sources@, self.in_edges(query.target)),
                Err(e) => !self.is_loaded_spec() && e is StillLoading,
            },
    {
        if !self.is_loaded() {
            return Err(Errors::StillLoading);
        }
        let snapshot: AdjacencySet = self.get_incoming_edges(query.target);
        Ok(IncomingEdgeResponse { sources: snapshot.to_sorted_vec() })
    }

    /// The edge-membership endpoint's reply once the store is ready, or
    /// the still-loading signal before that; false for unknown nodes.
    pub fn has_edge_response(&self, query: &HasEdgeQuery) -> (r: Result<HasEdgeResponse, Errors>)
        requires
            self.well_formed(),
        ensures
            match r {
                Ok(resp) => self.is_loaded_spec()
                    && resp.has_edge == self.out_edges(query.source).contains(query.target),
                Err(e) => !self.is_loaded_spec() && e is StillLoading,
            },
    {
        if !self.is_loaded() {
            return Err(Errors::StillLoading);
        }
        Ok(HasEdgeResponse { has_edge: self.has_edge(query.source, query.target) })
    }

    /// The health report: fixed status and version, the load flag, and,
    /// when stats are asked for, the store's node count beside the
    /// caller-maintained edge counter (the store does not track edge
    /// totals itself; writers derive them from what each mutation
    /// reports).
    pub fn health_status(&self, want_stats: bool, edge_count: u64) -> (r: HealthStatus)
        requires
            self.well_formed(),
        ensures
            r.loaded == self.is_loaded_spec(),
            r.status@ == "ok"@,
            r.version@ == "0.1.0"@,
            want_stats ==> r.node_count == Some(self.node_count_value())
                && r.edge_count == Some(edge_count),
            !want_stats ==> r.node_count is None && r.edge_count is None,
    {
        let node_count = if want_stats {
            Some(self.node_count())
        } else {
            None
        };
        let edge = if want_stats {
            Some(edge_count)
        } else {
            None
        };
        HealthStatus {
            status: "ok",
            version: "0.1.0",
            node_count,
            edge_count: edge,
            loaded: self.is_loaded(),
        }
    }
}

} // verus!
