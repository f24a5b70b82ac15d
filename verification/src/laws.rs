//! Laws of the edge operations, stated over the store's abstract state
//! and proved once for all inputs.

use vstd::prelude::*;
use crate::graph::GraphView;
use crate::graph::PendingAction;
use crate::graph::apply_action;

verus! {

/// Round trip: adding an edge and then removing it leaves no trace of
/// that edge. It is gone from both endpoints, and each endpoint's sets
/// keep exactly what other edges put there.
pub proof fn lemma_add_remove_round_trip(v: GraphView, s: u32, t: u32)
    ensures
        ({
            let w = apply_action(
                apply_action(v, PendingAction::AddEdge(s, t)),
                PendingAction::RemoveEdge(s, t),
            );
            &&& !w.out[s].contains(t)
            &&& !w.inc[t].contains(s)
            &&& w.out[s] == v.out[s].remove(t)
            &&& w.inc[t] == v.inc[t].remove(s)
            &&& forall|x: u32| x != s ==> w.out[x] == v.out[x]
            &&& forall|x: u32| x != t ==> w.inc[x] == v.inc[x]
        }),
{
    let w = apply_action(
        apply_action(v, PendingAction::AddEdge(s, t)),
        PendingAction::RemoveEdge(s, t),
    );
    assert(w.out[s] =~= v.out[s].remove(t));
    assert(w.inc[t] =~= v.inc[t].remove(s));
}

/// Idempotence: adding an edge twice is adding it once; in particular
/// the outgoing set of the source does not change after the first call.
pub proof fn lemma_add_edge_idempotent(v: GraphView, s: u32, t: u32)
    ensures
        apply_action(apply_action(v, PendingAction::AddEdge(s, t)), PendingAction::AddEdge(s, t))
            == apply_action(v, PendingAction::AddEdge(s, t)),
{
    let once = apply_action(v, PendingAction::AddEdge(s, t));
    let twice = apply_action(once, PendingAction::AddEdge(s, t));
    assert(twice.out =~~= once.out);
    assert(twice.inc =~~= once.inc);
    assert(twice.nodes =~= once.nodes);
    assert(twice.dirty =~= once.dirty);
    assert(twice =~~= once);
}

/// Convergence of independent writes: two edge insertions on disjoint
/// node pairs reach the same state in either order, so a batch of such
/// writes has a single result whatever interleaving ran them.
pub proof fn lemma_add_edge_commutes(v: GraphView, s1: u32, t1: u32, s2: u32, t2: u32)
    requires
        s1 != s2,
        s1 != t2,
        t1 != s2,
        t1 != t2,
    ensures
        apply_action(apply_action(v, PendingAction::AddEdge(s1, t1)), PendingAction::AddEdge(s2, t2))
            == apply_action(
                apply_action(v, PendingAction::AddEdge(s2, t2)),
                PendingAction::AddEdge(s1, t1),
            ),
{
    let a = apply_action(
        apply_action(v, PendingAction::AddEdge(s1, t1)),
        PendingAction::AddEdge(s2, t2),
    );
    let b = apply_action(
        apply_action(v, PendingAction::AddEdge(s2, t2)),
        PendingAction::AddEdge(s1, t1),
    );
    assert(a.out =~~= b.out);
    assert(a.inc =~~= b.inc);
    assert(a.nodes =~= b.nodes);
    assert(a.dirty =~= b.dirty);
    assert(a =~~= b);
}

} // verus!
