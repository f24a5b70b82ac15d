use raphle::Graph;

fn sorted(set: raphle::AdjacencySet) -> Vec<u32> {
    set.to_sorted_vec()
}

#[test]
fn new_store_is_empty_and_loading() {
    let g = Graph::new(100);
    assert!(!g.is_loaded());
    assert!(!g.node_exists(0));
    assert!(!g.node_exists(1));
    assert_eq!(g.get_node(1), None);
    assert_eq!(g.node_count(), 0);
    assert_eq!(g.pending_action_queue_len(), 0);
    assert_eq!(sorted(g.get_outgoing_edges(1)), Vec::<u32>::new());
    assert_eq!(sorted(g.get_incoming_edges(1)), Vec::<u32>::new());
    assert!(!g.has_edge(1, 2));
}

#[test]
fn add_edge_creates_both_entries() {
    let mut g = Graph::new(8);
    assert!(g.add_edge(1, 2));
    assert!(!g.add_edge(1, 2));
    assert!(g.node_exists(1));
    assert!(g.node_exists(2));
    assert_eq!(g.get_node(1), Some(1));
    assert_eq!(g.get_node(2), Some(2));
    assert_eq!(g.node_count(), 2);
    assert!(g.has_edge(1, 2));
    assert!(!g.has_edge(2, 1));
    assert_eq!(sorted(g.get_outgoing_edges(1)), vec![2]);
    assert_eq!(sorted(g.get_incoming_edges(2)), vec![1]);
    assert_eq!(sorted(g.get_outgoing_edges(2)), Vec::<u32>::new());
    assert_eq!(sorted(g.get_incoming_edges(1)), Vec::<u32>::new());
}

#[test]
fn symmetry_holds_after_mixed_mutations() {
    let mut g = Graph::new(8);
    g.add_edge(1, 2);
    g.add_edge(2, 3);
    g.add_edge(3, 1);
    g.add_edge(1, 3);
    g.remove_edge(2, 3);
    g.remove_edge(4, 5);
    for s in 0u32..6 {
        for t in 0u32..6 {
            let forward = g.get_outgoing_edges(s).contains(t);
            let backward = g.get_incoming_edges(t).contains(s);
            assert_eq!(forward, backward);
        }
    }
}

#[test]
fn round_trip_removes_every_trace() {
    let mut g = Graph::new(8);
    g.add_edge(3, 2);
    g.add_edge(1, 2);
    g.remove_edge(1, 2);
    assert!(!g.has_edge(1, 2));
    assert!(!g.get_outgoing_edges(1).contains(2));
    assert!(!g.get_incoming_edges(2).contains(1));
    assert_eq!(sorted(g.get_incoming_edges(2)), vec![3]);
    assert!(g.has_edge(3, 2));
}

#[test]
fn repeated_add_is_idempotent() {
    let mut g = Graph::new(8);
    g.add_edge(5, 7);
    let first = sorted(g.get_outgoing_edges(5));
    g.add_edge(5, 7);
    g.add_edge(5, 7);
    assert_eq!(sorted(g.get_outgoing_edges(5)), first);
    assert_eq!(first, vec![7]);
    assert_eq!(g.node_count(), 2);
}

#[test]
fn disjoint_adds_converge_in_any_order() {
    let mut g1 = Graph::new(8);
    g1.add_edge(1, 2);
    g1.add_edge(3, 4);
    g1.add_edge(5, 6);
    let mut g2 = Graph::new(8);
    g2.add_edge(5, 6);
    g2.add_edge(1, 2);
    g2.add_edge(3, 4);
    for s in 0u32..8 {
        assert_eq!(
            sorted(g1.get_outgoing_edges(s)),
            sorted(g2.get_outgoing_edges(s))
        );
        assert_eq!(
            sorted(g1.get_incoming_edges(s)),
            sorted(g2.get_incoming_edges(s))
        );
        assert_eq!(g1.node_exists(s), g2.node_exists(s));
    }
    assert_eq!(g1.node_count(), g2.node_count());
}

#[test]
fn self_loop_touches_one_entry() {
    let mut g = Graph::new(8);
    g.add_edge(7, 7);
    assert!(g.has_edge(7, 7));
    assert_eq!(sorted(g.get_outgoing_edges(7)), vec![7]);
    assert_eq!(sorted(g.get_incoming_edges(7)), vec![7]);
    assert_eq!(g.node_count(), 1);
    g.remove_edge(7, 7);
    assert!(!g.has_edge(7, 7));
    assert!(g.node_exists(7));
}

#[test]
fn remove_on_absent_nodes_is_a_noop() {
    let mut g = Graph::new(8);
    g.remove_edge(1, 2);
    assert!(!g.node_exists(1));
    assert!(!g.node_exists(2));
    assert!(!g.has_edge(1, 2));
    g.add_edge(1, 3);
    g.remove_edge(1, 2);
    assert!(g.has_edge(1, 3));
}

#[test]
fn snapshots_are_copies() {
    let mut g = Graph::new(8);
    g.add_edge(1, 2);
    let snapshot = g.get_outgoing_edges(1);
    g.add_edge(1, 9);
    assert!(!snapshot.contains(9));
    assert!(snapshot.contains(2));
    assert!(g.get_outgoing_edges(1).contains(9));
}

#[test]
fn queue_drains_exactly_once_in_fifo_order() {
    let mut g = Graph::new(8);
    assert!(!g.is_loaded());
    g.enqueue_add_edge(1, 2);
    g.enqueue_add_edge(2, 3);
    g.enqueue_remove_edge(1, 2);
    assert_eq!(g.pending_action_queue_len(), 3);
    assert!(!g.has_edge(1, 2));
    g.complete_load();
    assert!(g.is_loaded());
    assert_eq!(g.pending_action_queue_len(), 0);
    assert!(!g.has_edge(1, 2));
    assert!(g.has_edge(2, 3));
    g.complete_load();
    assert_eq!(g.pending_action_queue_len(), 0);
    assert!(!g.has_edge(1, 2));
    assert!(g.has_edge(2, 3));
}

#[test]
fn enqueue_after_drain_waits_for_next_drain() {
    let mut g = Graph::new(8);
    g.enqueue_add_edge(1, 2);
    g.complete_load();
    assert!(g.has_edge(1, 2));
    g.enqueue_add_edge(3, 4);
    assert_eq!(g.pending_action_queue_len(), 1);
    assert!(!g.has_edge(3, 4));
    g.complete_load();
    assert!(g.has_edge(3, 4));
    assert_eq!(g.pending_action_queue_len(), 0);
}

#[test]
fn flush_snapshot_carries_dirty_nodes_and_their_adjacency() {
    let mut g = Graph::new(8);
    g.add_edge(2, 1);
    let snapshot = g.begin_flush();
    let ids: Vec<u32> = snapshot.iter().map(|r| r.id).collect();
    assert_eq!(ids, vec![1, 2]);
    for record in &snapshot {
        if record.id == 2 {
            assert!(record.outgoing_edges.contains(1));
            assert!(!record.incoming_edges.contains(1));
        }
        if record.id == 1 {
            assert!(record.incoming_edges.contains(2));
            assert!(!record.outgoing_edges.contains(2));
        }
    }
    let empty = g.begin_flush();
    assert_eq!(empty.len(), 0);
}

#[test]
fn flush_failure_restores_ids_and_keeps_new_dirt() {
    let mut g = Graph::new(8);
    g.add_edge(1, 2);
    let snapshot = g.begin_flush();
    let ids: Vec<u32> = snapshot.iter().map(|r| r.id).collect();
    assert_eq!(ids, vec![1, 2]);
    g.add_edge(3, 4);
    g.flush_failed(&snapshot);
    let retry = g.begin_flush();
    let retry_ids: Vec<u32> = retry.iter().map(|r| r.id).collect();
    assert_eq!(retry_ids, vec![1, 2, 3, 4]);
    let after_success = g.begin_flush();
    assert_eq!(after_success.len(), 0);
}

#[test]
fn flush_snapshot_is_unaffected_by_later_mutations() {
    let mut g = Graph::new(8);
    g.add_edge(1, 2);
    let snapshot = g.begin_flush();
    g.add_edge(1, 9);
    for record in &snapshot {
        if record.id == 1 {
            assert!(record.outgoing_edges.contains(2));
            assert!(!record.outgoing_edges.contains(9));
        }
    }
}

#[test]
fn node_count_counts_distinct_touched_ids() {
    let mut g = Graph::new(8);
    g.add_edge(1, 2);
    g.add_edge(2, 3);
    g.add_edge(1, 3);
    g.add_edge(1, 1);
    assert_eq!(g.node_count(), 3);
}
