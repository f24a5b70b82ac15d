use raphle::Edge;
use raphle::EdgeBody;
use raphle::Errors;
use raphle::Graph;
use raphle::HasEdgeQuery;
use raphle::IncomingEdgeQuery;
use raphle::OutgoingEdgeQuery;

#[test]
fn adjacency_set_basics() {
    let mut s = raphle::AdjacencySet::new();
    assert!(!s.contains(5));
    assert!(s.insert(5));
    assert!(!s.insert(5));
    assert!(s.insert(3));
    assert_eq!(s.to_sorted_vec(), vec![3, 5]);
    assert!(s.remove(5));
    assert!(!s.remove(5));
    assert_eq!(s.to_sorted_vec(), vec![3]);
    let copy = s.snapshot();
    s.insert(9);
    assert!(!copy.contains(9));
    assert!(copy.contains(3));
}

#[test]
fn queries_signal_still_loading() {
    let g = Graph::new(8);
    let out = g.outgoing_edges_response(&OutgoingEdgeQuery { source: 1 });
    assert!(matches!(out, Err(Errors::StillLoading)));
    let inc = g.incoming_edges_response(&IncomingEdgeQuery { target: 1 });
    assert!(matches!(inc, Err(Errors::StillLoading)));
    let has = g.has_edge_response(&HasEdgeQuery { source: 1, target: 2 });
    assert!(matches!(has, Err(Errors::StillLoading)));
}

#[test]
fn queries_answer_once_loaded() {
    let mut g = Graph::new(8);
    g.complete_load();
    g.add_edge(1, 3);
    g.add_edge(1, 2);
    let out = g
        .outgoing_edges_response(&OutgoingEdgeQuery { source: 1 })
        .unwrap();
    assert_eq!(out.targets, vec![2, 3]);
    let inc = g
        .incoming_edges_response(&IncomingEdgeQuery { target: 2 })
        .unwrap();
    assert_eq!(inc.sources, vec![1]);
    let has = g
        .has_edge_response(&HasEdgeQuery { source: 1, target: 2 })
        .unwrap();
    assert!(has.has_edge);
    let has_not = g
        .has_edge_response(&HasEdgeQuery { source: 2, target: 1 })
        .unwrap();
    assert!(!has_not.has_edge);
    let unknown = g
        .outgoing_edges_response(&OutgoingEdgeQuery { source: 42 })
        .unwrap();
    assert_eq!(unknown.targets, Vec::<u32>::new());
}

#[test]
fn submit_queues_while_loading_and_applies_when_ready() {
    let mut g = Graph::new(8);
    let (queued, added) = g.submit_add_edge(1, 2);
    assert!(queued);
    assert!(!added);
    assert!(!g.has_edge(1, 2));
    assert_eq!(g.pending_action_queue_len(), 1);
    g.complete_load();
    assert!(g.has_edge(1, 2));
    let (queued_after, added_after) = g.submit_add_edge(3, 4);
    assert!(!queued_after);
    assert!(added_after);
    let (_, added_again) = g.submit_add_edge(3, 4);
    assert!(!added_again);
    assert!(g.has_edge(3, 4));
    assert_eq!(g.pending_action_queue_len(), 0);
}

#[test]
fn submit_edges_routes_a_whole_batch() {
    let body = EdgeBody {
        new_edges: vec![
            Edge { source: 1, target: 2 },
            Edge { source: 2, target: 3 },
        ],
    };
    let mut loading = Graph::new(8);
    loading.submit_edges(&body);
    assert_eq!(loading.pending_action_queue_len(), 2);
    assert!(!loading.has_edge(1, 2));
    loading.complete_load();
    assert!(loading.has_edge(1, 2));
    assert!(loading.has_edge(2, 3));

    let mut ready = Graph::new(8);
    ready.complete_load();
    ready.submit_edges(&body);
    assert!(ready.has_edge(1, 2));
    assert!(ready.has_edge(2, 3));
    assert_eq!(ready.pending_action_queue_len(), 0);
}

#[test]
fn error_messages_match_the_service_wording() {
    assert_eq!(
        Errors::StillLoading.message(),
        "graph data is still loading to memory"
    );
    assert_eq!(
        Errors::CloggedFlush.message(),
        "failed to flush updates to graph"
    );
}

#[test]
fn health_report_reflects_the_store() {
    let mut g = Graph::new(8);
    let quiet = g.health_status(false, 0);
    assert_eq!(quiet.status, "ok");
    assert_eq!(quiet.version, "0.1.0");
    assert_eq!(quiet.node_count, None);
    assert_eq!(quiet.edge_count, None);
    assert!(!quiet.loaded);
    g.add_edge(1, 2);
    g.add_edge(2, 3);
    g.complete_load();
    let full = g.health_status(true, 2);
    assert_eq!(full.node_count, Some(3));
    assert_eq!(full.edge_count, Some(2));
    assert!(full.loaded);
}
