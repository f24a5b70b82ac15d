use raphle::Graph;
use raphle::LoadError;

fn load(data: &[u8], delimiter: u8) -> (Graph, Result<u64, LoadError>) {
    let mut g = Graph::new(16);
    let bytes: Vec<u8> = data.to_vec();
    let r = g.load_from_bytes(&bytes, delimiter);
    (g, r)
}

#[test]
fn scenario_tab_separated_load() {
    let (g, r) = load(b"1\t2\n2\t3\n1\t3\n", b'\t');
    assert_eq!(r, Ok(3));
    assert_eq!(g.get_outgoing_edges(1).to_sorted_vec(), vec![2, 3]);
    assert_eq!(g.get_outgoing_edges(2).to_sorted_vec(), vec![3]);
    assert_eq!(g.get_incoming_edges(3).to_sorted_vec(), vec![1, 2]);
    assert!(g.has_edge(2, 3));
    assert!(!g.has_edge(3, 1));
    assert!(!g.node_exists(4));
    assert!(g.is_loaded());
}

#[test]
fn store_is_loaded_only_after_the_full_stream() {
    let mut g = Graph::new(16);
    assert!(!g.is_loaded());
    let bytes: Vec<u8> = b"1\t2\n".to_vec();
    let r = g.load_from_bytes(&bytes, b'\t');
    assert_eq!(r, Ok(1));
    assert!(g.is_loaded());
}

#[test]
fn comma_delimiter_works() {
    let (g, r) = load(b"10,20\n20,30\n", b',');
    assert_eq!(r, Ok(2));
    assert!(g.has_edge(10, 20));
    assert!(g.has_edge(20, 30));
}

#[test]
fn empty_input_loads_zero_records() {
    let (g, r) = load(b"", b'\t');
    assert_eq!(r, Ok(0));
    assert!(g.is_loaded());
    assert_eq!(g.node_count(), 0);
}

#[test]
fn missing_final_newline_is_fine() {
    let (g, r) = load(b"1\t2\n3\t4", b'\t');
    assert_eq!(r, Ok(2));
    assert!(g.has_edge(1, 2));
    assert!(g.has_edge(3, 4));
}

#[test]
fn carriage_returns_are_stripped() {
    let (g, r) = load(b"1\t2\r\n3\t4\r\n", b'\t');
    assert_eq!(r, Ok(2));
    assert!(g.has_edge(1, 2));
    assert!(g.has_edge(3, 4));
}

#[test]
fn malformed_record_aborts_with_its_row() {
    let (g, r) = load(b"1\t2\nx\t3\n4\t5\n", b'\t');
    assert_eq!(r, Err(LoadError::Parse(2)));
    assert!(!g.is_loaded());
    assert!(g.has_edge(1, 2));
    assert!(!g.has_edge(4, 5));
}

#[test]
fn one_column_is_malformed() {
    let (g, r) = load(b"12\n", b'\t');
    assert_eq!(r, Err(LoadError::Parse(1)));
    assert!(!g.is_loaded());
}

#[test]
fn three_columns_are_malformed() {
    let (_, r) = load(b"1\t2\t3\n", b'\t');
    assert_eq!(r, Err(LoadError::Parse(1)));
}

#[test]
fn empty_column_is_malformed() {
    let (_, r) = load(b"1\t\n", b'\t');
    assert_eq!(r, Err(LoadError::Parse(1)));
    let (_, r2) = load(b"\t2\n", b'\t');
    assert_eq!(r2, Err(LoadError::Parse(1)));
}

#[test]
fn empty_line_is_malformed() {
    let (_, r) = load(b"1\t2\n\n3\t4\n", b'\t');
    assert_eq!(r, Err(LoadError::Parse(2)));
}

#[test]
fn value_above_u32_max_is_malformed() {
    let (_, r) = load(b"4294967296\t1\n", b'\t');
    assert_eq!(r, Err(LoadError::Parse(1)));
}

#[test]
fn u32_max_itself_loads() {
    let (g, r) = load(b"4294967295\t0\n", b'\t');
    assert_eq!(r, Ok(1));
    assert!(g.has_edge(4294967295, 0));
}

#[test]
fn leading_zeros_parse() {
    let (g, r) = load(b"007\t08\n", b'\t');
    assert_eq!(r, Ok(1));
    assert!(g.has_edge(7, 8));
}

#[test]
fn failed_load_leaves_queue_and_phase_alone() {
    let mut g = Graph::new(16);
    g.enqueue_add_edge(100, 200);
    let bytes: Vec<u8> = b"bad line\n".to_vec();
    let r = g.load_from_bytes(&bytes, b'\t');
    assert_eq!(r, Err(LoadError::Parse(1)));
    assert!(!g.is_loaded());
    assert_eq!(g.pending_action_queue_len(), 1);
    assert!(!g.has_edge(100, 200));
}

#[test]
fn successful_load_drains_queued_writes_after_records() {
    let mut g = Graph::new(16);
    g.enqueue_add_edge(100, 200);
    g.enqueue_remove_edge(1, 2);
    let bytes: Vec<u8> = b"1\t2\n".to_vec();
    let r = g.load_from_bytes(&bytes, b'\t');
    assert_eq!(r, Ok(1));
    assert!(g.is_loaded());
    assert!(g.has_edge(100, 200));
    assert!(!g.has_edge(1, 2));
    assert_eq!(g.pending_action_queue_len(), 0);
}
