use graph_bubbles::bubbles::{advance_bfs, build_widths, collect_edges, find_bubbles,
    find_neighbors_to_add, match_bubbles, widths_fit, Bubble, BubbleType};
use handlegraph::handle::Edge;
use handlegraph::hashgraph::HashGraph;
use handlegraph::mutablehandlegraph::MutableHandleGraph;
use handlegraph::pathgraph::PathHandleGraph;

/// This function creates a simple graph, used for debugging
///          | 2: CT \
/// FWD  1: A         4: GCA
///          \ 3: GA |
///
fn create_simple_graph_bubble() -> HashGraph {
    let mut graph: HashGraph = HashGraph::new();

    let h1 = graph.create_handle("A".as_bytes(), 1u64);
    let h2 = graph.create_handle("CT".as_bytes(), 2u64);
    let h3 = graph.create_handle("GA".as_bytes(), 3u64);
    let h4 = graph.create_handle("GCA".as_bytes(), 4u64);

    graph.create_edge(&Edge(h1, h2));
    graph.create_edge(&Edge(h1, h3));
    graph.create_edge(&Edge(h2, h4));
    graph.create_edge(&Edge(h3, h4));

    let p1 = graph.create_path_handle("P1".as_bytes(), false);
    graph.append_step(&p1, h1);
    graph.append_step(&p1, h2);
    graph.append_step(&p1, h4);

    let p2 = graph.create_path_handle("P2".as_bytes(), false);
    graph.append_step(&p2, h1);
    graph.append_step(&p2, h3);
    graph.append_step(&p2, h4);

    graph
}

/// This function creates a simple graph, used for debugging
fn create_simple_graph_superbubble() -> HashGraph {
    let mut graph: HashGraph = HashGraph::new();

    let h1 = graph.create_handle("AAA".as_bytes(), 1u64);
    let h2 = graph.create_handle("CT".as_bytes(), 2u64);
    let h3 = graph.create_handle("GA".as_bytes(), 3u64);
    let h4 = graph.create_handle("CC".as_bytes(), 4u64);
    let h5 = graph.create_handle("TTT".as_bytes(), 5u64);
    let h6 = graph.create_handle("A".as_bytes(), 6u64);
    let h7 = graph.create_handle("GCA".as_bytes(), 7u64);

    graph.create_edge(&Edge(h1, h2));
    graph.create_edge(&Edge(h1, h3));

    graph.create_edge(&Edge(h2, h4));
    graph.create_edge(&Edge(h2, h5));
    graph.create_edge(&Edge(h4, h6));
    graph.create_edge(&Edge(h5, h6));
    graph.create_edge(&Edge(h6, h7));

    graph.create_edge(&Edge(h3, h7));

    graph
}

#[test]
fn test_bubble() {
    let graph = create_simple_graph_bubble();
    find_bubbles(&graph);
}

#[test]
fn test_superbubble() {
    let graph = create_simple_graph_superbubble();
    find_bubbles(&graph);
}

#[test]
fn empty_graph_yields_nothing() {
    let graph: HashGraph = HashGraph::new();
    let (fronts, widths) = build_widths(&graph);
    assert_eq!(fronts.len(), 0);
    assert_eq!(widths.len(), 0);
    let bubbles = match_bubbles(&widths);
    assert_eq!(bubbles.len(), 0);
    assert_eq!(find_bubbles(&graph), Some(vec![]));
}

#[test]
fn single_handle_width_one() {
    let mut graph: HashGraph = HashGraph::new();
    graph.create_handle("A".as_bytes(), 1u64);
    let (fronts, widths) = build_widths(&graph);
    assert_eq!(widths, vec![1]);
    assert_eq!(fronts, vec![vec![2]]);
    assert_eq!(find_bubbles(&graph), Some(vec![]));
}

#[test]
fn diamond_widths_and_bubble() {
    let graph = create_simple_graph_bubble();
    let (fronts, widths) = build_widths(&graph);
    assert_eq!(widths, vec![1, 2, 1]);
    assert_eq!(fronts, vec![vec![2], vec![4, 6], vec![8]]);
    let bubbles = find_bubbles(&graph).unwrap();
    assert_eq!(bubbles.len(), 1);
    assert_eq!(bubbles[0], Bubble { start: 2, end: 8, bubble_type: BubbleType::Simple });
}

#[test]
fn advancer_is_deterministic() {
    let graph = create_simple_graph_superbubble();
    let front = vec![2u64];
    let first = advance_bfs(&graph, &front);
    let second = advance_bfs(&graph, &front);
    assert_eq!(first, second);
    assert_eq!(first, vec![4, 6]);
    let wide = advance_bfs(&graph, &first);
    assert_eq!(wide, advance_bfs(&graph, &first));
    assert_eq!(wide, vec![8, 10, 14]);
}

#[test]
fn neighbors_keep_only_forward_edges() {
    let mut graph: HashGraph = HashGraph::new();
    let h1 = graph.create_handle("A".as_bytes(), 1u64);
    let h2 = graph.create_handle("C".as_bytes(), 2u64);
    let h3 = graph.create_handle("G".as_bytes(), 3u64);
    graph.create_edge(&Edge(h2, h1));
    graph.create_edge(&Edge(h2, h3));
    let kept = find_neighbors_to_add(&graph, 4);
    assert_eq!(kept, vec![6]);
}

#[test]
fn advanced_frontier_is_sorted() {
    let mut graph: HashGraph = HashGraph::new();
    let h1 = graph.create_handle("A".as_bytes(), 1u64);
    let h2 = graph.create_handle("C".as_bytes(), 2u64);
    let h3 = graph.create_handle("G".as_bytes(), 3u64);
    let h4 = graph.create_handle("T".as_bytes(), 4u64);
    graph.create_edge(&Edge(h1, h4));
    graph.create_edge(&Edge(h1, h3));
    graph.create_edge(&Edge(h1, h2));
    let next = advance_bfs(&graph, &vec![2u64]);
    assert_eq!(next, vec![4, 6, 8]);
}

#[test]
fn truncating_zip_drops_surplus_opens() {
    let widths: Vec<usize> = vec![1, 2, 3, 4, 2];
    let bubbles = match_bubbles(&widths);
    assert_eq!(bubbles.len(), 1);
    assert_eq!(bubbles[0], Bubble { start: 8, end: 22, bubble_type: BubbleType::Simple });
}

#[test]
fn counter_bound_is_checked() {
    assert!(widths_fit(&vec![1, 2, 1]));
    assert!(widths_fit(&vec![]));
    assert!(!widths_fit(&vec![usize::MAX, 1]));
}

#[test]
fn edge_list_matches_graph() {
    let graph = create_simple_graph_bubble();
    let mut edges = collect_edges(&graph).unwrap();
    edges.sort();
    assert_eq!(edges, vec![(2, 4), (2, 6), (4, 8), (6, 8)]);
    let empty: HashGraph = HashGraph::new();
    assert_eq!(collect_edges(&empty), Some(vec![]));
}

#[test]
fn pipeline_is_idempotent() {
    let graph = create_simple_graph_superbubble();
    let first_widths = build_widths(&graph);
    let second_widths = build_widths(&graph);
    assert_eq!(first_widths, second_widths);
    assert_eq!(first_widths.1, vec![1, 2, 3, 1, 1]);
    let first = find_bubbles(&graph);
    let second = find_bubbles(&graph);
    assert_eq!(first, second);
    assert_eq!(
        first.unwrap(),
        vec![Bubble { start: 4, end: 14, bubble_type: BubbleType::Simple }]
    );
}
