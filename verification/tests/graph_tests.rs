use dijkstra::frontier::select;
use dijkstra::graph::Edge;
use dijkstra::graph::Graph;
use dijkstra::graph::GraphError;
use dijkstra::graph::Node;
use dijkstra::ledger::CostLedger;
use dijkstra::ledger::ProcessedSet;

#[test]
fn find_neighbors_test() {
    let start = Node::new();
    let one = Node::new();
    let two = Node::new();
    let three = Node::new();
    let four = Node::new();
    let not_a_neighbor = Node::new();
    let start_one = Edge::new(0, &start, &one);
    let start_two = Edge::new(0, &start, &two);
    let start_three = Edge::new(0, &start, &three);
    let start_four = Edge::new(0, &start, &four);
    let four_not = Edge::new(0, &four, &not_a_neighbor);
    let nodes = vec![
        start.clone(),
        one.clone(),
        two.clone(),
        three.clone(),
        four.clone(),
        not_a_neighbor.clone(),
    ];
    let edges = vec![start_one, start_two, start_three, start_four, four_not];
    let mut graph = Graph::new();
    graph.register_nodes(&nodes).unwrap();
    graph.register_edges(&edges).unwrap();
    let neighbors = graph.neighbors_of(&start);
    assert_eq!(neighbors.len(), 4);
    assert_eq!(graph.neighbors_of(&four).len(), 1);
    assert_eq!(graph.neighbors_of(&two).len(), 0);
}

#[test]
fn mark_node_processed_test() {
    let mut processed = ProcessedSet::new(1);
    processed.mark(0);
    assert_eq!(*processed.order(), vec![0usize]);
    assert!(processed.contains(0));
}

#[test]
fn find_lowest_cost_node_test() {
    let start = Node::new();
    let one = Node::new();
    let two = Node::new();
    let three = Node::new();
    let four = Node::new();
    let not_a_neighbor = Node::new();
    let start_one = Edge::new(0, &start, &one);
    let start_two = Edge::new(0, &start, &two);
    let start_three = Edge::new(0, &start, &three);
    let start_four = Edge::new(0, &start, &four);
    let four_not = Edge::new(0, &four, &not_a_neighbor);
    let nodes = vec![
        start.clone(),
        one.clone(),
        two.clone(),
        three.clone(),
        four.clone(),
        not_a_neighbor.clone(),
    ];
    let edges = vec![start_one, start_two, start_three, start_four, four_not];
    let mut graph = Graph::new();
    graph.register_nodes(&nodes).unwrap();
    graph.register_edges(&edges).unwrap();
    let ledger = CostLedger::new(graph.node_count(), 0);
    let processed = ProcessedSet::new(graph.node_count());
    let lowest = select(&graph, &ledger, &processed);
    assert_eq!(lowest, Some(0));
    assert_eq!(graph.node_at(0).id, start.id);
}

#[test]
fn neighbors_are_edge_end_points() {
    let a = Node::new_with_id("a".to_string());
    let b = Node::new_with_id("b".to_string());
    let c = Node::new_with_id("c".to_string());
    let mut graph = Graph::new();
    graph
        .register_nodes(&vec![a.clone(), b.clone(), c.clone()])
        .unwrap();
    graph.register_edge(&Edge::new(1, &a, &b)).unwrap();
    graph.register_edge(&Edge::new(2, &a, &c)).unwrap();
    graph.register_edge(&Edge::new(3, &b, &c)).unwrap();
    let mut ids: Vec<String> = graph
        .neighbors_of(&a)
        .into_iter()
        .map(|n| n.id)
        .collect();
    ids.sort();
    assert_eq!(ids, vec!["b".to_string(), "c".to_string()]);
    assert!(graph.neighbors_of(&c).is_empty());
}

#[test]
fn neighbors_of_unregistered_node_are_empty() {
    let a = Node::new_with_id("a".to_string());
    let stranger = Node::new_with_id("stranger".to_string());
    let mut graph = Graph::new();
    graph.register_node(&a).unwrap();
    assert!(graph.neighbors_of(&stranger).is_empty());
}

#[test]
fn duplicate_node_identifier_is_rejected() {
    let a = Node::new_with_id("a".to_string());
    let again = Node::new_with_id("a".to_string());
    let mut graph = Graph::new();
    graph.register_node(&a).unwrap();
    assert_eq!(
        graph.register_node(&again),
        Err(GraphError::DuplicateIdentifier)
    );
}

#[test]
fn duplicate_edge_identifier_is_rejected() {
    let a = Node::new_with_id("a".to_string());
    let b = Node::new_with_id("b".to_string());
    let mut graph = Graph::new();
    graph.register_nodes(&vec![a.clone(), b.clone()]).unwrap();
    let first = Edge {
        id: "e".to_string(),
        start_id: "a".to_string(),
        end_id: "b".to_string(),
        weight: 1,
    };
    let second = Edge {
        id: "e".to_string(),
        start_id: "b".to_string(),
        end_id: "a".to_string(),
        weight: 2,
    };
    graph.register_edge(&first).unwrap();
    assert_eq!(
        graph.register_edge(&second),
        Err(GraphError::DuplicateIdentifier)
    );
}

#[test]
fn dangling_endpoint_is_rejected() {
    let a = Node::new_with_id("a".to_string());
    let stranger = Node::new_with_id("stranger".to_string());
    let mut graph = Graph::new();
    graph.register_node(&a).unwrap();
    let edge = Edge::new(1, &a, &stranger);
    assert_eq!(graph.register_edge(&edge), Err(GraphError::DanglingEndpoint));
}

#[test]
fn weight_between_picks_minimum_of_parallel_edges() {
    let a = Node::new_with_id("a".to_string());
    let b = Node::new_with_id("b".to_string());
    let mut graph = Graph::new();
    graph.register_nodes(&vec![a.clone(), b.clone()]).unwrap();
    graph.register_edge(&Edge::new(2, &a, &b)).unwrap();
    graph.register_edge(&Edge::new(7, &a, &b)).unwrap();
    assert_eq!(graph.weight_between(&a, &b), Ok(2));
}

#[test]
fn weight_between_without_edge_fails() {
    let a = Node::new_with_id("a".to_string());
    let b = Node::new_with_id("b".to_string());
    let mut graph = Graph::new();
    graph.register_nodes(&vec![a.clone(), b.clone()]).unwrap();
    graph.register_edge(&Edge::new(2, &a, &b)).unwrap();
    assert_eq!(graph.weight_between(&b, &a), Err(GraphError::NoSuchEdge));
}

#[test]
fn fresh_identifiers_are_long_and_distinct() {
    let a = Node::new();
    let b = Node::new();
    assert_eq!(a.id.len(), 36);
    assert_eq!(b.id.len(), 36);
    assert_ne!(a.id, b.id);
    let e = Edge::new(3, &a, &b);
    assert_eq!(e.id.len(), 36);
    assert_eq!(e.start_id, a.id);
    assert_eq!(e.end_id, b.id);
    assert_eq!(e.weight, 3);
}

#[test]
fn cost_ledger_starts_at_zero_and_sentinel() {
    let ledger = CostLedger::new(3, 0);
    assert_eq!(ledger.cost_of(0), 0);
    assert_eq!(ledger.cost_of(1), u64::MAX);
    assert_eq!(ledger.cost_of(2), u64::MAX);
    assert_eq!(ledger.cost_of(99), u64::MAX);
}

#[test]
fn set_cost_overwrites() {
    let mut ledger = CostLedger::new(2, 0);
    ledger.set_cost(1, 41);
    assert_eq!(ledger.cost_of(1), 41);
    ledger.set_cost(1, 12);
    assert_eq!(ledger.cost_of(1), 12);
}

#[test]
fn batch_registration_stops_at_first_duplicate() {
    let a = Node::new_with_id("a".to_string());
    let b = Node::new_with_id("b".to_string());
    let a_again = Node::new_with_id("a".to_string());
    let c = Node::new_with_id("c".to_string());
    let mut graph = Graph::new();
    let outcome = graph.register_nodes(&vec![a, b, a_again, c]);
    assert_eq!(outcome, Err(GraphError::DuplicateIdentifier));
    assert_eq!(graph.node_count(), 2);
    assert_eq!(graph.node_at(0).id, "a");
    assert_eq!(graph.node_at(1).id, "b");
}
