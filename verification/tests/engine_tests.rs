use dijkstra::engine::shortest_path;
use dijkstra::graph::Edge;
use dijkstra::graph::Graph;
use dijkstra::graph::GraphError;
use dijkstra::graph::Node;

fn named(id: &str) -> Node {
    Node::new_with_id(id.to_string())
}

#[test]
fn djikstra_test() {
    let book = Node::new_with_id("book".to_string());
    let poster = Node::new_with_id("poster".to_string());
    let lp = Node::new_with_id("lp".to_string());
    let drums = Node::new_with_id("drums".to_string());
    let bassguitar = Node::new_with_id("bassguitar".to_string());
    let piano = Node::new_with_id("piano".to_string());
    let start_poster = Edge::new(0, &book, &poster);
    let book_lp = Edge::new(5, &book, &lp);
    let poster_bassguitar = Edge::new(30, &poster, &bassguitar);
    let poster_drums = Edge::new(35, &poster, &drums);
    let lp_drums = Edge::new(20, &lp, &drums);
    let lp_bassguitar = Edge::new(15, &lp, &bassguitar);
    let bassguitar_piano = Edge::new(20, &bassguitar, &piano);
    let drums_piano = Edge::new(10, &drums, &piano);

    let nodes = vec![
        book.clone(),
        poster.clone(),
        lp.clone(),
        drums.clone(),
        bassguitar.clone(),
        piano.clone(),
    ];
    let edges = vec![
        start_poster,
        book_lp,
        poster_bassguitar,
        poster_drums,
        lp_drums,
        lp_bassguitar,
        bassguitar_piano,
        drums_piano,
    ];

    let mut graph = Graph::new();
    graph.register_nodes(&nodes).unwrap();
    graph.register_edges(&edges).unwrap();

    let result = shortest_path(&graph, &book, &piano).unwrap();
    assert_eq!("book -> lp -> drums -> piano -> ", result.render());
    assert_eq!(result.cost, 35);
}

#[test]
fn linear_chain_path_and_cost() {
    let a = named("A");
    let b = named("B");
    let c = named("C");
    let mut graph = Graph::new();
    graph
        .register_nodes(&vec![a.clone(), b.clone(), c.clone()])
        .unwrap();
    graph.register_edge(&Edge::new(5, &a, &b)).unwrap();
    graph.register_edge(&Edge::new(3, &b, &c)).unwrap();
    let result = shortest_path(&graph, &a, &c).unwrap();
    assert_eq!(
        result.nodes,
        vec!["A".to_string(), "B".to_string(), "C".to_string()]
    );
    assert_eq!(result.cost, 8);
}

#[test]
fn diamond_tie_breaks_to_registration_order() {
    let a = named("A");
    let b = named("B");
    let c = named("C");
    let d = named("D");
    let mut graph = Graph::new();
    graph
        .register_nodes(&vec![a.clone(), b.clone(), c.clone(), d.clone()])
        .unwrap();
    graph.register_edge(&Edge::new(1, &a, &b)).unwrap();
    graph.register_edge(&Edge::new(1, &a, &c)).unwrap();
    graph.register_edge(&Edge::new(1, &b, &d)).unwrap();
    graph.register_edge(&Edge::new(1, &c, &d)).unwrap();
    let result = shortest_path(&graph, &a, &d).unwrap();
    assert_eq!(result.cost, 2);
    // `B` was registered before `C`, so the frontier finalizes it first and
    // its relaxation of `D` is never improved upon.
    assert_eq!(
        result.nodes,
        vec!["A".to_string(), "B".to_string(), "D".to_string()]
    );
}

#[test]
fn disconnected_node_has_no_path() {
    let a = named("A");
    let b = named("B");
    let e = named("E");
    let mut graph = Graph::new();
    graph
        .register_nodes(&vec![a.clone(), b.clone(), e.clone()])
        .unwrap();
    graph.register_edge(&Edge::new(1, &a, &b)).unwrap();
    assert!(matches!(
        shortest_path(&graph, &a, &e),
        Err(GraphError::NoPathFound)
    ));
}

#[test]
fn unknown_start_or_end_is_rejected() {
    let a = named("A");
    let stranger = named("stranger");
    let mut graph = Graph::new();
    graph.register_node(&a).unwrap();
    assert!(matches!(
        shortest_path(&graph, &a, &stranger),
        Err(GraphError::UnknownStartOrEnd)
    ));
    assert!(matches!(
        shortest_path(&graph, &stranger, &a),
        Err(GraphError::UnknownStartOrEnd)
    ));
}

#[test]
fn query_twice_gives_same_answer() {
    let a = named("A");
    let b = named("B");
    let c = named("C");
    let d = named("D");
    let mut graph = Graph::new();
    graph
        .register_nodes(&vec![a.clone(), b.clone(), c.clone(), d.clone()])
        .unwrap();
    graph.register_edge(&Edge::new(4, &a, &b)).unwrap();
    graph.register_edge(&Edge::new(1, &a, &c)).unwrap();
    graph.register_edge(&Edge::new(2, &c, &b)).unwrap();
    graph.register_edge(&Edge::new(5, &b, &d)).unwrap();
    let first = shortest_path(&graph, &a, &d).unwrap();
    let second = shortest_path(&graph, &a, &d).unwrap();
    assert_eq!(first.nodes, second.nodes);
    assert_eq!(first.cost, second.cost);
    assert_eq!(first.cost, 8);
}

#[test]
fn start_to_itself_costs_nothing() {
    let a = named("A");
    let b = named("B");
    let mut graph = Graph::new();
    graph.register_nodes(&vec![a.clone(), b.clone()]).unwrap();
    graph.register_edge(&Edge::new(2, &a, &b)).unwrap();
    let result = shortest_path(&graph, &a, &a).unwrap();
    assert_eq!(result.nodes, vec!["A".to_string()]);
    assert_eq!(result.cost, 0);
}

#[test]
fn zero_weight_edges_are_traversed() {
    let a = named("A");
    let b = named("B");
    let c = named("C");
    let mut graph = Graph::new();
    graph
        .register_nodes(&vec![a.clone(), b.clone(), c.clone()])
        .unwrap();
    graph.register_edge(&Edge::new(0, &a, &b)).unwrap();
    graph.register_edge(&Edge::new(0, &b, &c)).unwrap();
    let result = shortest_path(&graph, &a, &c).unwrap();
    assert_eq!(
        result.nodes,
        vec!["A".to_string(), "B".to_string(), "C".to_string()]
    );
    assert_eq!(result.cost, 0);
}

#[test]
fn greedy_first_step_is_not_trusted() {
    // The cheap first hop leads to an expensive finish; the engine must
    // still find the globally cheapest route.
    let a = named("A");
    let cheap = named("cheap");
    let dear = named("dear");
    let goal = named("goal");
    let mut graph = Graph::new();
    graph
        .register_nodes(&vec![a.clone(), cheap.clone(), dear.clone(), goal.clone()])
        .unwrap();
    graph.register_edge(&Edge::new(1, &a, &cheap)).unwrap();
    graph.register_edge(&Edge::new(100, &cheap, &goal)).unwrap();
    graph.register_edge(&Edge::new(10, &a, &dear)).unwrap();
    graph.register_edge(&Edge::new(10, &dear, &goal)).unwrap();
    let result = shortest_path(&graph, &a, &goal).unwrap();
    assert_eq!(
        result.nodes,
        vec!["A".to_string(), "dear".to_string(), "goal".to_string()]
    );
    assert_eq!(result.cost, 20);
}

#[test]
fn parallel_edges_use_the_cheaper_one() {
    let a = named("A");
    let b = named("B");
    let mut graph = Graph::new();
    graph.register_nodes(&vec![a.clone(), b.clone()]).unwrap();
    graph.register_edge(&Edge::new(7, &a, &b)).unwrap();
    graph.register_edge(&Edge::new(2, &a, &b)).unwrap();
    let result = shortest_path(&graph, &a, &b).unwrap();
    assert_eq!(result.cost, 2);
}

#[test]
fn render_appends_arrow_after_each_identifier() {
    let a = named("A");
    let b = named("B");
    let mut graph = Graph::new();
    graph.register_nodes(&vec![a.clone(), b.clone()]).unwrap();
    graph.register_edge(&Edge::new(2, &a, &b)).unwrap();
    let result = shortest_path(&graph, &a, &b).unwrap();
    assert_eq!(result.render(), "A -> B -> ");
}

#[test]
fn costs_at_the_sentinel_count_as_unreached() {
    let a = named("A");
    let b = named("B");
    let c = named("C");
    let mut graph = Graph::new();
    graph
        .register_nodes(&vec![a.clone(), b.clone(), c.clone()])
        .unwrap();
    graph
        .register_edge(&Edge::new(u64::MAX - 1, &a, &b))
        .unwrap();
    graph
        .register_edge(&Edge::new(u64::MAX - 1, &b, &c))
        .unwrap();
    let to_b = shortest_path(&graph, &a, &b).unwrap();
    assert_eq!(to_b.cost, u64::MAX - 1);
    // The only route to `C` would cost at least the sentinel, so it is
    // reported as unreachable rather than with a wrapped or clamped cost.
    assert!(matches!(
        shortest_path(&graph, &a, &c),
        Err(GraphError::NoPathFound)
    ));
}
