use dogmos::diffusion::{
    upsert_graph_node, validate_graph, DirectedEdge, GraphNode, GraphValidationError, MixtureHandle,
    NodeHandle, NodeUpsert,
};

fn node(handle: u32) -> GraphNode {
    GraphNode {
        handle: NodeHandle(handle),
        generation: 0,
        mixture: Some(MixtureHandle { slot: handle, generation: 0 }),
    }
}

fn edge(from: u32, to: u32) -> DirectedEdge {
    DirectedEdge { from: NodeHandle(from), to: NodeHandle(to) }
}

fn both(a: u32, b: u32) -> [DirectedEdge; 2] {
    [edge(a, b), edge(b, a)]
}

#[test]
fn a_symmetric_graph_reports_node_degrees() {
    let nodes = [node(10), node(20), node(30)];
    let mut edges = Vec::new();
    edges.extend(both(10, 20));
    edges.extend(both(20, 30));
    let graph = validate_graph(&nodes, &edges).unwrap();
    assert_eq!(graph.node_count(), 3);
    assert_eq!(graph.degree(NodeHandle(10)), Some(1));
    assert_eq!(graph.degree(NodeHandle(20)), Some(2));
    assert_eq!(graph.degree(NodeHandle(30)), Some(1));
    assert_eq!(graph.degree(NodeHandle(40)), None);
}

#[test]
fn node_checks_run_in_node_order() {
    let mut missing = node(2);
    missing.mixture = None;
    assert_eq!(
        validate_graph(&[node(1), missing, node(1)], &[]).unwrap_err(),
        GraphValidationError::MissingMixture(NodeHandle(2))
    );
    assert_eq!(
        validate_graph(&[node(1), node(3), node(1), missing], &[]).unwrap_err(),
        GraphValidationError::DuplicateNode(NodeHandle(1))
    );
}

#[test]
fn edge_checks_run_in_edge_order() {
    let nodes = [node(1), node(2)];
    assert_eq!(
        validate_graph(&nodes, &[edge(1, 2), edge(9, 1)]).unwrap_err(),
        GraphValidationError::UnknownNode(NodeHandle(9))
    );
    assert_eq!(
        validate_graph(&nodes, &[edge(1, 8)]).unwrap_err(),
        GraphValidationError::UnknownNode(NodeHandle(8))
    );
    assert_eq!(
        validate_graph(&nodes, &[edge(2, 2)]).unwrap_err(),
        GraphValidationError::SelfEdge(NodeHandle(2))
    );
    assert_eq!(
        validate_graph(&nodes, &[edge(1, 2), edge(2, 1), edge(1, 2)]).unwrap_err(),
        GraphValidationError::DuplicateEdge { from: NodeHandle(1), to: NodeHandle(2) }
    );
}

#[test]
fn the_smallest_one_way_edge_is_reported() {
    let nodes = [node(1), node(2), node(3)];
    assert_eq!(
        validate_graph(&nodes, &[edge(3, 1), edge(2, 3), edge(2, 1)]).unwrap_err(),
        GraphValidationError::MissingReciprocalEdge { from: NodeHandle(2), to: NodeHandle(1) }
    );
}

#[test]
fn more_than_six_neighbors_is_rejected() {
    let nodes: Vec<GraphNode> = (0..8).map(node).collect();
    let mut edges = Vec::new();
    for other in 1..8 {
        edges.extend(both(0, other));
    }
    assert_eq!(
        validate_graph(&nodes, &edges).unwrap_err(),
        GraphValidationError::DegreeExceeded { handle: NodeHandle(0), degree: 7 }
    );
    edges.truncate(12);
    let graph = validate_graph(&nodes, &edges).unwrap();
    assert_eq!(graph.degree(NodeHandle(0)), Some(6));
    assert_eq!(graph.degree(NodeHandle(7)), Some(0));
}

#[test]
fn upsert_inserts_replaces_and_ignores_stale_generations() {
    let mut nodes = vec![node(1)];
    let mut newer = node(1);
    newer.generation = 4;
    assert_eq!(upsert_graph_node(&mut nodes, newer), NodeUpsert::Replaced { previous_generation: 0 });
    assert_eq!(
        upsert_graph_node(&mut nodes, node(1)),
        NodeUpsert::IgnoredStale { current_generation: 4 }
    );
    assert_eq!(nodes, vec![newer]);
    assert_eq!(upsert_graph_node(&mut nodes, node(2)), NodeUpsert::Inserted);
    assert_eq!(nodes, vec![newer, node(2)]);
}

#[test]
fn rows_list_neighbor_positions_in_ascending_order() {
    let nodes = [node(40), node(10), node(30), node(20)];
    let mut edges = Vec::new();
    edges.extend(both(10, 20));
    edges.extend(both(10, 40));
    edges.extend(both(10, 30));
    let graph = validate_graph(&nodes, &edges).unwrap();
    assert_eq!(graph.neighbor_indices(1), &[0, 2, 3][..]);
    assert_eq!(graph.neighbor_indices(0), &[1][..]);
    assert_eq!(graph.degree(NodeHandle(10)), Some(3));
}

#[test]
fn rows_do_not_depend_on_edge_order() {
    let nodes = [node(5), node(1), node(9), node(3)];
    let mut forward = Vec::new();
    forward.extend(both(5, 1));
    forward.extend(both(5, 9));
    forward.extend(both(3, 5));
    forward.extend(both(1, 9));
    let mut backward = forward.clone();
    backward.reverse();
    let first = validate_graph(&nodes, &forward).unwrap();
    let second = validate_graph(&nodes, &backward).unwrap();
    for index in 0..nodes.len() {
        assert_eq!(first.neighbor_indices(index), second.neighbor_indices(index));
    }
    assert_eq!(first.neighbor_indices(0), &[1, 2, 3]);
    assert_eq!(first.neighbor_indices(3), &[0]);
}

#[test]
fn acceptance_does_not_depend_on_edge_order() {
    let nodes = [node(1), node(2), node(3)];
    let one_way = vec![edge(1, 2), edge(2, 1), edge(2, 3)];
    let mut reordered = one_way.clone();
    reordered.rotate_left(1);
    assert!(validate_graph(&nodes, &one_way).is_err());
    assert!(validate_graph(&nodes, &reordered).is_err());
    let mut full = one_way.clone();
    full.push(edge(3, 2));
    let mut shuffled = full.clone();
    shuffled.swap(0, 3);
    let first = validate_graph(&nodes, &full).unwrap();
    let second = validate_graph(&nodes, &shuffled).unwrap();
    assert_eq!(first.degree(NodeHandle(2)), Some(2));
    assert_eq!(second.degree(NodeHandle(2)), Some(2));
}

#[test]
fn graphs_clone_and_compare() {
    let nodes = [node(1), node(2)];
    let edges = both(1, 2);
    let graph = validate_graph(&nodes, &edges).unwrap();
    let copy = graph.clone();
    assert!(copy == graph);
    assert_eq!(copy.neighbor_indices(0), &[1]);
    let other = validate_graph(&nodes, &[]).unwrap();
    assert!(other != graph);
}
