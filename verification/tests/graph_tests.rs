use std::collections::HashSet;

use crossword::graph::Graph;

fn check_graph(graph: &Graph, expected_nodes: usize, expected_edges: usize) {
    assert_eq!(graph.count_nodes(), expected_nodes);
    assert_eq!(graph.count_edges(), expected_edges);
}

#[test]
fn build_graph_complex() {
    let graph = Graph::new_from_edges(vec![(0, 1), (1, 2), (2, 3), (2, 0)]);
    check_graph(&graph, 4, 4);

    let graph = Graph::new_from_edges(vec![(0, 1), (0, 1), (0, 1), (1, 0)]);
    check_graph(&graph, 2, 1);
}

#[test]
fn build_graph_basic() {
    let graph = Graph::new_from_edges(vec![(0, 1), (1, 2), (2, 3)]);
    check_graph(&graph, 4, 3);

    let graph = Graph::new_from_edges(vec![(10, 11), (11, 20), (20, 5)]);
    check_graph(&graph, 4, 3);
}

#[test]
fn traverse_graph() {
    let graph = Graph::new_from_edges(vec![(0, 1), (1, 2), (2, 3)]);
    assert_eq!(graph.count_cycles(), 0);
    assert!(graph.is_connected());

    let graph = Graph::new_from_edges(vec![(0, 1), (1, 2), (2, 3), (3, 0)]);
    assert_eq!(graph.count_cycles(), 1);
    assert!(graph.is_connected());

    let graph = Graph::new_from_edges(vec![(0, 1), (1, 2), (2, 0), (0, 3), (3, 4), (4, 0)]);
    assert_eq!(graph.count_cycles(), 2);
    assert!(graph.is_connected());

    let graph = Graph::new_from_edges(vec![(0, 1), (1, 2), (2, 0), (5, 3), (3, 4), (4, 5)]);
    assert!(!graph.is_connected());
}

#[test]
fn test_partition_nodes() {
    let graph = Graph::new_from_edges(vec![(0, 1), (1, 2), (2, 3)]);
    assert_eq!(graph.partition_nodes(0, 3).unwrap(), (vec![0, 1], vec![2, 3]));

    let graph = Graph::new_from_edges(vec![(0, 1), (1, 2), (2, 3)]);
    assert_eq!(graph.partition_nodes(3, 0).unwrap(), (vec![2, 3], vec![0, 1]));

    let graph = Graph::new_from_edges(vec![(0, 1), (1, 2), (2, 3)]);
    assert_eq!(graph.partition_nodes(0, 1).unwrap(), (vec![0], vec![1, 2, 3]));

    let graph = Graph::new_from_edges(vec![(0, 1), (1, 2), (2, 3)]);
    assert_eq!(graph.partition_nodes(1, 0).unwrap(), (vec![1, 2, 3], vec![0]));

    let graph = Graph::new_from_edges(vec![(0, 1), (1, 2), (2, 3), (3, 0)]);
    assert_eq!(graph.partition_nodes(0, 3).unwrap(), (vec![0, 1], vec![2, 3]));

    let graph = Graph::new_from_edges(vec![(0, 1), (1, 2), (2, 3), (3, 0)]);
    assert_eq!(graph.partition_nodes(0, 2).unwrap(), (vec![0, 1, 3], vec![2]));

    let graph = Graph::new_from_edges(vec![(0, 1), (1, 2), (2, 0), (5, 3), (3, 4), (4, 5)]);
    assert_eq!(graph.partition_nodes(0, 3).unwrap(), (vec![0, 1, 2], vec![3, 4, 5]));

    let graph = Graph::new_from_edges(vec![(0, 1), (1, 2), (2, 0), (5, 3), (3, 4), (4, 5)]);
    assert_eq!(graph.partition_nodes(3, 0).unwrap(), (vec![3, 4, 5], vec![0, 1, 2]));
}

#[test]
fn test_partition_nodes_robust() {
    let mut edges: Vec<(usize, usize)> = vec![];
    for i in 0..20 {
        edges.push((i, i + 1));
        edges.push((i, (3 * i + (i ^ 2) + 1).rem_euclid(21)));
    }
    edges.sort();
    let graph = Graph::new_from_edges(edges.clone());
    assert!(graph.is_connected());
    for i in 0..21 {
        for j in (i + 1)..21 {
            // For each pair of indices, split the graph
            let (first, second) = graph.partition_nodes(i, j).unwrap();

            // Create hashmap versions for convenience
            let first_hash: HashSet<usize> = first.iter().cloned().collect();
            let second_hash: HashSet<usize> = second.iter().cloned().collect();

            // Check that each hash contains its respective starting node
            assert!(first_hash.contains(&i));
            assert!(second_hash.contains(&j));

            // Check the intersection is empty
            let intersection: HashSet<usize> =
                first_hash.intersection(&second_hash).cloned().collect();
            assert!(
                intersection.is_empty(),
                "Expected empty intersection, found {:?}",
                intersection
            );

            // Check that every node is contained in one of the sets
            for k in 0..21 {
                assert!(first_hash.contains(&k) || second_hash.contains(&k));
            }

            // Check the graphs restricted to just one set are both connected
            let first_edges: Vec<(usize, usize)> = edges
                .iter()
                .filter(|e| first_hash.contains(&e.0) && first_hash.contains(&e.1))
                .cloned()
                .collect();
            let second_edges: Vec<(usize, usize)> = edges
                .iter()
                .filter(|e| second_hash.contains(&e.0) && second_hash.contains(&e.1))
                .cloned()
                .collect();

            let first_graph = Graph::new_from_edges(first_edges);
            assert!(first_graph.is_connected());
            let second_graph = Graph::new_from_edges(second_edges);
            assert!(second_graph.is_connected());
        }
    }
}

#[test]
fn test_components_after_node_removal() {
    let graph = Graph::new_from_edges(vec![(0, 1), (1, 2), (2, 0), (0, 3), (3, 4), (4, 0)]);
    assert_eq!(
        graph.clone().components_after_deleting_node(1).unwrap(),
        vec![vec![0, 2, 3, 4]]
    );
    assert_eq!(
        graph.clone().components_after_deleting_node(0).unwrap(),
        vec![vec![1, 2], vec![3, 4]]
    );

    let graph =
        Graph::new_from_edges(vec![(0, 1), (1, 2), (2, 0), (0, 3), (3, 4), (4, 0), (0, 5)]);
    assert_eq!(
        graph.clone().components_after_deleting_node(1).unwrap(),
        vec![vec![0, 2, 3, 4, 5]]
    );
    assert_eq!(
        graph.clone().components_after_deleting_node(0).unwrap(),
        vec![vec![1, 2], vec![3, 4], vec![5]]
    );

    let mut graph = Graph::new_from_edges(vec![(0, 1)]);
    assert_eq!(graph.components_after_deleting_node(0).unwrap(), vec![vec![1]]);
    check_graph(&graph, 1, 0);
    assert_eq!(
        graph.components_after_deleting_node(1).unwrap(),
        Vec::<Vec<usize>>::new()
    );
    check_graph(&graph, 0, 0);
}

#[test]
fn cycle_formula_examples() {
    // a 4-cycle has one independent cycle
    let graph = Graph::new_from_edges(vec![(0, 1), (1, 2), (2, 3), (3, 0)]);
    assert!(graph.is_connected());
    assert_eq!(graph.count_edges(), 4);
    assert_eq!(graph.count_nodes(), 4);
    assert_eq!(graph.count_cycles(), 1);

    // adding the chord 2-0 adds a second one
    let graph = Graph::new_from_edges(vec![(0, 1), (1, 2), (2, 3), (3, 0), (2, 0)]);
    assert_eq!(graph.count_cycles(), 2);
}

#[test]
fn add_node_and_connectivity() {
    let mut graph = Graph::new_from_edges(vec![(0, 1), (1, 2)]);
    assert!(graph.is_connected());
    assert!(graph.add_node(0));
    assert!(!graph.add_node(3));
    assert!(!graph.is_connected());
}

#[test]
fn find_leaves_examples() {
    let graph = Graph::new_from_edges(vec![(0, 1), (1, 2), (2, 0)]);
    assert_eq!(graph.find_leaves(), Vec::<usize>::new());

    let graph = Graph::new_from_edges(vec![(0, 1), (1, 2), (2, 3), (3, 4), (2, 5), (3, 6)]);
    assert_eq!(graph.find_leaves(), vec![0, 4, 5, 6]);
}
