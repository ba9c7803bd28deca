use safe_graph::edge::Direction;
use safe_graph::graph::{Directed, Graph, Undirected, UndirectedGraph};

#[test]
fn new() {
    let graph: Graph<u32, f32> = Graph::new();

    // Test nodes and edges count immediately after graph creation.
    assert_eq!(graph.node_count(), 0);
    assert_eq!(graph.edge_count(), 0);
}

#[test]
fn new_with_tuple_as_node() {
    let graph: Graph<(u32, u32), f32> = Graph::new();

    // Test nodes and edges count immediately after graph creation.
    assert_eq!(graph.node_count(), 0);
    assert_eq!(graph.edge_count(), 0);
}

#[test]
fn with_capacity() {
    let graph: Graph<u32, f32> = Graph::with_capacity(4, 6);

    // Test nodes and edges count immediately after graph creation.
    assert_eq!(graph.node_count(), 0);
    assert_eq!(graph.edge_count(), 0);
}

#[test]
fn capacity() {
    let nodes_capacity = 4;
    let edges_capacity = 8;

    let graph: Graph<u32, f32> = Graph::with_capacity(nodes_capacity, edges_capacity);
    // Get the allocated capacities.
    let (n, e) = graph.capacity();
    // Test nodes allocated capacity.
    assert!(
        n >= nodes_capacity,
        "Allocated nodes capacity `{}` must be equal or bigger then requested capacity `{}`.",
        n,
        nodes_capacity
    );
    // Test edges allocated capacity.
    assert!(
        e >= edges_capacity,
        "Allocated edges capacity `{}` must be equal or bigger then requested capacity `{}`.",
        e,
        edges_capacity
    );
}

#[test]
fn edge_key() {
    // Test for Directed Graph.
    assert_eq!(Graph::<u32, f32, Directed>::edge_key(1, 2), (1, 2));
    assert_eq!(Graph::<u32, f32, Directed>::edge_key(2, 1), (2, 1));

    // Test for Undirected Graph.
    assert_eq!(Graph::<u32, f32, Undirected>::edge_key(1, 2), (1, 2));
    assert_eq!(Graph::<u32, f32, Undirected>::edge_key(2, 1), (1, 2));
}

#[test]
fn edge_key_self_loop() {
    // A self loop canonicalizes to the doubled endpoint under either edge
    // semantics.
    assert_eq!(Graph::<u32, f32, Directed>::edge_key(7, 7), (7, 7));
    assert_eq!(Graph::<u32, f32, Undirected>::edge_key(7, 7), (7, 7));
}

#[test]
fn edge_key_tuple_nodes() {
    // Tuples order lexicographically: by first component, then second.
    assert_eq!(
        Graph::<(u32, u32), f32, Undirected>::edge_key((2, 1), (1, 9)),
        ((1, 9), (2, 1))
    );
    assert_eq!(
        Graph::<(u32, u32), f32, Undirected>::edge_key((1, 9), (1, 2)),
        ((1, 2), (1, 9))
    );
}

#[test]
fn is_directed_true() {
    let graph: Graph<u32, f32, Directed> = Graph::new();

    assert_eq!(graph.is_directed(), true)
}

#[test]
fn is_directed_false() {
    let graph: Graph<u32, f32, Undirected> = Graph::new();

    assert_eq!(graph.is_directed(), false)
}

#[test]
fn from_edges() {
    // Create a new directed Graph.
    let graph = Graph::<_, _>::from_edges(vec![
        (0, 1, 0.12),
        (0, 2, 0.99),
        (0, 3, 0.1),
        (1, 2, 0.9),
        (1, 3, 0.44),
        (2, 3, 0.8),
    ]);

    // Test nodes and edges count.
    assert_eq!(graph.node_count(), 4);
    assert_eq!(graph.edge_count(), 6);

    // Test edges weights.
    assert_eq!(graph.edge_weight(0, 1), Some(&0.12));
    assert_eq!(graph.edge_weight(2, 3), Some(&0.8));
}

#[test]
fn from_edges_with_unit_weights() {
    // Use a type hint to have `()` be the edge weight type.
    let graph = Graph::<_, ()>::from_edges(vec![(0, 1), (0, 2), (0, 3), (1, 2), (1, 3), (2, 3)]);

    assert_eq!(graph.node_count(), 4);
    assert_eq!(graph.edge_count(), 6);
    assert_eq!(graph.edge_weight(0, 1), Some(&()));
}

#[test]
fn node_count() {
    let mut graph: Graph<u32, f32> = Graph::new();

    // Test nodes count immediately after graph creation.
    assert_eq!(graph.node_count(), 0);

    graph.add_node(1);
    graph.add_node(2);

    // Test nodes count.
    assert_eq!(graph.node_count(), 2);
}

#[test]
fn edge_count() {
    let mut graph: Graph<u32, f32> = Graph::new();

    // Test edges count immediately after graph creation.
    assert_eq!(graph.edge_count(), 0);

    graph.add_edge(1, 2, 2.3);
    graph.add_edge(2, 3, 4.1);

    // Test nodes count.
    assert_eq!(graph.edge_count(), 2);
}

#[test]
fn clear() {
    let mut graph: Graph<u32, f32> = Graph::new();

    // Add one edge.
    graph.add_edge(1, 2, 2.3);

    // Test nodes and edges count.
    assert_eq!(graph.node_count(), 2);
    assert_eq!(graph.edge_count(), 1);

    graph.clear();

    // Test nodes and edges count.
    assert_eq!(graph.node_count(), 0);
    assert_eq!(graph.edge_count(), 0);
}

#[test]
fn add_node() {
    let mut graph: Graph<u32, f32> = Graph::new();

    // Add one node.
    graph.add_node(1);

    // Test nodes count.
    assert_eq!(graph.node_count(), 1);
}

#[test]
fn add_node_as_tuple() {
    let mut graph: Graph<(u32, u32), f32> = Graph::new();

    // Add one node.
    graph.add_node((1, 2));

    // Test nodes count.
    assert_eq!(graph.node_count(), 1);
}

#[test]
fn add_node_as_tuple_twide() {
    let mut graph: Graph<(u32, u32), f32> = Graph::new();

    // Add one node twice.
    graph.add_node((1, 2));
    graph.add_node((1, 2));

    // Test nodes count, it should still be one.
    assert_eq!(graph.node_count(), 1);
}

#[test]
fn add_edge() {
    let mut graph: Graph<u32, f32> = Graph::new();

    // Add one edge.
    graph.add_edge(1, 2, 2.3);

    // Test nodes and edges count.
    assert_eq!(graph.node_count(), 2);
    assert_eq!(graph.edge_count(), 1);
}

#[test]
fn add_edge_with_nodes_as_tuples() {
    let mut graph: Graph<(u32, u32), f32> = Graph::new();

    // Add one edge.
    graph.add_edge((1, 1), (2, 2), 2.3);

    // Test nodes and edges count.
    assert_eq!(graph.node_count(), 2);
    assert_eq!(graph.edge_count(), 1);
}

#[test]
fn edge_weight() {
    let mut graph: Graph<u32, f32> = Graph::new();

    // Add one edge.
    let edge_weight = 2.4;
    graph.add_edge(1, 2, edge_weight);

    // Test edge weight.
    assert_eq!(graph.edge_weight(1, 2), Some(&edge_weight));
}

#[test]
fn edge_weight_with_nodes_as_tuples() {
    let mut graph: Graph<(u32, u32), f32> = Graph::new();

    // Add one edge twice.
    let edge_weight = 2.4;
    graph.add_edge((1, 1), (2, 1), 8.0);
    graph.add_edge((1, 1), (2, 1), edge_weight);

    // Test edge weight.
    assert_eq!(graph.edge_weight((1, 1), (2, 1)), Some(&edge_weight));
}

#[test]
fn edge_weight_mut() {
    let mut graph: Graph<u32, f32> = Graph::new();
    graph.add_edge(1, 2, 1.5);

    // Write through the mutable borrow and read the update back.
    if let Some(w) = graph.edge_weight_mut(1, 2) {
        *w = 9.5;
    } else {
        panic!("the edge weight must be there");
    }
    assert_eq!(graph.edge_weight(1, 2), Some(&9.5));

    // A missing edge yields no borrow: the graph is directed.
    assert!(graph.edge_weight_mut(2, 1).is_none());
}

#[test]
fn nodes() {
    let mut graph: Graph<u32, f32> = Graph::new();

    // Prepare a list of node indexes to test with.
    let list = [1, 2, 3, 4];

    // Add items from the list as nodes.
    for index in list.iter() {
        graph.add_node(*index);
    }

    // Test iteration over nodes.
    let mut nodes = graph.nodes();
    let mut i: usize = 0;
    while let Some(node) = nodes.next() {
        assert_eq!(list[i], node);
        i += 1;
    }
}

#[test]
fn check_nodes_and_edges() {
    let mut graph: Graph<u32, f32> = Graph::with_capacity(4, 6);
    graph.add_edge(1, 2, 2.0);

    assert_eq!(graph.node_count(), 2);
    assert_eq!(graph.edge_count(), 1);
    assert!(graph.contains_edge(1, 2));
    assert!(!graph.contains_edge(2, 1));

    graph.add_edge(1, 3, 1.2);
    graph.add_edge(1, 4, 4.2);
    graph.add_edge(2, 3, 0.2);
    graph.add_edge(2, 4, 3.3);
    graph.add_edge(3, 2, 12.2);

    // Check numbers of nodes and edges.
    assert_eq!(graph.node_count(), 4);
    assert_eq!(graph.edge_count(), 6);

    // Check edges weight.
    assert_eq!(graph.edge_weight(1, 2), Some(&2.0));
    assert_eq!(graph.edge_weight(1, 3), Some(&1.2));

    // Update and check edge weight.
    graph.add_edge(1, 2, 4.4);

    assert_eq!(graph.edge_weight(1, 2), Some(&4.4));

    // Try to get edge weight for non-existing edge.
    let weight = graph.edge_weight(3, 4);

    assert_eq!(weight, None);
}

#[test]
fn directed_bulk_scenario() {
    // A directed graph built in bulk: counts, weights, and the absence of
    // the reversed key.
    let graph = Graph::<i32, f64>::from_edges(vec![
        (0, 1, 0.12),
        (0, 2, 0.99),
        (0, 3, 0.1),
        (1, 2, 0.9),
        (1, 3, 0.44),
        (2, 3, 0.8),
    ]);

    assert_eq!(graph.node_count(), 4);
    assert_eq!(graph.edge_count(), 6);
    assert_eq!(graph.edge_weight(0, 1), Some(&0.12));
    assert_eq!(graph.edge_weight(2, 3), Some(&0.8));
    assert_eq!(graph.edge_weight(3, 0), None);
}

#[test]
fn undirected_contains_edge_swapped() {
    // Only (1, 2) is inserted, yet the swapped query finds the edge.
    let mut graph: UndirectedGraph<u32, f64> = UndirectedGraph::new();
    graph.add_edge(1, 2, 2.3);

    assert!(graph.contains_edge(2, 1));
    assert_eq!(graph.edge_weight(2, 1), Some(&2.3));
}

#[test]
fn neighbors_of_missing_node() {
    // A node that was never added yields an empty sequence, not an error.
    let mut graph: Graph<u32, f32> = Graph::new();
    graph.add_edge(1, 2, 1.0);

    let mut neighbors = graph.neighbors(99);
    assert_eq!(neighbors.next(), None);

    let mut incoming = graph.neighbors_directed(99, Direction::Incoming);
    assert_eq!(incoming.next(), None);

    let mut edges = graph.edges(99);
    assert_eq!(edges.next(), None);
}

#[test]
fn upsert_returns_prior_weight() {
    let mut graph: Graph<u32, f64> = Graph::new();

    // The first insert creates the edge.
    assert_eq!(graph.add_edge(1, 2, 2.5), None);
    assert_eq!(graph.node_count(), 2);
    assert_eq!(graph.edge_count(), 1);

    // The second insert only replaces the weight and hands the old one back.
    assert_eq!(graph.add_edge(1, 2, 7.5), Some(2.5));
    assert_eq!(graph.node_count(), 2);
    assert_eq!(graph.edge_count(), 1);
    assert_eq!(graph.edge_weight(1, 2), Some(&7.5));
}

#[test]
fn degree_conservation_undirected() {
    let mut graph: UndirectedGraph<u32, f64> = UndirectedGraph::new();
    graph.add_edge(1, 2, 1.0);

    let mut of_one = graph.neighbors(1);
    assert_eq!(of_one.next(), Some(2));
    assert_eq!(of_one.next(), None);

    let mut of_two = graph.neighbors(2);
    assert_eq!(of_two.next(), Some(1));
    assert_eq!(of_two.next(), None);
}

#[test]
fn degree_conservation_directed() {
    let mut graph: Graph<u32, f64> = Graph::new();
    graph.add_edge(1, 2, 1.0);

    let mut of_one = graph.neighbors(1);
    assert_eq!(of_one.next(), Some(2));
    assert_eq!(of_one.next(), None);

    // The target does not see the edge as outgoing ...
    let mut of_two = graph.neighbors(2);
    assert_eq!(of_two.next(), None);

    // ... but it does see it as incoming.
    let mut incoming = graph.neighbors_directed(2, Direction::Incoming);
    assert_eq!(incoming.next(), Some(1));
    assert_eq!(incoming.next(), None);
}

#[test]
fn self_loop_single_entry() {
    let mut graph: Graph<u32, f64> = Graph::new();
    assert_eq!(graph.add_edge(5, 5, 1.25), None);

    // Exactly one edge and exactly one adjacency entry.
    assert_eq!(graph.node_count(), 1);
    assert_eq!(graph.edge_count(), 1);
    let mut neighbors = graph.neighbors(5);
    assert_eq!(neighbors.next(), Some(5));
    assert_eq!(neighbors.next(), None);
}

#[test]
fn all_edges_round_trip() {
    let mut graph: UndirectedGraph<u32, f64> = UndirectedGraph::new();
    graph.add_edge(2, 1, 2.0);
    graph.add_edge(1, 3, 3.0);
    graph.add_edge(3, 3, 0.5);
    // A duplicate under the swapped key only replaces the weight.
    graph.add_edge(1, 2, 9.0);

    let mut all_edges = graph.all_edges();
    let mut seen: Vec<(u32, u32, f64)> = Vec::new();
    while let Some((a, b, w)) = all_edges.next() {
        seen.push((a, b, *w));
    }

    // Exactly `edge_count` triples come out.
    assert_eq!(seen.len(), graph.edge_count());

    // Each key is distinct and canonical.
    for i in 0..seen.len() {
        assert!(seen[i].0 <= seen[i].1);
        for j in 0..i {
            assert_ne!((seen[j].0, seen[j].1), (seen[i].0, seen[i].1));
        }
    }

    // Every surviving inserted edge is covered, with the latest weight.
    assert_eq!(seen, vec![(1, 2, 9.0), (1, 3, 3.0), (3, 3, 0.5)]);
}

#[test]
fn edges_join_neighbors_with_weights() {
    let mut graph: Graph<u32, f64> = Graph::new();
    graph.add_edge(1, 3, 3.0);
    graph.add_edge(1, 4, 4.0);
    graph.add_edge(2, 1, 2.0);

    // Directed: only the outgoing edges of `1`, with their weights.
    let mut edges = graph.edges(1);
    assert_eq!(edges.next(), Some((1, 3, &3.0)));
    assert_eq!(edges.next(), Some((1, 4, &4.0)));
    assert_eq!(edges.next(), None);
}

#[test]
fn extend_upserts_in_order() {
    let mut graph: Graph<u32, f64> = Graph::new();
    graph.add_edge(1, 2, 1.0);

    // A later duplicate overwrites the earlier weight.
    graph.extend(vec![(2, 3, 2.0), (1, 2, 5.0)]);

    assert_eq!(graph.edge_count(), 2);
    assert_eq!(graph.edge_weight(1, 2), Some(&5.0));
    assert_eq!(graph.edge_weight(2, 3), Some(&2.0));
}

#[test]
fn contains_node_after_edge_insert() {
    let mut graph: Graph<u32, f32> = Graph::new();
    assert!(!graph.contains_node(1));

    graph.add_edge(1, 2, 0.5);

    // Both endpoints were created by the edge insert.
    assert!(graph.contains_node(1));
    assert!(graph.contains_node(2));
    assert!(!graph.contains_node(3));
}
