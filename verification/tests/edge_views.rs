use std::marker::PhantomData;

use safe_graph::edge::{AllEdges, CompactDirection, EdgeType, Edges};
use safe_graph::graph::{Directed, Undirected};
use safe_graph::traverse::Neighbors;

#[test]
fn edge_type_is_directed() {
    assert_eq!(Directed::is_directed(), true);
    assert_eq!(Undirected::is_directed(), false);
}

#[test]
fn edges_new() {
    // Prepare arguments.
    let from: u32 = 1;
    let edge_store: Vec<((u32, u32), f32)> = Vec::new();
    let node_neighbors: Vec<(u32, CompactDirection)> = vec![];
    let neighbors: Neighbors<u32, Directed> = Neighbors::new(Some(&node_neighbors), PhantomData);

    // Test `Edges` struct creation.
    Edges::new(from, &edge_store, neighbors);
}

#[test]
fn edges_next() {
    // Prepare arguments.
    let from: u32 = 1;
    let mut edge_store: Vec<((u32, u32), f32)> = Vec::with_capacity(3);
    edge_store.push(((2, 1), 2.0));
    edge_store.push(((1, 3), 3.0));
    edge_store.push(((1, 4), 4.0));
    let node_neighbors: Vec<(u32, CompactDirection)> = vec![
        (2, CompactDirection::Incoming),
        (3, CompactDirection::Outgoing),
        (4, CompactDirection::Outgoing),
    ];
    let neighbors: Neighbors<u32, Directed> = Neighbors::new(Some(&node_neighbors), PhantomData);

    // Construct edges from `1`.
    // The edge (2, 1) is being filtered out as the edges are directed.
    let mut edges = Edges::new(from, &edge_store, neighbors);

    // Test all existing edges from `1`.
    assert_eq!(edges.next(), Some((1, 3, &3.0)));
    assert_eq!(edges.next(), Some((1, 4, &4.0)));

    // Test the end of iteration.
    assert_eq!(edges.next(), None);
}

#[test]
#[should_panic]
fn edges_next_unreachable() {
    // Prepare arguments.
    let from: u32 = 1;
    let edge_store: Vec<((u32, u32), f32)> = Vec::new();
    let node_neighbors: Vec<(u32, CompactDirection)> = vec![(2, CompactDirection::Incoming)];
    let neighbors: Neighbors<u32, Directed> = Neighbors::new(Some(&node_neighbors), PhantomData);

    // Construct edges.
    let mut edges = Edges::new(from, &edge_store, neighbors);

    assert_eq!(edges.next(), Some((1, 2, &0.0)));
}

#[test]
fn all_edges_new() {
    let edge_store: Vec<((u32, u32), f32)> = Vec::new();
    let _all_edges: AllEdges<u32, f32, Directed> = AllEdges::new(&edge_store, PhantomData);
}

#[test]
fn all_edges_next() {
    let mut edge_store: Vec<((u32, u32), f32)> = Vec::with_capacity(3);
    edge_store.push(((2, 1), 2.0));
    edge_store.push(((1, 3), 3.0));
    edge_store.push(((1, 4), 4.0));

    let mut all_edges: AllEdges<u32, f32, Directed> = AllEdges::new(&edge_store, PhantomData);

    assert_eq!(all_edges.next(), Some((2, 1, &2.0)));
    assert_eq!(all_edges.next(), Some((1, 3, &3.0)));
    assert_eq!(all_edges.next(), Some((1, 4, &4.0)));
    assert_eq!(all_edges.next(), None);
}

#[test]
fn all_edges_size_hint() {
    let mut edge_store: Vec<((u32, u32), f32)> = Vec::with_capacity(3);
    edge_store.push(((2, 1), 2.0));
    edge_store.push(((1, 3), 3.0));
    edge_store.push(((1, 4), 4.0));
    let mut all_edges: AllEdges<u32, f32, Directed> = AllEdges::new(&edge_store, PhantomData);

    assert_eq!(all_edges.size_hint(), (3, Some(3)));

    // Lower the length of the iterator.
    all_edges.next();

    assert_eq!(all_edges.size_hint(), (2, Some(2)));

    // Lower the length of the iterator.
    all_edges.next();

    assert_eq!(all_edges.size_hint(), (1, Some(1)));

    // Lower the length of the iterator.
    all_edges.next();

    assert_eq!(all_edges.size_hint(), (0, Some(0)));
}

#[test]
fn all_edges_count() {
    let mut edge_store: Vec<((u32, u32), f32)> = Vec::with_capacity(3);
    edge_store.push(((2, 1), 2.0));
    edge_store.push(((1, 3), 3.0));
    edge_store.push(((1, 4), 4.0));
    let all_edges: AllEdges<u32, f32, Directed> = AllEdges::new(&edge_store, PhantomData);

    assert_eq!(all_edges.count(), 3);
}

#[test]
fn all_edges_nth() {
    let mut edge_store: Vec<((u32, u32), f32)> = Vec::with_capacity(3);
    edge_store.push(((2, 1), 2.0));
    edge_store.push(((1, 3), 3.0));
    edge_store.push(((1, 4), 4.0));
    let mut all_edges: AllEdges<u32, f32, Directed> = AllEdges::new(&edge_store, PhantomData);

    assert_eq!(all_edges.nth(2), Some((1, 4, &4.0)));
    assert_eq!(all_edges.nth(0), None);
}

#[test]
fn all_edges_last() {
    let mut edge_store: Vec<((u32, u32), f32)> = Vec::with_capacity(3);
    edge_store.push(((2, 1), 2.0));
    edge_store.push(((1, 3), 3.0));
    edge_store.push(((1, 4), 4.0));
    let all_edges: AllEdges<u32, f32, Directed> = AllEdges::new(&edge_store, PhantomData);

    assert_eq!(all_edges.last(), Some((1, 4, &4.0)));
}

#[test]
fn all_edges_next_back() {
    let mut edge_store: Vec<((u32, u32), f32)> = Vec::with_capacity(3);
    edge_store.push(((2, 1), 2.0));
    edge_store.push(((1, 3), 3.0));
    edge_store.push(((1, 4), 4.0));
    let mut all_edges: AllEdges<u32, f32, Directed> = AllEdges::new(&edge_store, PhantomData);

    assert_eq!(all_edges.next_back(), Some((1, 4, &4.0)));
    assert_eq!(all_edges.next(), Some((2, 1, &2.0)));
    assert_eq!(all_edges.next_back(), Some((1, 3, &3.0)));
    assert_eq!(all_edges.next_back(), None);
}
