use std::marker::PhantomData;

use safe_graph::edge::{CompactDirection, Direction};
use safe_graph::graph::{Directed, Undirected};
use safe_graph::traverse::{Neighbors, NeighborsDirected};

#[test]
fn neighbors_new() {
    let nodes: Vec<(u32, CompactDirection)> = vec![];

    // Test `Neighbors` struct creation.
    let _n: Neighbors<u32, Directed> = Neighbors::new(Some(&nodes), PhantomData);
}

#[test]
fn neighbors_next() {
    let nodes: Vec<(u32, CompactDirection)> = vec![
        (1, CompactDirection::Incoming),
        (2, CompactDirection::Outgoing),
        (3, CompactDirection::Outgoing),
    ];

    let mut neighbors_directed: Neighbors<u32, Directed> =
        Neighbors::new(Some(&nodes), PhantomData);

    assert_eq!(neighbors_directed.next(), Some(2));
    assert_eq!(neighbors_directed.next(), Some(3));
    assert_eq!(neighbors_directed.next(), None);

    let mut neighbors_undirected: Neighbors<u32, Undirected> =
        Neighbors::new(Some(&nodes), PhantomData);

    assert_eq!(neighbors_undirected.next(), Some(1));
    assert_eq!(neighbors_undirected.next(), Some(2));
    assert_eq!(neighbors_undirected.next(), Some(3));
    assert_eq!(neighbors_undirected.next(), None);
}

#[test]
fn neighbors_directed_new() {
    let nodes: Vec<(u32, CompactDirection)> = vec![];

    // Test `Neighbors` struct creation.
    let _n: NeighborsDirected<u32, Directed> =
        NeighborsDirected::new(Some(&nodes), Direction::Incoming, PhantomData);
}

#[test]
fn neighbors_directed_next() {
    let nodes: Vec<(u32, CompactDirection)> = vec![
        (1, CompactDirection::Incoming),
        (2, CompactDirection::Outgoing),
        (3, CompactDirection::Outgoing),
    ];

    let mut neighbors_incomming: NeighborsDirected<u32, Directed> =
        NeighborsDirected::new(Some(&nodes), Direction::Incoming, PhantomData);

    assert_eq!(neighbors_incomming.next(), Some(1));
    assert_eq!(neighbors_incomming.next(), None);

    let mut neighbors_outgoing: NeighborsDirected<u32, Directed> =
        NeighborsDirected::new(Some(&nodes), Direction::Outgoing, PhantomData);

    assert_eq!(neighbors_outgoing.next(), Some(2));
    assert_eq!(neighbors_outgoing.next(), Some(3));
    assert_eq!(neighbors_outgoing.next(), None);

    let mut neighbors_undirected: NeighborsDirected<u32, Undirected> =
        NeighborsDirected::new(Some(&nodes), Direction::Outgoing, PhantomData);

    assert_eq!(neighbors_undirected.next(), Some(1));
    assert_eq!(neighbors_undirected.next(), Some(2));
    assert_eq!(neighbors_undirected.next(), Some(3));
    assert_eq!(neighbors_undirected.next(), None);
}

#[test]
fn direction_opposite() {
    assert_eq!(Direction::Outgoing.opposite(), Direction::Incoming);
    assert_eq!(Direction::Incoming.opposite(), Direction::Outgoing);
}

#[test]
fn direction_index() {
    assert_eq!(Direction::Outgoing.index(), 0);
    assert_eq!(Direction::Incoming.index(), 1);
}
