//! The laws the graph obeys, each stated over the mathematical model and
//! proved from the transitions the executable operations are specified
//! against.

use vstd::prelude::*;

use crate::edge::{CompactDirection, Direction};
use crate::model::{
    assoc_has, assoc_index, lemma_add_edge, lemma_edge_key, lemma_yields_push, spec_edge_key,
    GraphModel,
};
use crate::node::NodeTrait;

verus! {

/// Canonicalization: in an undirected graph the edge key of `(a, b)` equals
/// the edge key of `(b, a)`; in a directed graph the two keys are equal
/// exactly when `a == b`.
pub proof fn lemma_edge_key_symmetry<N: NodeTrait>(directed: bool, a: N, b: N)
    ensures
        !directed ==> spec_edge_key(directed, a, b) == spec_edge_key(directed, b, a),
        directed ==> (spec_edge_key(directed, a, b) == spec_edge_key(directed, b, a) <==> a == b),
{
    lemma_edge_key(directed, a, b);
}

/// Upsert idempotence: inserting the same edge twice with different weights
/// leaves the node and edge counts unchanged after the first insert, the
/// weight read afterwards is the latest write, and the second insert finds
/// the first weight as the prior one.
pub proof fn lemma_upsert_idempotent<N: NodeTrait, E>(
    m: GraphModel<N, E>,
    a: N,
    b: N,
    w1: E,
    w2: E,
)
    requires
        m.wf(),
    ensures
        ({
            let m1 = m.add_edge(a, b, w1);
            let m2 = m1.add_edge(a, b, w2);
            &&& m2.node_count() == m1.node_count()
            &&& m2.edge_count() == m1.edge_count()
            &&& m1.edge_weight(a, b) == Some(w1)
            &&& m2.edge_weight(a, b) == Some(w2)
        }),
{
    lemma_add_edge(m, a, b, w1);
    lemma_add_edge(m.add_edge(a, b, w1), a, b, w2);
}

/// Degree conservation: after inserting an edge between two distinct nodes
/// `a` and `b`, an undirected graph shows `b` among the neighbors of `a`
/// and `a` among the neighbors of `b`; a directed graph shows `b` among the
/// neighbors of `a` and `a` among the incoming neighbors of `b`.
pub proof fn lemma_degree_conservation<N: NodeTrait, E>(m: GraphModel<N, E>, a: N, b: N, w: E)
    requires
        m.wf(),
        a != b,
    ensures
        ({
            let m1 = m.add_edge(a, b, w);
            &&& !m.directed ==> m1.neighbors(a).contains(b) && m1.neighbors(b).contains(a)
            &&& m.directed ==> m1.neighbors(a).contains(b) && m1.neighbors_directed(
                b,
                Direction::Incoming,
            ).contains(a)
        }),
{
    lemma_add_edge(m, a, b, w);
    lemma_edge_key(m.directed, a, b);
    let m1 = m.add_edge(a, b, w);
    let key = m.edge_key(a, b);
    if m.contains_edge(a, b) {
        // The adjacency store is untouched; the entries placed by the first
        // insertion of this key are still there.
        assert(m1.nodes == m.nodes);
        assert forall|x: N| #[trigger] m1.adj(x) == m.adj(x) by {}
        let i = assoc_index(m.edges, key);
        assert(0 <= i < m.edges.len() && m.edges[i].0 == key);
        assert(m.edge_wf(i));
        if m.oriented(key.0, key.1) {
            lemma_entry_yields(m1, a, b, key.0, key.1);
        } else {
            lemma_entry_yields(m1, a, b, key.1, key.0);
        }
    } else {
        assert(m1.adj(a) == m.adj(a).push((b, CompactDirection::Outgoing)));
        assert(m1.adj(b) == m.adj(b).push((a, CompactDirection::Incoming)));
        lemma_yields_push(m.adj(a), m.directed, CompactDirection::Outgoing, (
            b,
            CompactDirection::Outgoing,
        ));
        assert(m1.neighbors(a).last() == b);
        assert(m1.neighbors(a).contains(b));
        if m.directed {
            lemma_yields_push(m.adj(b), m.directed, CompactDirection::Incoming, (
                a,
                CompactDirection::Incoming,
            ));
            assert(m1.neighbors_directed(b, Direction::Incoming).last() == a);
            assert(m1.neighbors_directed(b, Direction::Incoming).contains(a));
        } else {
            lemma_yields_push(m.adj(b), m.directed, CompactDirection::Outgoing, (
                a,
                CompactDirection::Incoming,
            ));
            assert(m1.neighbors(b).last() == a);
            assert(m1.neighbors(b).contains(a));
        }
    }
}

/// The adjacency entries of an already-present edge between distinct nodes
/// `a` and `b`, oriented as `(src, tgt)` with `{src, tgt} == {a, b}`, put
/// each endpoint among the other's neighbors.
proof fn lemma_entry_yields<N: NodeTrait, E>(m1: GraphModel<N, E>, a: N, b: N, src: N, tgt: N)
    requires
        a != b,
        src == a && tgt == b || src == b && tgt == a,
        m1.oriented(src, tgt),
    ensures
        !m1.directed ==> m1.neighbors(a).contains(b) && m1.neighbors(b).contains(a),
        m1.directed && src == a ==> m1.neighbors(a).contains(b) && m1.neighbors_directed(
            b,
            Direction::Incoming,
        ).contains(a),
{
    let out_entry = (tgt, CompactDirection::Outgoing);
    let in_entry = (src, CompactDirection::Incoming);
    let i = choose|i: int| 0 <= i < m1.adj(src).len() && m1.adj(src)[i] == out_entry;
    crate::model::lemma_yields_contains(
        m1.adj(src),
        m1.directed,
        CompactDirection::Outgoing,
        i,
    );
    let j = choose|j: int| 0 <= j < m1.adj(tgt).len() && m1.adj(tgt)[j] == in_entry;
    if !m1.directed {
        crate::model::lemma_yields_contains(
            m1.adj(tgt),
            m1.directed,
            CompactDirection::Outgoing,
            j,
        );
    } else if src == a {
        crate::model::lemma_yields_contains(
            m1.adj(tgt),
            m1.directed,
            CompactDirection::Incoming,
            j,
        );
    }
}

/// Self-loop handling: inserting a self loop that is not yet in the graph
/// raises the edge count by exactly one and appends exactly one adjacency
/// entry, on the looping node itself.
pub proof fn lemma_self_loop<N: NodeTrait, E>(m: GraphModel<N, E>, a: N, w: E)
    requires
        m.wf(),
        !m.contains_edge(a, a),
    ensures
        ({
            let m1 = m.add_edge(a, a, w);
            &&& m1.edge_count() == m.edge_count() + 1
            &&& m1.adj(a) == m.adj(a).push((a, CompactDirection::Outgoing))
            &&& forall|x: N| x != a ==> #[trigger] m1.adj(x) == m.adj(x)
        }),
{
    lemma_add_edge(m, a, a, w);
}

/// Round trip: the all-edges view yields exactly `edge_count` triples,
/// their keys are pairwise distinct and canonical, and an edge connecting
/// `a` and `b` is in the graph exactly when its canonical key is among the
/// yielded triples.
pub proof fn lemma_all_edges_round_trip<N: NodeTrait, E>(m: GraphModel<N, E>)
    requires
        m.wf(),
    ensures
        m.all_edges().len() == m.edge_count(),
        forall|i: int, j: int|
            0 <= i < j < m.all_edges().len() ==> ((#[trigger] m.all_edges()[i]).0,
            m.all_edges()[i].1) != ((#[trigger] m.all_edges()[j]).0, m.all_edges()[j].1),
        forall|i: int|
            0 <= i < m.all_edges().len() && !m.directed ==> (#[trigger] m.all_edges()[i]).0.le_spec(
                m.all_edges()[i].1,
            ),
        forall|a: N, b: N|
            #[trigger] m.contains_edge(a, b) <==> exists|i: int|
                0 <= i < m.all_edges().len() && ((#[trigger] m.all_edges()[i]).0,
                m.all_edges()[i].1) == m.edge_key(a, b),
{
    assert forall|i: int, j: int| 0 <= i < j < m.all_edges().len() implies ((
    #[trigger] m.all_edges()[i]).0, m.all_edges()[i].1) != ((#[trigger] m.all_edges()[j]).0,
    m.all_edges()[j].1) by {
        assert(m.edges[i].0 != m.edges[j].0);
        assert(m.all_edges()[i] == (m.edges[i].0.0, m.edges[i].0.1, m.edges[i].1));
        assert(m.all_edges()[j] == (m.edges[j].0.0, m.edges[j].0.1, m.edges[j].1));
    }
    assert forall|i: int| 0 <= i < m.all_edges().len() && !m.directed implies (
    #[trigger] m.all_edges()[i]).0.le_spec(m.all_edges()[i].1) by {
        assert(m.edge_wf(i));
        assert(m.all_edges()[i] == (m.edges[i].0.0, m.edges[i].0.1, m.edges[i].1));
    }
    assert forall|a: N, b: N| #[trigger] m.contains_edge(a, b) <==> exists|i: int|
        0 <= i < m.all_edges().len() && ((#[trigger] m.all_edges()[i]).0, m.all_edges()[i].1)
            == m.edge_key(a, b) by {
        let key = m.edge_key(a, b);
        if m.contains_edge(a, b) {
            let i = assoc_index(m.edges, key);
            assert(0 <= i < m.edges.len() && m.edges[i].0 == key);
            assert(((#[trigger] m.all_edges()[i]).0, m.all_edges()[i].1) == key);
        }
        if exists|i: int|
            0 <= i < m.all_edges().len() && ((#[trigger] m.all_edges()[i]).0, m.all_edges()[i].1)
                == key {
            let i = choose|i: int|
                0 <= i < m.all_edges().len() && ((#[trigger] m.all_edges()[i]).0,
                m.all_edges()[i].1) == key;
            assert(m.edges[i].0 == key);
            assert(assoc_has(m.edges, key));
        }
    }
}

/// In an undirected graph, whether an edge is contained does not depend on
/// the order in which its endpoints are given.
pub proof fn lemma_contains_edge_symmetric<N: NodeTrait, E>(m: GraphModel<N, E>, a: N, b: N)
    requires
        !m.directed,
    ensures
        m.contains_edge(a, b) == m.contains_edge(b, a),
{
    lemma_edge_key(m.directed, a, b);
}

/// A node that was never added has no neighbors: the views over it are
/// empty rather than an error.
pub proof fn lemma_neighbors_absent<N: NodeTrait, E>(m: GraphModel<N, E>, a: N, dir: Direction)
    requires
        !m.contains_node(a),
    ensures
        m.neighbors(a).len() == 0,
        m.neighbors_directed(a, dir).len() == 0,
        m.edges_from(a).len() == 0,
{
    assert(m.adj(a) == Seq::<(N, CompactDirection)>::empty());
}

} // verus!
