//! The graph aggregate: marker types for the two edge semantics and the
//! graph container itself.

use vstd::prelude::*;
use core::marker::PhantomData;

use crate::edge::{CompactDirection, EdgeType, IntoWeightedEdge};
use crate::model::{
    extended,
    assoc_has, lemma_add_node, lemma_assoc_index_unique, lemma_empty_wf, spec_edge_key, GraphModel,
};
use crate::node::NodeTrait;

verus! {

/// Marker type for a directed graph.
#[derive(Clone, Copy, Debug)]
pub struct Directed;

/// Marker type for an undirected graph.
///
/// An edge between *1* and *2* is equivalent to an edge between *2* and *1*.
#[derive(Clone, Copy, Debug)]
pub struct Undirected;

impl EdgeType for Directed {
    open spec fn is_directed_spec() -> bool {
        true
    }

    fn is_directed() -> (r: bool) {
        true
    }
}

impl EdgeType for Undirected {
    open spec fn is_directed_spec() -> bool {
        false
    }

    fn is_directed() -> (r: bool) {
        false
    }
}

/// A `Graph` with undirected edges.
pub type UndirectedGraph<N, E> = Graph<N, E, Undirected>;

/// A graph whose nodes are identifier values of type `N` and whose edges
/// carry a weight of type `E`; the marker `Ty` chooses directed or
/// undirected edge semantics.
///
/// The graph keeps two stores side by side, both in insertion order:
/// a per-node adjacency list of `(neighbor, direction-tag)` entries, and a
/// map from the canonical endpoint pair of each edge to its weight.
/// Parallel edges are not allowed; self loops are.
#[derive(Debug)]
pub struct Graph<N, E, Ty = Directed> {
    nodes: Vec<(N, Vec<(N, CompactDirection)>)>,
    edges: Vec<((N, N), E)>,
    ty: PhantomData<Ty>,
}

impl<N: NodeTrait, E, Ty: EdgeType> View for Graph<N, E, Ty> {
    type V = GraphModel<N, E>;

    closed spec fn view(&self) -> GraphModel<N, E> {
        GraphModel {
            nodes: self.nodes@.map_values(|p: (N, Vec<(N, CompactDirection)>)| (p.0, p.1@)),
            edges: self.edges@,
            directed: Ty::is_directed_spec(),
        }
    }
}

/// The position of a canonical key in an edge store.
pub(crate) fn find_key_position<N: NodeTrait + Copy, E>(edges: &Vec<((N, N), E)>, k: &(N, N)) -> (r:
    Option<usize>)
    ensures
        match r {
            Some(i) => i < edges@.len() && edges@[i as int].0 == *k,
            None => !assoc_has(edges@, *k),
        },
{
    let mut i: usize = 0;
    while i < edges.len()
        invariant
            i <= edges@.len(),
            forall|j: int| 0 <= j < i ==> (#[trigger] edges@[j]).0 != *k,
        decreases edges@.len() - i,
    {
        let key = &edges[i].0;
        if key.0.eq_node(&k.0) && key.1.eq_node(&k.1) {
            return Some(i);
        }
        i = i + 1;
    }
    None
}

/// Relies on `Vec::capacity`: a vector's capacity is at least its length.
#[verifier::external_body]
fn vec_capacity<T>(v: &Vec<T>) -> (r: usize)
    ensures
        r >= v@.len(),
{
    v.capacity()
}

impl<N, E, Ty> Graph<N, E, Ty> where N: NodeTrait + Copy, Ty: EdgeType {
    /// The graph is well-formed: its model is.
    ///
    /// Every constructor establishes this and every operation preserves it.
    pub open spec fn wf(&self) -> bool {
        self@.wf()
    }

    /// Create a new `Graph` instance.
    pub fn new() -> (g: Self)
        ensures
            g@ == GraphModel::<N, E>::empty(Ty::is_directed_spec()),
            g.wf(),
    {
        Self::default()
    }

    /// Create a new `Graph` with estimated capacity.
    ///
    /// The capacity is advisory: it is neither validated nor an error.
    pub fn with_capacity(nodes: usize, edges: usize) -> (g: Self)
        ensures
            g@ == GraphModel::<N, E>::empty(Ty::is_directed_spec()),
            g.wf(),
    {
        let g = Self { nodes: Vec::with_capacity(nodes), edges: Vec::with_capacity(edges), ty: PhantomData };
        proof {
            assert(g@ =~= GraphModel::<N, E>::empty(Ty::is_directed_spec()));
            lemma_empty_wf::<N, E>(Ty::is_directed_spec());
        }
        g
    }

    /// Return the current node and edge capacity of the graph.
    pub fn capacity(&self) -> (r: (usize, usize))
        ensures
            r.0 >= self@.node_count(),
            r.1 >= self@.edge_count(),
    {
        (vec_capacity(&self.nodes), vec_capacity(&self.edges))
    }

    /// Use their natural order to map the node pair (a, b) to a canonical
    /// edge id: the pair itself when the graph is directed or `a` comes
    /// first, the swapped pair otherwise.
    #[inline]
    pub fn edge_key(a: N, b: N) -> (r: (N, N))
        ensures
            r == spec_edge_key(Ty::is_directed_spec(), a, b),
    {
        if Ty::is_directed() || a.le(&b) {
            (a, b)
        } else {
            (b, a)
        }
    }

    /// Whether the graph has directed edges.
    pub fn is_directed(&self) -> (r: bool)
        ensures
            r == Ty::is_directed_spec(),
            r == self@.directed,
    {
        Ty::is_directed()
    }

    /// Return the number of nodes in the graph.
    pub fn node_count(&self) -> (r: usize)
        ensures
            r == self@.node_count(),
    {
        self.nodes.len()
    }

    /// Return the number of edges in the graph.
    pub fn edge_count(&self) -> (r: usize)
        ensures
            r == self@.edge_count(),
    {
        self.edges.len()
    }

    /// Remove all nodes and edges.
    pub fn clear(&mut self)
        ensures
            final(self)@ == old(self)@.cleared(),
            final(self).wf(),
    {
        self.nodes.clear();
        self.edges.clear();
        proof {
            assert(self@ =~= old(self)@.cleared());
            lemma_empty_wf::<N, E>(Ty::is_directed_spec());
        }
    }

    /// The position of node `n` in the node store.
    fn find_node(&self, n: &N) -> (r: Option<usize>)
        ensures
            match r {
                Some(i) => i < self@.nodes.len() && self@.nodes[i as int].0 == *n,
                None => !self@.contains_node(*n),
            },
    {
        let mut i: usize = 0;
        while i < self.nodes.len()
            invariant
                i <= self.nodes@.len(),
                forall|j: int| 0 <= j < i ==> (#[trigger] self.nodes@[j]).0 != *n,
            decreases self.nodes@.len() - i,
        {
            if self.nodes[i].0.eq_node(n) {
                return Some(i);
            }
            i = i + 1;
        }
        proof {
            assert forall|j: int| 0 <= j < self@.nodes.len() implies (#[trigger] self@.nodes[j]).0
                != *n by {
                assert(self@.nodes[j].0 == self.nodes@[j].0);
            }
        }
        None
    }

    /// The position of a canonical key in the edge store.
    fn find_edge(&self, k: &(N, N)) -> (r: Option<usize>)
        ensures
            match r {
                Some(i) => i < self@.edges.len() && self@.edges[i as int].0 == *k,
                None => !assoc_has(self@.edges, *k),
            },
    {
        find_key_position(&self.edges, k)
    }

    /// Add node `n` to the graph: an idempotent insert with an empty
    /// adjacency list when absent and no mutation at all when present.
    pub fn add_node(&mut self, n: N) -> (r: N)
        requires
            old(self).wf(),
        ensures
            final(self)@ == old(self)@.add_node(n),
            final(self).wf(),
            r == n,
    {
        proof {
            lemma_add_node(self@, n);
        }
        if self.find_node(&n).is_none() {
            self.nodes.push((n, Vec::new()));
            proof {
                assert(self@.nodes =~= old(self)@.nodes.push((n, Seq::empty())));
                assert(self@ =~= old(self)@.add_node(n));
            }
        }
        n
    }

    /// Return `true` if the node is contained in the graph.
    pub fn contains_node(&self, n: N) -> (r: bool)
        ensures
            r == self@.contains_node(n),
    {
        match self.find_node(&n) {
            Some(i) => {
                proof {
                    assert(assoc_has(self@.nodes, n));
                }
                true
            },
            None => false,
        }
    }

    /// Add an edge connecting `a` and `b` to the graph, with associated
    /// data `weight`. For a directed graph, the edge is directed from `a`
    /// to `b`.
    ///
    /// Inserts nodes `a` and/or `b` if they aren't already part of the
    /// graph.
    ///
    /// Return `None` if the edge did not previously exist; otherwise the
    /// associated data is updated, the old value is returned as
    /// `Some(old_weight)`, and the adjacency lists are left untouched.
    pub fn add_edge(&mut self, a: N, b: N, weight: E) -> (r: Option<E>)
        requires
            old(self).wf(),
        ensures
            final(self)@ == old(self)@.add_edge(a, b, weight),
            final(self).wf(),
            r == old(self)@.edge_weight(a, b),
    {
        proof {
            crate::model::lemma_add_edge(self@, a, b, weight);
        }
        let ghost m0 = self@;
        let key = Self::edge_key(a, b);
        match self.find_edge(&key) {
            Some(i) => {
                proof {
                    lemma_assoc_index_unique(m0.edges, key, i as int);
                }
                let mut pair = (key, weight);
                core::mem::swap(&mut self.edges[i], &mut pair);
                proof {
                    assert(self@.edges =~= m0.edges.update(i as int, (key, weight)));
                    assert(self@ =~= m0.add_edge(a, b, weight));
                }
                Some(pair.1)
            },
            None => {
                self.edges.push((key, weight));
                let ghost entry_a = (b, CompactDirection::Outgoing);
                let ghost m_out = m0.push_adjacency(a, entry_a);
                proof {
                    crate::model::lemma_push_adjacency(m0, a, entry_a);
                }
                match self.find_node(&a) {
                    Some(ia) => {
                        proof {
                            assert(self@.nodes == m0.nodes);
                            lemma_assoc_index_unique(m0.nodes, a, ia as int);
                        }
                        let slot = &mut self.nodes[ia];
                        slot.1.push((b, CompactDirection::Outgoing));
                    },
                    None => {
                        proof {
                            assert(self@.nodes == m0.nodes);
                        }
                        let mut adj_list: Vec<(N, CompactDirection)> = Vec::with_capacity(1);
                        adj_list.push((b, CompactDirection::Outgoing));
                        self.nodes.push((a, adj_list));
                    },
                }
                proof {
                    assert(self@.nodes =~= m_out.nodes);
                    assert(self@.edges == m0.edges.push((key, weight)));
                }
                if !a.eq_node(&b) {
                    let ghost entry_b = (a, CompactDirection::Incoming);
                    let ghost m_in = m_out.push_adjacency(b, entry_b);
                    proof {
                        crate::model::lemma_push_adjacency(m_out, b, entry_b);
                    }
                    match self.find_node(&b) {
                        Some(ib) => {
                            proof {
                                assert(self@.nodes == m_out.nodes);
                                lemma_assoc_index_unique(m_out.nodes, b, ib as int);
                            }
                            let slot = &mut self.nodes[ib];
                            slot.1.push((a, CompactDirection::Incoming));
                        },
                        None => {
                            let mut adj_list: Vec<(N, CompactDirection)> = Vec::with_capacity(1);
                            adj_list.push((a, CompactDirection::Incoming));
                            self.nodes.push((b, adj_list));
                        },
                    }
                    proof {
                        assert(self@.nodes =~= m_in.nodes);
                        assert(self@ =~= m0.add_edge(a, b, weight));
                    }
                } else {
                    proof {
                        assert(self@ =~= m0.add_edge(a, b, weight));
                    }
                }
                None
            },
        }
    }

    /// Return `true` if the edge connecting `a` with `b` is contained in
    /// the graph; the check routes through canonicalization.
    pub fn contains_edge(&self, a: N, b: N) -> (r: bool)
        ensures
            r == self@.contains_edge(a, b),
    {
        let key = Self::edge_key(a, b);
        match self.find_edge(&key) {
            Some(i) => {
                proof {
                    assert(assoc_has(self@.edges, key));
                }
                true
            },
            None => false,
        }
    }
}

impl<N, E, Ty> Graph<N, E, Ty> where N: NodeTrait + Copy, Ty: EdgeType {
    /// Return an iterator over the nodes of the graph, in insertion order.
    pub fn nodes(&self) -> (it: crate::node::Nodes<'_, N>)
        ensures
            it.inv(),
            it.remaining() == self@.node_keys(),
    {
        let it = crate::node::Nodes::new(&self.nodes);
        proof {
            assert(it.remaining() =~= self@.node_keys());
        }
        it
    }

    /// Return an iterator of all nodes with an edge starting from `a`.
    ///
    /// - `Directed`: Outgoing edges from `a`.
    /// - `Undirected`: All edges from or to `a`.
    ///
    /// Produces an empty iterator if the node doesn't exist.
    pub fn neighbors(&self, a: N) -> (it: crate::traverse::Neighbors<'_, N, Ty>)
        requires
            self.wf(),
        ensures
            it.inv(),
            it.remaining() == self@.neighbors(a),
    {
        let entries = match self.find_node(&a) {
            Some(i) => {
                proof {
                    lemma_assoc_index_unique(self@.nodes, a, i as int);
                }
                Some(&self.nodes[i].1)
            },
            None => None,
        };
        let it = crate::traverse::Neighbors::new(entries, PhantomData);
        proof {
            assert(crate::traverse::opt_entries(entries) == self@.adj(a));
        }
        it
    }

    /// Return an iterator of all neighbors that have an edge between them
    /// and `a`, in the specified direction.
    ///
    /// - `Directed`, `Outgoing`: All edges from `a`.
    /// - `Directed`, `Incoming`: All edges to `a`.
    /// - `Undirected`: All edges from or to `a`, whatever direction is
    ///   asked for.
    ///
    /// Produces an empty iterator if the node doesn't exist.
    pub fn neighbors_directed(&self, a: N, dir: crate::edge::Direction) -> (it:
        crate::traverse::NeighborsDirected<'_, N, Ty>)
        requires
            self.wf(),
        ensures
            it.inv(),
            it.remaining() == self@.neighbors_directed(a, dir),
    {
        let entries = match self.find_node(&a) {
            Some(i) => {
                proof {
                    lemma_assoc_index_unique(self@.nodes, a, i as int);
                }
                Some(&self.nodes[i].1)
            },
            None => None,
        };
        let it = crate::traverse::NeighborsDirected::new(entries, dir, PhantomData);
        proof {
            assert(crate::traverse::opt_entries(entries) == self@.adj(a));
        }
        it
    }

    /// Return an iterator of target nodes with an edge starting from `a`,
    /// each paired with the weight of the connecting edge.
    ///
    /// Produces an empty iterator if the node doesn't exist.
    pub fn edges(&self, from: N) -> (it: crate::edge::Edges<'_, N, E, Ty>)
        requires
            self.wf(),
        ensures
            it.inv(),
            it.remaining() == self@.edges_from(from),
    {
        proof {
            crate::model::lemma_neighbors_edges(self@, from);
        }
        crate::edge::Edges::new(from, &self.edges, self.neighbors(from))
    }

    /// Return an iterator over all edges of the graph with their weight, in
    /// insertion order.
    pub fn all_edges(&self) -> (it: crate::edge::AllEdges<'_, N, E, Ty>)
        ensures
            it.inv(),
            it.remaining() == self@.all_edges(),
    {
        crate::edge::AllEdges::new(&self.edges, PhantomData)
    }

    /// Extend the graph from a list of edge descriptors, upserting first to
    /// last; nodes are inserted automatically to match the edges.
    #[verifier::loop_isolation(false)]
    pub fn extend<Item>(&mut self, items: Vec<Item>) where Item: IntoWeightedEdge<E, NodeId = N>
        requires
            old(self).wf(),
        ensures
            final(self)@ == extended(
                old(self)@,
                items@.map_values(|it: Item| it.weighted_edge_spec()),
            ),
            final(self).wf(),
    {
        let ghost all = items@.map_values(|it: Item| it.weighted_edge_spec());
        let ghost m0 = self@;
        self.edges.reserve(items.len());
        proof {
            assert(self@ =~= m0);
        }
        let mut items = items;
        while items.len() > 0
            invariant
                self.wf(),
                extended(self@, items@.map_values(|it: Item| it.weighted_edge_spec())) == extended(
                    m0,
                    all,
                ),
            decreases items@.len(),
        {
            let ghost items_pre = items@;
            let it = items.remove(0);
            let (source, target, weight) = it.into_weighted_edge();
            proof {
                assert(items@ =~= items_pre.drop_first());
                assert(items@.map_values(|it: Item| it.weighted_edge_spec())
                    =~= items_pre.map_values(|it: Item| it.weighted_edge_spec()).drop_first());
                assert(items_pre.map_values(|it: Item| it.weighted_edge_spec())[0] == (
                    source,
                    target,
                    weight,
                ));
            }
            self.add_edge(source, target, weight);
        }
        proof {
            assert(items@.map_values(|it: Item| it.weighted_edge_spec()) =~= Seq::<(
                N,
                N,
                E,
            )>::empty());
        }
    }

    /// Create a new `Graph` from a list of edge descriptors.
    ///
    /// Node values are taken directly from the list; nodes are inserted
    /// automatically to match the edges.  Storage is pre-sized from the
    /// length of the list.
    pub fn from_edges<Item>(items: Vec<Item>) -> (g: Self) where
        Item: IntoWeightedEdge<E, NodeId = N>,

        ensures
            g@ == extended(
                GraphModel::<N, E>::empty(Ty::is_directed_spec()),
                items@.map_values(|it: Item| it.weighted_edge_spec()),
            ),
            g.wf(),
    {
        let mut g = Self::with_capacity(0, items.len());
        g.extend(items);
        g
    }

    /// Return a reference to the edge weight connecting `a` with `b`, or
    /// `None` if the edge does not exist in the graph.
    pub fn edge_weight(&self, a: N, b: N) -> (r: Option<&E>)
        requires
            self.wf(),
        ensures
            match r {
                Some(w) => self@.edge_weight(a, b) == Some(*w),
                None => self@.edge_weight(a, b) is None,
            },
    {
        let key = Self::edge_key(a, b);
        match self.find_edge(&key) {
            Some(i) => {
                proof {
                    lemma_assoc_index_unique(self@.edges, key, i as int);
                }
                Some(&self.edges[i].1)
            },
            None => None,
        }
    }

    /// Return a mutable reference to the edge weight connecting `a` with
    /// `b`, or `None` if the edge does not exist in the graph.
    pub fn edge_weight_mut(&mut self, a: N, b: N) -> (r: Option<&mut E>)
        requires
            old(self).wf(),
        ensures
            old(self)@.edge_weight(a, b) is None ==> r is None && final(self)@ == old(self)@,
            old(self)@.edge_weight(a, b) is Some ==> r is Some && *r.unwrap() == old(
                self,
            )@.edge_weight(a, b).unwrap() && final(self)@ == old(self)@.add_edge(
                a,
                b,
                *final(r.unwrap()),
            ),
            final(self).wf(),
    {
        let ghost m0 = self@;
        let key = Self::edge_key(a, b);
        match self.find_edge(&key) {
            Some(i) => {
                proof {
                    lemma_assoc_index_unique(m0.edges, key, i as int);
                }
                let slot = &mut self.edges[i];
                let w = &mut slot.1;
                proof {
                    crate::model::lemma_add_edge(m0, a, b, *final(w));
                }
                Some(w)
            },
            None => None,
        }
    }
}

/// Create a new empty `Graph`.
impl<N, E, Ty> Default for Graph<N, E, Ty> where N: NodeTrait + Copy, Ty: EdgeType {
    fn default() -> (g: Self)
        ensures
            g@ == GraphModel::<N, E>::empty(Ty::is_directed_spec()),
            g.wf(),
    {
        Graph::with_capacity(0, 0)
    }
}

} // verus!
