//! The mathematical model of the graph: a pair of insertion-ordered
//! association sequences, one from node to adjacency entries and one from
//! canonical edge key to weight, together with the transitions that the
//! executable operations are specified against.

use vstd::prelude::*;

use crate::edge::{compact_of, CompactDirection, Direction};
use crate::node::NodeTrait;

verus! {

/// Whether an association sequence holds key `k`.
pub open spec fn assoc_has<K, V>(s: Seq<(K, V)>, k: K) -> bool {
    exists|i: int| 0 <= i < s.len() && (#[trigger] s[i]).0 == k
}

/// The index at which an association sequence holds key `k`; meaningful only
/// when `assoc_has(s, k)` and the keys of `s` are distinct.
pub open spec fn assoc_index<K, V>(s: Seq<(K, V)>, k: K) -> int {
    choose|i: int| 0 <= i < s.len() && (#[trigger] s[i]).0 == k
}

/// The value an association sequence holds under key `k`.
pub open spec fn assoc_get<K, V>(s: Seq<(K, V)>, k: K) -> V {
    s[assoc_index(s, k)].1
}

/// No key occurs twice.
pub open spec fn assoc_distinct<K, V>(s: Seq<(K, V)>) -> bool {
    forall|i: int, j: int|
        0 <= i < j < s.len() ==> (#[trigger] s[i]).0 != (#[trigger] s[j]).0
}

/// With distinct keys, the index of a key is the only position holding it.
pub proof fn lemma_assoc_index_unique<K, V>(s: Seq<(K, V)>, k: K, i: int)
    requires
        assoc_distinct(s),
        0 <= i < s.len(),
        s[i].0 == k,
    ensures
        assoc_has(s, k),
        assoc_index(s, k) == i,
{
    assert(assoc_has(s, k));
    let j = assoc_index(s, k);
    if j != i {
        assert(s[i].0 != s[j].0);
    }
}

/// Appending a pair under a fresh key keeps the keys distinct, keeps every
/// old binding, and binds the new key to the new value.
pub proof fn lemma_assoc_push<K, V>(s: Seq<(K, V)>, p: (K, V))
    requires
        assoc_distinct(s),
        !assoc_has(s, p.0),
    ensures
        assoc_distinct(s.push(p)),
        forall|k: K| #[trigger] assoc_has(s.push(p), k) <==> assoc_has(s, k) || k == p.0,
        forall|k: K| assoc_has(s, k) ==> #[trigger] assoc_get(s.push(p), k) == assoc_get(s, k),
        assoc_get(s.push(p), p.0) == p.1,
        assoc_index(s.push(p), p.0) == s.len(),
        forall|k: K|
            assoc_has(s, k) ==> #[trigger] assoc_index(s.push(p), k) == assoc_index(s, k),
{
    let t = s.push(p);
    assert forall|i: int, j: int| 0 <= i < j < t.len() implies (#[trigger] t[i]).0 != (
    #[trigger] t[j]).0 by {
        if j < s.len() {
            assert(s[i].0 != s[j].0);
        } else {
            assert(t[j] == p);
            if t[i].0 == p.0 {
                assert(assoc_has(s, p.0));
            }
        }
    }
    assert forall|k: K| #[trigger] assoc_has(t, k) <==> assoc_has(s, k) || k == p.0 by {
        if assoc_has(t, k) {
            let i = choose|i: int| 0 <= i < t.len() && (#[trigger] t[i]).0 == k;
            if i < s.len() {
                assert(s[i].0 == k);
                assert(assoc_has(s, k));
            }
        }
        if assoc_has(s, k) {
            let i = assoc_index(s, k);
            assert(t[i].0 == k);
        }
        if k == p.0 {
            assert(t[s.len() as int].0 == k);
        }
    }
    lemma_assoc_index_unique(t, p.0, s.len() as int);
    assert forall|k: K| assoc_has(s, k) implies #[trigger] assoc_index(t, k) == assoc_index(s, k)
        && assoc_get(t, k) == assoc_get(s, k) by {
        let i = assoc_index(s, k);
        lemma_assoc_index_unique(s, k, i);
        lemma_assoc_index_unique(t, k, i);
    }
}

/// Replacing the pair at the index of a key with a pair under the same key
/// keeps the keys distinct, rebinds that key, and keeps every other binding.
pub proof fn lemma_assoc_update<K, V>(s: Seq<(K, V)>, i: int, p: (K, V))
    requires
        assoc_distinct(s),
        0 <= i < s.len(),
        s[i].0 == p.0,
    ensures
        assoc_distinct(s.update(i, p)),
        forall|k: K| #[trigger] assoc_has(s.update(i, p), k) <==> assoc_has(s, k),
        assoc_get(s.update(i, p), p.0) == p.1,
        forall|k: K|
            assoc_has(s, k) && k != p.0 ==> #[trigger] assoc_get(s.update(i, p), k) == assoc_get(
                s,
                k,
            ),
        forall|k: K|
            assoc_has(s, k) ==> #[trigger] assoc_index(s.update(i, p), k) == assoc_index(s, k),
{
    let t = s.update(i, p);
    assert forall|ii: int, j: int| 0 <= ii < j < t.len() implies (#[trigger] t[ii]).0 != (
    #[trigger] t[j]).0 by {
        assert(s[ii].0 != s[j].0);
        assert(t[ii].0 == s[ii].0 && t[j].0 == s[j].0);
    }
    assert forall|k: K| #[trigger] assoc_has(t, k) <==> assoc_has(s, k) by {
        if assoc_has(t, k) {
            let ii = choose|ii: int| 0 <= ii < t.len() && (#[trigger] t[ii]).0 == k;
            assert(s[ii].0 == k);
            assert(assoc_has(s, k));
        }
        if assoc_has(s, k) {
            let ii = assoc_index(s, k);
            assert(t[ii].0 == k);
        }
    }
    assert forall|k: K| assoc_has(s, k) implies #[trigger] assoc_index(t, k) == assoc_index(s, k)
        by {
        let ii = assoc_index(s, k);
        lemma_assoc_index_unique(s, k, ii);
        lemma_assoc_index_unique(t, k, ii);
    }
    lemma_assoc_index_unique(s, p.0, i);
}

/// The canonical storage key for an edge between `a` and `b`: the pair is
/// kept as given for a directed graph or when `a` precedes `b` in the node
/// order, and swapped otherwise.
pub open spec fn spec_edge_key<N: NodeTrait>(directed: bool, a: N, b: N) -> (N, N) {
    if directed || a.le_spec(b) {
        (a, b)
    } else {
        (b, a)
    }
}

/// The nodes that a sequence of adjacency entries yields under a direction
/// filter: all of them for an undirected graph, only those tagged `want`
/// for a directed one.
pub open spec fn yields<N>(
    entries: Seq<(N, CompactDirection)>,
    directed: bool,
    want: CompactDirection,
) -> Seq<N>
    decreases entries.len(),
{
    if entries.len() == 0 {
        Seq::empty()
    } else {
        let rest = yields(entries.drop_first(), directed, want);
        if !directed || entries[0].1 == want {
            seq![entries[0].0] + rest
        } else {
            rest
        }
    }
}

/// Each neighbor in `nbrs` joined into a `(from, neighbor, weight)` triple,
/// the weight looked up in `edges` under the canonical key of the edge
/// connecting `from` with the neighbor.
pub open spec fn joined_edges<N: NodeTrait, E>(
    directed: bool,
    from: N,
    edges: Seq<((N, N), E)>,
    nbrs: Seq<N>,
) -> Seq<(N, N, E)> {
    Seq::new(
        nbrs.len(),
        |k: int| (from, nbrs[k], assoc_get(edges, spec_edge_key(directed, from, nbrs[k]))),
    )
}

/// The model of a graph: the per-node adjacency store, the canonical edge
/// map, and the edge semantics, the two stores in insertion order.
#[verifier::ext_equal]
pub ghost struct GraphModel<N, E> {
    /// Each node with its adjacency entries, in insertion order.
    pub nodes: Seq<(N, Seq<(N, CompactDirection)>)>,
    /// Each canonical edge key with its weight, in insertion order.
    pub edges: Seq<((N, N), E)>,
    /// Whether edges are directed.
    pub directed: bool,
}

impl<N: NodeTrait, E> GraphModel<N, E> {
    /// The model of a graph with no nodes and no edges.
    pub open spec fn empty(directed: bool) -> GraphModel<N, E> {
        GraphModel { nodes: Seq::empty(), edges: Seq::empty(), directed }
    }

    /// How many nodes the graph has.
    pub open spec fn node_count(self) -> nat {
        self.nodes.len()
    }

    /// How many edges the graph has.
    pub open spec fn edge_count(self) -> nat {
        self.edges.len()
    }

    /// Whether node `n` is in the graph.
    pub open spec fn contains_node(self, n: N) -> bool {
        assoc_has(self.nodes, n)
    }

    /// The adjacency entries of node `n`; empty when `n` is not in the graph.
    pub open spec fn adj(self, n: N) -> Seq<(N, CompactDirection)> {
        if assoc_has(self.nodes, n) {
            assoc_get(self.nodes, n)
        } else {
            Seq::empty()
        }
    }

    /// The canonical storage key for an edge between `a` and `b`.
    pub open spec fn edge_key(self, a: N, b: N) -> (N, N) {
        spec_edge_key(self.directed, a, b)
    }

    /// Whether an edge connecting `a` and `b` is in the graph.
    pub open spec fn contains_edge(self, a: N, b: N) -> bool {
        assoc_has(self.edges, self.edge_key(a, b))
    }

    /// The weight of the edge connecting `a` and `b`, when there is one.
    pub open spec fn edge_weight(self, a: N, b: N) -> Option<E> {
        if self.contains_edge(a, b) {
            Some(assoc_get(self.edges, self.edge_key(a, b)))
        } else {
            None
        }
    }

    /// The graph after adding node `n`: unchanged when present, extended by
    /// `n` with an empty adjacency list otherwise.
    pub open spec fn add_node(self, n: N) -> GraphModel<N, E> {
        if assoc_has(self.nodes, n) {
            self
        } else {
            GraphModel { nodes: self.nodes.push((n, Seq::empty())), ..self }
        }
    }

    /// The graph after appending one adjacency entry to node `n`, adding the
    /// node first when absent.
    pub open spec fn push_adjacency(self, n: N, entry: (N, CompactDirection)) -> GraphModel<N, E> {
        if assoc_has(self.nodes, n) {
            let i = assoc_index(self.nodes, n);
            GraphModel { nodes: self.nodes.update(i, (n, self.nodes[i].1.push(entry))), ..self }
        } else {
            GraphModel { nodes: self.nodes.push((n, seq![entry])), ..self }
        }
    }

    /// The graph after an upsert of the edge connecting `a` and `b`.
    ///
    /// When the canonical key is already present only its weight changes.
    /// Otherwise the edge is appended, `a` gains the entry `(b, Outgoing)`,
    /// `b` gains `(a, Incoming)` unless the edge is a self loop, and both
    /// endpoints are added as nodes when absent.
    pub open spec fn add_edge(self, a: N, b: N, w: E) -> GraphModel<N, E> {
        let key = self.edge_key(a, b);
        if assoc_has(self.edges, key) {
            GraphModel {
                edges: self.edges.update(assoc_index(self.edges, key), (key, w)),
                ..self
            }
        } else {
            let with_out = self.push_adjacency(a, (b, CompactDirection::Outgoing));
            let with_in = if a == b {
                with_out
            } else {
                with_out.push_adjacency(b, (a, CompactDirection::Incoming))
            };
            GraphModel { edges: self.edges.push((key, w)), ..with_in }
        }
    }

    /// The graph after dropping all nodes and edges.
    pub open spec fn cleared(self) -> GraphModel<N, E> {
        GraphModel::empty(self.directed)
    }

    /// The nodes reachable from `a` along one edge: for a directed graph the
    /// outgoing entries of `a`, for an undirected graph all entries of `a`.
    pub open spec fn neighbors(self, a: N) -> Seq<N> {
        yields(self.adj(a), self.directed, CompactDirection::Outgoing)
    }

    /// The neighbors of `a` filtered to direction `dir` for a directed
    /// graph; for an undirected graph the filter is ignored and every
    /// neighbor is yielded.
    pub open spec fn neighbors_directed(self, a: N, dir: Direction) -> Seq<N> {
        yields(self.adj(a), self.directed, compact_of(dir))
    }

    /// Every stored edge as a `(source, target, weight)` triple, in
    /// insertion order, each in its literally stored key order.
    pub open spec fn all_edges(self) -> Seq<(N, N, E)> {
        self.edges.map_values(|p: ((N, N), E)| (p.0.0, p.0.1, p.1))
    }

    /// The node keys, in insertion order.
    pub open spec fn node_keys(self) -> Seq<N> {
        self.nodes.map_values(|p: (N, Seq<(N, CompactDirection)>)| p.0)
    }

    /// The edges starting from `a`: each neighbor of `a` joined with the
    /// weight stored under the canonical key of the connecting edge.
    pub open spec fn edges_from(self, a: N) -> Seq<(N, N, E)> {
        joined_edges(self.directed, a, self.edges, self.neighbors(a))
    }

    /// One orientation of an edge key is reflected in the adjacency store:
    /// the source holds the target as outgoing and, unless the edge is a
    /// self loop, the target holds the source as incoming.
    pub open spec fn oriented(self, a: N, b: N) -> bool {
        &&& self.contains_node(a)
        &&& self.adj(a).contains((b, CompactDirection::Outgoing))
        &&& a != b ==> self.contains_node(b) && self.adj(b).contains(
            (a, CompactDirection::Incoming),
        )
    }

    /// The edge at index `i` is stored under a canonical key and is
    /// reflected in the adjacency store under the orientation in which it
    /// was inserted.
    pub open spec fn edge_wf(self, i: int) -> bool {
        let ka = self.edges[i].0.0;
        let kb = self.edges[i].0.1;
        &&& self.directed || ka.le_spec(kb)
        &&& self.oriented(ka, kb) || (!self.directed && self.oriented(kb, ka))
    }

    /// The adjacency entry `j` of node `i` has its edge in the edge map: an
    /// outgoing entry `(b, _)` of node `a` stands for the edge inserted as
    /// `(a, b)`, an incoming one for the edge inserted as `(b, a)`.
    pub open spec fn entry_wf(self, i: int, j: int) -> bool {
        let a = self.nodes[i].0;
        let b = self.nodes[i].1[j].0;
        let d = self.nodes[i].1[j].1;
        &&& d == CompactDirection::Outgoing ==> assoc_has(self.edges, self.edge_key(a, b))
        &&& d == CompactDirection::Incoming ==> assoc_has(self.edges, self.edge_key(b, a))
    }

    /// Well-formedness: node keys and edge keys are unique, and the two
    /// stores agree as `edge_wf` and `entry_wf` state.
    pub open spec fn wf(self) -> bool {
        &&& assoc_distinct(self.nodes)
        &&& assoc_distinct(self.edges)
        &&& forall|i: int| 0 <= i < self.edges.len() ==> #[trigger] self.edge_wf(i)
        &&& forall|i: int, j: int|
            0 <= i < self.nodes.len() && 0 <= j < self.nodes[i].1.len() ==> #[trigger] self.entry_wf(
                i,
                j,
            )
    }
}

/// A sequence keeps its members when a value is appended.
pub proof fn lemma_contains_push<T>(s: Seq<T>, e: T, x: T)
    requires
        s.contains(x),
    ensures
        s.push(e).contains(x),
{
    let i = choose|i: int| 0 <= i < s.len() && s[i] == x;
    assert(s.push(e)[i] == x);
}

/// The canonical edge key: for an undirected graph its endpoints are in
/// order and it does not depend on the order of the arguments; for a
/// directed graph it is the argument pair itself.
pub proof fn lemma_edge_key<N: NodeTrait>(directed: bool, a: N, b: N)
    ensures
        ({
            let k = spec_edge_key(directed, a, b);
            &&& k == (a, b) || k == (b, a)
            &&& directed ==> k == (a, b)
            &&& !directed ==> k.0.le_spec(k.1)
            &&& !directed ==> spec_edge_key(directed, b, a) == k
        }),
{
    if !directed {
        N::le_total(a, b);
        if a.le_spec(b) && b.le_spec(a) {
            N::le_antisymmetric(a, b);
        }
    }
}

/// A node key at an index of the node store is in the graph and owns the
/// adjacency list stored beside it.
pub proof fn lemma_adj_at_index<N: NodeTrait, E>(m: GraphModel<N, E>, i: int)
    requires
        assoc_distinct(m.nodes),
        0 <= i < m.nodes.len(),
    ensures
        m.contains_node(m.nodes[i].0),
        m.adj(m.nodes[i].0) == m.nodes[i].1,
{
    lemma_assoc_index_unique(m.nodes, m.nodes[i].0, i);
}

/// Appending one adjacency entry to node `n` changes the adjacency of `n`
/// alone, appends at most one node, and leaves the edge store untouched.
pub proof fn lemma_push_adjacency<N: NodeTrait, E>(
    m: GraphModel<N, E>,
    n: N,
    entry: (N, CompactDirection),
)
    requires
        assoc_distinct(m.nodes),
    ensures
        ({
            let m2 = m.push_adjacency(n, entry);
            &&& assoc_distinct(m2.nodes)
            &&& m2.edges == m.edges
            &&& m2.directed == m.directed
            &&& m2.adj(n) == m.adj(n).push(entry)
            &&& forall|x: N| x != n ==> #[trigger] m2.adj(x) == m.adj(x)
            &&& forall|x: N| #[trigger] m2.contains_node(x) <==> m.contains_node(x) || x == n
            &&& m.contains_node(n) ==> m2.nodes.len() == m.nodes.len()
            &&& !m.contains_node(n) ==> m2.nodes == m.nodes.push((n, seq![entry]))
        }),
{
    let m2 = m.push_adjacency(n, entry);
    if assoc_has(m.nodes, n) {
        let i = assoc_index(m.nodes, n);
        assert(0 <= i < m.nodes.len() && m.nodes[i].0 == n);
        lemma_assoc_update(m.nodes, i, (n, m.nodes[i].1.push(entry)));
        assert(m2.adj(n) == m.adj(n).push(entry));
    } else {
        lemma_assoc_push(m.nodes, (n, seq![entry]));
        assert(m.adj(n).push(entry) =~= seq![entry]);
    }
}

/// The upsert transition preserves well-formedness, and its whole effect:
/// the weight written is then the weight read; when the canonical key was
/// present nothing but that weight changes; when it was absent the edge is
/// appended and exactly the insertion-order adjacency entries appear.
pub proof fn lemma_add_edge<N: NodeTrait, E>(m: GraphModel<N, E>, a: N, b: N, w: E)
    requires
        m.wf(),
    ensures
        ({
            let m2 = m.add_edge(a, b, w);
            &&& m2.wf()
            &&& m2.directed == m.directed
            &&& m2.contains_edge(a, b)
            &&& m2.edge_weight(a, b) == Some(w)
            &&& m.contains_edge(a, b) ==> {
                &&& m2.nodes == m.nodes
                &&& m2.edges.len() == m.edges.len()
                &&& forall|x: N, y: N|
                    m.edge_key(x, y) != m.edge_key(a, b) ==> #[trigger] m2.edge_weight(x, y)
                        == m.edge_weight(x, y)
            }
            &&& !m.contains_edge(a, b) ==> {
                &&& m2.edges == m.edges.push((m.edge_key(a, b), w))
                &&& a == b ==> m2.adj(a) == m.adj(a).push((a, CompactDirection::Outgoing))
                &&& a != b ==> m2.adj(a) == m.adj(a).push((b, CompactDirection::Outgoing))
                    && m2.adj(b) == m.adj(b).push((a, CompactDirection::Incoming))
                &&& forall|x: N| x != a && x != b ==> #[trigger] m2.adj(x) == m.adj(x)
                &&& forall|x: N|
                    #[trigger] m2.contains_node(x) <==> m.contains_node(x) || x == a || x == b
            }
        }),
{
    let key = m.edge_key(a, b);
    lemma_edge_key(m.directed, a, b);
    let m2 = m.add_edge(a, b, w);
    if assoc_has(m.edges, key) {
        let i = assoc_index(m.edges, key);
        assert(0 <= i < m.edges.len() && m.edges[i].0 == key);
        lemma_assoc_update(m.edges, i, (key, w));
        assert forall|ii: int| 0 <= ii < m2.edges.len() implies #[trigger] m2.edge_wf(ii) by {
            assert(m.edge_wf(ii));
            assert(m2.edges[ii].0 == m.edges[ii].0);
        }
        assert forall|ii: int, j: int|
            0 <= ii < m2.nodes.len() && 0 <= j < m2.nodes[ii].1.len() implies #[trigger] m2.entry_wf(
            ii,
            j,
        ) by {
            assert(m.entry_wf(ii, j));
        }
        assert forall|x: N, y: N| m.edge_key(x, y) != key implies #[trigger] m2.edge_weight(x, y)
            == m.edge_weight(x, y) by {
            assert(m2.edge_key(x, y) == m.edge_key(x, y));
        }
    } else {
        let m_out = m.push_adjacency(a, (b, CompactDirection::Outgoing));
        lemma_push_adjacency(m, a, (b, CompactDirection::Outgoing));
        let m_in = if a == b {
            m_out
        } else {
            m_out.push_adjacency(b, (a, CompactDirection::Incoming))
        };
        if a != b {
            lemma_push_adjacency(m_out, b, (a, CompactDirection::Incoming));
        }
        lemma_assoc_push(m.edges, (key, w));
        assert(m2.nodes == m_in.nodes);
        assert(m2.edges == m.edges.push((key, w)));
        assert forall|x: N| #[trigger] m2.contains_node(x) <==> m.contains_node(x) || x == a || x
            == b by {
            assert(m2.contains_node(x) == m_in.contains_node(x));
            assert(m_out.contains_node(x) <==> m.contains_node(x) || x == a);
            if a != b {
                assert(m_in.contains_node(x) <==> m_out.contains_node(x) || x == b);
            }
        }
        if a == b {
            assert(m2.adj(a) == m_in.adj(a));
            assert(m_in.adj(a) == m.adj(a).push((a, CompactDirection::Outgoing)));
        } else {
            assert(m_out.adj(a) == m.adj(a).push((b, CompactDirection::Outgoing)));
            assert(m_in.adj(a) == m_out.adj(a));
            assert(m2.adj(a) == m_in.adj(a));
            assert(m_out.adj(b) == m.adj(b));
            assert(m_in.adj(b) == m_out.adj(b).push((a, CompactDirection::Incoming)));
            assert(m2.adj(b) == m_in.adj(b));
        }
        assert forall|x: N| x != a && x != b implies #[trigger] m2.adj(x) == m.adj(x) by {
            assert(m_out.adj(x) == m.adj(x));
            if a != b {
                assert(m_in.adj(x) == m_out.adj(x));
            }
            assert(m2.adj(x) == m_in.adj(x));
        }
        assert forall|x: N| #[trigger] m.contains_node(x) implies m2.contains_node(x) by {}
        assert forall|x: N, e: (N, CompactDirection)| #[trigger]
            m.adj(x).contains(e) implies m2.adj(x).contains(e) by {
            if x == a && a == b {
                lemma_contains_push(m.adj(x), (a, CompactDirection::Outgoing), e);
            } else if x == a {
                lemma_contains_push(m.adj(x), (b, CompactDirection::Outgoing), e);
            } else if x == b {
                lemma_contains_push(m.adj(x), (a, CompactDirection::Incoming), e);
            }
            assert(m2.adj(x).contains(e));
        }

        // Every old edge stays reflected in the adjacency store, which only
        // grew, and the new edge is reflected in the orientation in which it
        // was inserted.
        assert forall|ii: int| 0 <= ii < m2.edges.len() implies #[trigger] m2.edge_wf(ii) by {
            if ii < m.edges.len() {
                assert(m.edge_wf(ii));
                let ka = m.edges[ii].0.0;
                let kb = m.edges[ii].0.1;
                assert(m2.edges[ii] == m.edges[ii]);
                if m.oriented(ka, kb) {
                    lemma_oriented_monotone(m, m2, ka, kb);
                } else {
                    lemma_oriented_monotone(m, m2, kb, ka);
                }
            } else {
                assert(m2.edges[ii] == (key, w));
                let sa = m2.adj(a);
                if a == b {
                    assert(sa[sa.len() - 1] == (a, CompactDirection::Outgoing));
                } else {
                    assert(sa[sa.len() - 1] == (b, CompactDirection::Outgoing));
                }
                assert(sa.contains((b, CompactDirection::Outgoing)));
                if a != b {
                    let sb = m2.adj(b);
                    assert(sb[sb.len() - 1] == (a, CompactDirection::Incoming));
                    assert(sb.contains((a, CompactDirection::Incoming)));
                }
                assert(m2.oriented(a, b));
                if key == (a, b) {
                    assert(m2.edge_wf(ii));
                } else {
                    assert(!m.directed && key == (b, a));
                    assert(m2.edge_wf(ii));
                }
            }
        }

        // Every adjacency entry, old or new, has its edge in the edge store,
        // which only grew.
        assert forall|ii: int, j: int|
            0 <= ii < m2.nodes.len() && 0 <= j < m2.nodes[ii].1.len() implies #[trigger] m2.entry_wf(
            ii,
            j,
        ) by {
            let x = m2.nodes[ii].0;
            lemma_adj_at_index(m2, ii);
            let e = m2.nodes[ii].1[j];
            if x == a && j == m.adj(a).len() {
                assert(e == (if a == b {
                    (a, CompactDirection::Outgoing)
                } else {
                    (b, CompactDirection::Outgoing)
                }));
                assert(m2.edge_key(x, e.0) == key);
            } else if x == b && a != b && j == m.adj(b).len() {
                assert(e == (a, CompactDirection::Incoming));
                assert(m2.edge_key(e.0, x) == key);
            } else {
                assert(0 <= j < m.adj(x).len() && m.adj(x)[j] == e) by {
                    if x == a || x == b {
                        assert(m2.adj(x)[j] == e);
                    }
                }
                if m.contains_node(x) {
                    let i0 = assoc_index(m.nodes, x);
                    assert(0 <= i0 < m.nodes.len() && m.nodes[i0].0 == x);
                    lemma_adj_at_index(m, i0);
                    assert(m.entry_wf(i0, j));
                } else {
                    assert(m.adj(x).len() == 0);
                }
            }
        }
    }
}

/// Adjacency reflection of an edge survives any step that only appends
/// adjacency entries and nodes.
proof fn lemma_oriented_monotone<N: NodeTrait, E>(
    m: GraphModel<N, E>,
    m2: GraphModel<N, E>,
    a: N,
    b: N,
)
    requires
        m.oriented(a, b),
        forall|x: N| #[trigger] m.contains_node(x) ==> m2.contains_node(x),
        forall|x: N, e: (N, CompactDirection)|
            #[trigger] m.adj(x).contains(e) ==> m2.adj(x).contains(e),
    ensures
        m2.oriented(a, b),
{
}

/// Adding a node preserves well-formedness; when the node is new, it is
/// appended with an empty adjacency list and nothing else changes.
pub proof fn lemma_add_node<N: NodeTrait, E>(m: GraphModel<N, E>, n: N)
    requires
        m.wf(),
    ensures
        ({
            let m2 = m.add_node(n);
            &&& m2.wf()
            &&& m2.edges == m.edges
            &&& m2.directed == m.directed
            &&& m2.contains_node(n)
            &&& forall|x: N| #[trigger] m2.contains_node(x) <==> m.contains_node(x) || x == n
            &&& forall|x: N| #[trigger] m2.adj(x) == m.adj(x)
            &&& m.contains_node(n) ==> m2 == m
            &&& !m.contains_node(n) ==> m2.nodes == m.nodes.push((n, Seq::empty()))
        }),
{
    let m2 = m.add_node(n);
    if !assoc_has(m.nodes, n) {
        lemma_assoc_push(m.nodes, (n, Seq::<(N, CompactDirection)>::empty()));
        assert forall|x: N| #[trigger] m2.adj(x) == m.adj(x) by {
            if x == n {
                assert(m2.adj(n) =~= Seq::<(N, CompactDirection)>::empty());
            }
        }
        assert forall|x: N| #[trigger] m.contains_node(x) implies m2.contains_node(x) by {
            assert(assoc_has(m2.nodes, x));
        }
        assert forall|x: N, e: (N, CompactDirection)| #[trigger]
            m.adj(x).contains(e) implies m2.adj(x).contains(e) by {
            assert(m2.adj(x) == m.adj(x));
        }
        assert forall|ii: int| 0 <= ii < m2.edges.len() implies #[trigger] m2.edge_wf(ii) by {
            assert(m.edge_wf(ii));
            let ka = m.edges[ii].0.0;
            let kb = m.edges[ii].0.1;
            if m.oriented(ka, kb) {
                lemma_oriented_monotone(m, m2, ka, kb);
            } else {
                lemma_oriented_monotone(m, m2, kb, ka);
            }
        }
        assert forall|ii: int, j: int|
            0 <= ii < m2.nodes.len() && 0 <= j < m2.nodes[ii].1.len() implies #[trigger] m2.entry_wf(
            ii,
            j,
        ) by {
            if ii < m.nodes.len() {
                assert(m.entry_wf(ii, j));
            } else {
                assert(m2.nodes[ii].1.len() == 0);
            }
        }
    }
}

/// The empty graph is well-formed.
pub proof fn lemma_empty_wf<N: NodeTrait, E>(directed: bool)
    ensures
        GraphModel::<N, E>::empty(directed).wf(),
{
}

/// What one step of draining does to the yielded nodes: the entry at `i`
/// contributes its node exactly when it passes the direction filter.
pub proof fn lemma_yields_step<N>(
    entries: Seq<(N, CompactDirection)>,
    directed: bool,
    want: CompactDirection,
    i: int,
)
    requires
        0 <= i < entries.len(),
    ensures
        yields(entries.skip(i), directed, want) == if !directed || entries[i].1 == want {
            seq![entries[i].0] + yields(entries.skip(i + 1), directed, want)
        } else {
            yields(entries.skip(i + 1), directed, want)
        },
{
    assert(entries.skip(i).drop_first() =~= entries.skip(i + 1));
    assert(entries.skip(i)[0] == entries[i]);
}

/// An adjacency entry that passes the direction filter puts its node among
/// the yielded ones.
pub proof fn lemma_yields_contains<N>(
    entries: Seq<(N, CompactDirection)>,
    directed: bool,
    want: CompactDirection,
    i: int,
)
    requires
        0 <= i < entries.len(),
        !directed || entries[i].1 == want,
    ensures
        yields(entries, directed, want).contains(entries[i].0),
    decreases entries.len(),
{
    let ys = yields(entries, directed, want);
    let rest = yields(entries.drop_first(), directed, want);
    let x = entries[i].0;
    if i == 0 {
        assert(ys[0] == x);
        assert(ys.contains(x));
    } else {
        assert(entries.drop_first()[i - 1] == entries[i]);
        lemma_yields_contains(entries.drop_first(), directed, want, i - 1);
        let k = choose|k: int| 0 <= k < rest.len() && rest[k] == x;
        if !directed || entries[0].1 == want {
            assert(ys[k + 1] == x);
        } else {
            assert(ys[k] == x);
        }
        assert(ys.contains(x));
    }
}

/// Every yielded node comes from an adjacency entry that passes the
/// direction filter.
pub proof fn lemma_yields_source<N>(
    entries: Seq<(N, CompactDirection)>,
    directed: bool,
    want: CompactDirection,
    k: int,
)
    requires
        0 <= k < yields(entries, directed, want).len(),
    ensures
        exists|i: int|
            0 <= i < entries.len() && (#[trigger] entries[i]).0 == yields(entries, directed, want)[k]
                && (!directed || entries[i].1 == want),
    decreases entries.len(),
{
    let ys = yields(entries, directed, want);
    let rest = yields(entries.drop_first(), directed, want);
    if !directed || entries[0].1 == want {
        if k == 0 {
            assert(ys[0] == entries[0].0);
            assert(entries[0].0 == ys[k] && (!directed || entries[0].1 == want));
        } else {
            lemma_yields_source(entries.drop_first(), directed, want, k - 1);
            let i0 = choose|i: int|
                0 <= i < entries.drop_first().len() && (#[trigger] entries.drop_first()[i]).0
                    == rest[k - 1] && (!directed || entries.drop_first()[i].1 == want);
            assert(ys[k] == rest[k - 1]);
            assert(entries[i0 + 1] == entries.drop_first()[i0]);
        }
    } else {
        lemma_yields_source(entries.drop_first(), directed, want, k);
        let i0 = choose|i: int|
            0 <= i < entries.drop_first().len() && (#[trigger] entries.drop_first()[i]).0 == rest[k]
                && (!directed || entries.drop_first()[i].1 == want);
        assert(entries[i0 + 1] == entries.drop_first()[i0]);
    }
}

/// In a well-formed graph every neighbor of `a` has the edge that connects
/// it with `a` in the edge store.
pub proof fn lemma_neighbors_edges<N: NodeTrait, E>(m: GraphModel<N, E>, a: N)
    requires
        m.wf(),
    ensures
        forall|k: int|
            0 <= k < m.neighbors(a).len() ==> assoc_has(
                m.edges,
                m.edge_key(a, #[trigger] m.neighbors(a)[k]),
            ),
{
    assert forall|k: int| 0 <= k < m.neighbors(a).len() implies assoc_has(
        m.edges,
        m.edge_key(a, #[trigger] m.neighbors(a)[k]),
    ) by {
        lemma_yields_source(m.adj(a), m.directed, CompactDirection::Outgoing, k);
        let i = choose|i: int|
            0 <= i < m.adj(a).len() && (#[trigger] m.adj(a)[i]).0 == m.neighbors(a)[k] && (
            !m.directed || m.adj(a)[i].1 == CompactDirection::Outgoing);
        assert(m.contains_node(a));
        let ia = assoc_index(m.nodes, a);
        assert(0 <= ia < m.nodes.len() && m.nodes[ia].0 == a);
        assert(m.nodes[ia].1 == m.adj(a));
        assert(m.entry_wf(ia, i));
        let b = m.adj(a)[i].0;
        if m.adj(a)[i].1 == CompactDirection::Incoming {
            lemma_edge_key(m.directed, a, b);
        }
    }
}

/// The graph after an upsert of every edge descriptor in `items`, first to
/// last; a later duplicate overwrites an earlier weight.
pub open spec fn extended<N: NodeTrait, E>(m: GraphModel<N, E>, items: Seq<(N, N, E)>) -> GraphModel<
    N,
    E,
>
    decreases items.len(),
{
    if items.len() == 0 {
        m
    } else {
        extended(m.add_edge(items[0].0, items[0].1, items[0].2), items.drop_first())
    }
}

/// Appending an adjacency entry appends its node to the yielded sequence
/// when it passes the direction filter and yields nothing new otherwise.
pub proof fn lemma_yields_push<N>(
    entries: Seq<(N, CompactDirection)>,
    directed: bool,
    want: CompactDirection,
    e: (N, CompactDirection),
)
    ensures
        yields(entries.push(e), directed, want) == if !directed || e.1 == want {
            yields(entries, directed, want).push(e.0)
        } else {
            yields(entries, directed, want)
        },
    decreases entries.len(),
{
    let emp = Seq::<(N, CompactDirection)>::empty();
    assert(yields(emp, directed, want) == Seq::<N>::empty());
    if entries.len() == 0 {
        let p = entries.push(e);
        assert(p[0] == e);
        assert(p.drop_first() =~= emp);
        assert(entries =~= emp);
        if !directed || e.1 == want {
            assert(yields(p, directed, want) == seq![e.0] + Seq::<N>::empty());
            assert(seq![e.0] + Seq::<N>::empty() =~= Seq::<N>::empty().push(e.0));
        }
    } else {
        let p = entries.push(e);
        assert(p[0] == entries[0]);
        assert(p.drop_first() =~= entries.drop_first().push(e));
        lemma_yields_push(entries.drop_first(), directed, want, e);
        let rest = yields(entries.drop_first(), directed, want);
        if !directed || e.1 == want {
            assert(yields(p, directed, want) == if !directed || entries[0].1 == want {
                seq![entries[0].0] + rest.push(e.0)
            } else {
                rest.push(e.0)
            });
            if !directed || entries[0].1 == want {
                assert(seq![entries[0].0] + rest.push(e.0) =~= (seq![entries[0].0] + rest).push(
                    e.0,
                ));
            }
        } else {
            assert(yields(p, directed, want) == if !directed || entries[0].1 == want {
                seq![entries[0].0] + rest
            } else {
                rest
            });
        }
    }
}

} // verus!
