//! Edge-related constructs: the edge-type capability, direction tags, and
//! the edge-descriptor conversion used by bulk construction.

use vstd::prelude::*;
use core::marker::PhantomData;

use crate::graph::Graph;
use crate::model::{
    assoc_distinct, assoc_has, joined_edges, lemma_assoc_index_unique, spec_edge_key,
};
use crate::node::NodeTrait;
use crate::traverse::Neighbors;

verus! {

/// A graph's edge type determines whether it has directed edges or not.
///
/// The predicate is static: the choice is made by the type alone and carries
/// no run-time state.
pub trait EdgeType: Sized {
    /// Whether edges of this type are directed, as a mathematical value.
    spec fn is_directed_spec() -> bool;

    /// Whether edges of this type are directed.
    fn is_directed() -> (r: bool)
        ensures
            r == Self::is_directed_spec(),
    ;
}

/// A lazy, finite, non-restartable view over the edges starting from one
/// node, each neighbor joined with the weight stored under the canonical
/// key of the connecting edge.
///
/// A lookup miss while draining would mean the adjacency store and the edge
/// map disagree: an internal-consistency fault, never a caller error.
pub struct Edges<'a, N, E, Ty> where N: NodeTrait, Ty: EdgeType {
    from: N,
    edges: &'a Vec<((N, N), E)>,
    iter: Neighbors<'a, N, Ty>,
}

impl<'a, N, E, Ty> Edges<'a, N, E, Ty> where N: NodeTrait + Copy, Ty: EdgeType {
    /// The node the edges start from.
    pub closed spec fn from_spec(self) -> N {
        self.from
    }

    /// The edge store under view.
    pub closed spec fn edges_seq(self) -> Seq<((N, N), E)> {
        self.edges@
    }

    /// The consistency this view relies on: the inner neighbors view is in
    /// bounds, the edge keys are unique, and every neighbor still to be
    /// yielded has the connecting edge in the store.
    pub closed spec fn inv(self) -> bool {
        &&& self.iter.inv()
        &&& assoc_distinct(self.edges@)
        &&& forall|k: int|
            0 <= k < self.iter.remaining().len() ==> assoc_has(
                self.edges@,
                spec_edge_key(
                    Ty::is_directed_spec(),
                    self.from,
                    #[trigger] self.iter.remaining()[k],
                ),
            )
    }

    /// The `(source, target, weight)` triples this view has yet to yield.
    pub closed spec fn remaining(self) -> Seq<(N, N, E)> {
        joined_edges(Ty::is_directed_spec(), self.from, self.edges@, self.iter.remaining())
    }

    /// Join a neighbors view with an edge store.
    pub fn new(from: N, edges: &'a Vec<((N, N), E)>, iter: Neighbors<'a, N, Ty>) -> (it: Self)
        requires
            iter.inv(),
            assoc_distinct(edges@),
            forall|k: int|
                0 <= k < iter.remaining().len() ==> assoc_has(
                    edges@,
                    spec_edge_key(Ty::is_directed_spec(), from, #[trigger] iter.remaining()[k]),
                ),
        ensures
            it.inv(),
            it.from_spec() == from,
            it.edges_seq() == edges@,
            it.remaining() == joined_edges(
                Ty::is_directed_spec(),
                from,
                edges@,
                iter.remaining(),
            ),
    {
        Self { from, edges, iter }
    }

    /// Yield the next edge, or `None` once the view is exhausted.
    pub fn next(&mut self) -> (r: Option<(N, N, &'a E)>)
        requires
            old(self).inv(),
        ensures
            final(self).inv(),
            final(self).from_spec() == old(self).from_spec(),
            final(self).edges_seq() == old(self).edges_seq(),
            old(self).remaining().len() == 0 ==> r is None && final(self).remaining() == old(
                self,
            ).remaining(),
            old(self).remaining().len() > 0 ==> r is Some && ({
                let t = old(self).remaining()[0];
                r.unwrap().0 == t.0 && r.unwrap().1 == t.1 && *r.unwrap().2 == t.2
            }) && final(self).remaining() == old(self).remaining().drop_first(),
    {
        let ghost nbrs0 = self.iter.remaining();
        match self.iter.next() {
            None => None,
            Some(b) => {
                let a = self.from;
                let key = Graph::<N, E, Ty>::edge_key(a, b);
                let edges = self.edges;
                proof {
                    assert(nbrs0[0] == b);
                    assert(assoc_has(edges@, key));
                    assert forall|k: int|
                        0 <= k < self.iter.remaining().len() implies assoc_has(
                        edges@,
                        spec_edge_key(
                            Ty::is_directed_spec(),
                            self.from,
                            #[trigger] self.iter.remaining()[k],
                        ),
                    ) by {
                        assert(self.iter.remaining()[k] == nbrs0[k + 1]);
                    }
                }
                match crate::graph::find_key_position(edges, &key) {
                    Some(i) => {
                        proof {
                            lemma_assoc_index_unique(edges@, key, i as int);
                            assert(self.remaining() =~= old(self).remaining().drop_first());
                        }
                        Some((a, b, &edges[i].1))
                    },
                    None => {
                        proof {
                            assert(false);
                        }
                        vstd::pervasive::unreached()
                    },
                }
            },
        }
    }
}

/// A lazy view over every stored edge exactly once, in edge-map insertion
/// order, each yielded as `(a, b, weight)` in its literally stored key
/// order.  Supports forward and reverse traversal, a constant-time
/// remaining-length query, and constant-time skip-to-nth and take-last.
pub struct AllEdges<'a, N, E, Ty> {
    inner: &'a Vec<((N, N), E)>,
    lo: usize,
    hi: usize,
    ty: PhantomData<Ty>,
}

impl<'a, N, E, Ty> AllEdges<'a, N, E, Ty> where N: NodeTrait + Copy, Ty: EdgeType {
    /// The edge store under view.
    pub closed spec fn inner_seq(self) -> Seq<((N, N), E)> {
        self.inner@
    }

    /// The cursors are within bounds.
    pub closed spec fn inv(self) -> bool {
        self.lo <= self.hi <= self.inner@.len()
    }

    /// The `(a, b, weight)` triples this view has yet to yield.
    pub closed spec fn remaining(self) -> Seq<(N, N, E)> {
        self.inner@.subrange(self.lo as int, self.hi as int).map_values(
            |p: ((N, N), E)| (p.0.0, p.0.1, p.1),
        )
    }

    /// Wrap an edge store whole.
    pub fn new(inner: &'a Vec<((N, N), E)>, ty: PhantomData<Ty>) -> (it: Self)
        ensures
            it.inv(),
            it.inner_seq() == inner@,
            it.remaining() == inner@.map_values(|p: ((N, N), E)| (p.0.0, p.0.1, p.1)),
    {
        let it = Self { inner, lo: 0, hi: inner.len(), ty };
        proof {
            assert(it.inner@.subrange(0, it.inner@.len() as int) =~= it.inner@);
        }
        it
    }

    /// Advance the view and return the next edge.
    pub fn next(&mut self) -> (r: Option<(N, N, &'a E)>)
        requires
            old(self).inv(),
        ensures
            final(self).inv(),
            final(self).inner_seq() == old(self).inner_seq(),
            old(self).remaining().len() == 0 ==> r is None && final(self).remaining() == old(
                self,
            ).remaining(),
            old(self).remaining().len() > 0 ==> r is Some && ({
                let t = old(self).remaining()[0];
                r.unwrap().0 == t.0 && r.unwrap().1 == t.1 && *r.unwrap().2 == t.2
            }) && final(self).remaining() == old(self).remaining().drop_first(),
    {
        if self.lo < self.hi {
            let inner = self.inner;
            let p = &inner[self.lo];
            let r = Some((p.0.0, p.0.1, &p.1));
            self.lo = self.lo + 1;
            proof {
                assert(self.remaining() =~= old(self).remaining().drop_first());
            }
            r
        } else {
            None
        }
    }

    /// The bounds on the remaining length of the view: exact on both ends.
    pub fn size_hint(&self) -> (r: (usize, Option<usize>))
        requires
            self.inv(),
        ensures
            r.0 == self.remaining().len(),
            r.1 == Some(r.0),
    {
        (self.hi - self.lo, Some(self.hi - self.lo))
    }

    /// Consume the view, counting the edges it had yet to yield.
    pub fn count(self) -> (r: usize)
        requires
            self.inv(),
        ensures
            r == self.remaining().len(),
    {
        self.hi - self.lo
    }

    /// Skip to the `n`th remaining edge, consuming it and everything before
    /// it; `None`, with the view drained, when fewer than `n + 1` remain.
    pub fn nth(&mut self, n: usize) -> (r: Option<(N, N, &'a E)>)
        requires
            old(self).inv(),
        ensures
            final(self).inv(),
            final(self).inner_seq() == old(self).inner_seq(),
            n < old(self).remaining().len() ==> r is Some && ({
                let t = old(self).remaining()[n as int];
                r.unwrap().0 == t.0 && r.unwrap().1 == t.1 && *r.unwrap().2 == t.2
            }) && final(self).remaining() == old(self).remaining().skip(n + 1),
            n >= old(self).remaining().len() ==> r is None && final(self).remaining().len() == 0,
    {
        if n < self.hi - self.lo {
            let inner = self.inner;
            let i = self.lo + n;
            let p = &inner[i];
            self.lo = i + 1;
            proof {
                assert(self.remaining() =~= old(self).remaining().skip(n + 1));
            }
            Some((p.0.0, p.0.1, &p.1))
        } else {
            self.lo = self.hi;
            proof {
                assert(self.remaining().len() == 0);
            }
            None
        }
    }

    /// Consume the view, returning the last edge it had yet to yield.
    pub fn last(self) -> (r: Option<(N, N, &'a E)>)
        requires
            self.inv(),
        ensures
            self.remaining().len() == 0 ==> r is None,
            self.remaining().len() > 0 ==> r is Some && ({
                let t = self.remaining().last();
                r.unwrap().0 == t.0 && r.unwrap().1 == t.1 && *r.unwrap().2 == t.2
            }),
    {
        if self.lo < self.hi {
            let inner = self.inner;
            let p = &inner[self.hi - 1];
            Some((p.0.0, p.0.1, &p.1))
        } else {
            None
        }
    }

    /// Yield the next edge from the back of the view.
    pub fn next_back(&mut self) -> (r: Option<(N, N, &'a E)>)
        requires
            old(self).inv(),
        ensures
            final(self).inv(),
            final(self).inner_seq() == old(self).inner_seq(),
            old(self).remaining().len() == 0 ==> r is None && final(self).remaining() == old(
                self,
            ).remaining(),
            old(self).remaining().len() > 0 ==> r is Some && ({
                let t = old(self).remaining().last();
                r.unwrap().0 == t.0 && r.unwrap().1 == t.1 && *r.unwrap().2 == t.2
            }) && final(self).remaining() == old(self).remaining().drop_last(),
    {
        if self.lo < self.hi {
            let inner = self.inner;
            self.hi = self.hi - 1;
            let p = &inner[self.hi];
            proof {
                assert(self.remaining() =~= old(self).remaining().drop_last());
            }
            Some((p.0.0, p.0.1, &p.1))
        } else {
            None
        }
    }
}

/// Convert an element like `(i, j, w)` into a triple of source, target,
/// edge weight, for bulk construction of a graph.
pub trait IntoWeightedEdge<E>: Sized {
    /// The node identifier type of the edge descriptor.
    type NodeId;

    /// The triple the descriptor stands for.
    spec fn weighted_edge_spec(self) -> (Self::NodeId, Self::NodeId, E);

    /// Convert the descriptor into its triple.
    fn into_weighted_edge(self) -> (r: (Self::NodeId, Self::NodeId, E))
        ensures
            r == self.weighted_edge_spec(),
    ;
}

impl<Ix: Copy, E> IntoWeightedEdge<E> for (Ix, Ix, E) {
    type NodeId = Ix;

    open spec fn weighted_edge_spec(self) -> (Ix, Ix, E) {
        self
    }

    fn into_weighted_edge(self) -> (r: (Ix, Ix, E)) {
        self
    }
}

/// A bare pair describes an edge whose weight is the unit value; with `()`
/// as the weight type a graph can be built from endpoint pairs alone.
impl<Ix: Copy> IntoWeightedEdge<()> for (Ix, Ix) {
    type NodeId = Ix;

    open spec fn weighted_edge_spec(self) -> (Ix, Ix, ()) {
        (self.0, self.1, ())
    }

    fn into_weighted_edge(self) -> (r: (Ix, Ix, ())) {
        (self.0, self.1, ())
    }
}

impl<'a, Ix: Copy, E: Copy> IntoWeightedEdge<E> for &'a (Ix, Ix, E) {
    type NodeId = Ix;

    open spec fn weighted_edge_spec(self) -> (Ix, Ix, E) {
        *self
    }

    fn into_weighted_edge(self) -> (r: (Ix, Ix, E)) {
        *self
    }
}

/// Edge direction.
#[derive(Clone, Copy, Debug, PartialEq, Eq, PartialOrd, Ord, Hash, Structural)]
pub enum Direction {
    /// An `Outgoing` edge is an outward edge *from* the current node.
    Outgoing,
    /// An `Incoming` edge is an inbound edge *to* the current node.
    Incoming,
}

impl Direction {
    /// Return the opposite `Direction`.
    pub fn opposite(self) -> (r: Direction)
        ensures
            r == (match self {
                Direction::Outgoing => Direction::Incoming,
                Direction::Incoming => Direction::Outgoing,
            }),
    {
        match self {
            Direction::Outgoing => Direction::Incoming,
            Direction::Incoming => Direction::Outgoing,
        }
    }

    /// Return `0` for `Outgoing` and `1` for `Incoming`.
    pub fn index(self) -> (r: usize)
        ensures
            r == (match self {
                Direction::Outgoing => 0usize,
                Direction::Incoming => 1usize,
            }),
    {
        match self {
            Direction::Outgoing => 0,
            Direction::Incoming => 1,
        }
    }
}

/// The direction tag stored inside an adjacency entry.
#[derive(Clone, Copy, Debug, PartialEq, Eq, Structural)]
pub enum CompactDirection {
    /// The entry stands for an edge leaving the node that owns it.
    Outgoing,
    /// The entry stands for an edge arriving at the node that owns it.
    Incoming,
}

/// The adjacency tag corresponding to a `Direction`.
pub open spec fn compact_of(d: Direction) -> CompactDirection {
    match d {
        Direction::Outgoing => CompactDirection::Outgoing,
        Direction::Incoming => CompactDirection::Incoming,
    }
}

impl From<Direction> for CompactDirection {
    fn from(d: Direction) -> (r: Self) {
        match d {
            Direction::Outgoing => CompactDirection::Outgoing,
            Direction::Incoming => CompactDirection::Incoming,
        }
    }
}

impl vstd::std_specs::convert::FromSpecImpl<Direction> for CompactDirection {
    open spec fn obeys_from_spec() -> bool {
        true
    }

    open spec fn from_spec(d: Direction) -> Self {
        compact_of(d)
    }
}

} // verus!
