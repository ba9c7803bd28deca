//! The capability a node identifier must offer: equality decidable at run
//! time, a total order, and cheap copying.

use vstd::prelude::*;

use crate::edge::CompactDirection;

verus! {

/// A lazy, finite, non-restartable view over the nodes of a graph, in
/// insertion order.
pub struct Nodes<'a, N> {
    nodes: &'a Vec<(N, Vec<(N, CompactDirection)>)>,
    pos: usize,
}

impl<'a, N: NodeTrait + Copy> Nodes<'a, N> {
    /// The cursor is within bounds.
    pub closed spec fn inv(self) -> bool {
        self.pos <= self.nodes@.len()
    }

    /// The node identifiers this view has yet to yield.
    pub closed spec fn remaining(self) -> Seq<N> {
        self.nodes@.skip(self.pos as int).map_values(
            |p: (N, Vec<(N, CompactDirection)>)| p.0,
        )
    }

    /// Wrap a node store whole.
    pub fn new(nodes: &'a Vec<(N, Vec<(N, CompactDirection)>)>) -> (it: Self)
        ensures
            it.inv(),
            it.remaining() == nodes@.map_values(|p: (N, Vec<(N, CompactDirection)>)| p.0),
    {
        let it = Self { nodes, pos: 0 };
        proof {
            assert(it.nodes@.skip(0) =~= it.nodes@);
        }
        it
    }

    /// Yield the next node, or `None` once the view is exhausted.
    pub fn next(&mut self) -> (r: Option<N>)
        requires
            old(self).inv(),
        ensures
            final(self).inv(),
            old(self).remaining().len() == 0 ==> r is None && final(self).remaining() == old(self).remaining(),
            old(self).remaining().len() > 0 ==> r == Some(old(self).remaining()[0]) && final(self).remaining() == old(self).remaining().drop_first(),
    {
        if self.pos < self.nodes.len() {
            let n = self.nodes[self.pos].0;
            self.pos = self.pos + 1;
            proof {
                assert(self.remaining() =~= old(self).remaining().drop_first());
            }
            Some(n)
        } else {
            None
        }
    }
}

/// A node identifier: a value with a decidable equality and a total order;
/// where it is used as a key it must also be cheap to copy.  The order is what `edge_key` uses to canonicalize the endpoint
/// pair of an undirected edge.
pub trait NodeTrait: Sized {
    /// The total order on node identifiers, as a mathematical relation.
    spec fn le_spec(self, other: Self) -> bool;

    /// Any two identifiers are comparable.
    proof fn le_total(a: Self, b: Self)
        ensures
            a.le_spec(b) || b.le_spec(a),
    ;

    /// Identifiers ordered both ways are equal.
    proof fn le_antisymmetric(a: Self, b: Self)
        requires
            a.le_spec(b),
            b.le_spec(a),
        ensures
            a == b,
    ;

    /// The order composes.
    proof fn le_transitive(a: Self, b: Self, c: Self)
        requires
            a.le_spec(b),
            b.le_spec(c),
        ensures
            a.le_spec(c),
    ;

    /// Decide the order.
    fn le(&self, other: &Self) -> (r: bool)
        ensures
            r == self.le_spec(*other),
    ;

    /// Decide equality.
    fn eq_node(&self, other: &Self) -> (r: bool)
        ensures
            r == (*self == *other),
    ;
}

impl NodeTrait for u8 {
    open spec fn le_spec(self, other: Self) -> bool {
        self <= other
    }

    proof fn le_total(a: Self, b: Self) {
    }

    proof fn le_antisymmetric(a: Self, b: Self) {
    }

    proof fn le_transitive(a: Self, b: Self, c: Self) {
    }

    fn le(&self, other: &Self) -> (r: bool) {
        *self <= *other
    }

    fn eq_node(&self, other: &Self) -> (r: bool) {
        *self == *other
    }
}

impl NodeTrait for u16 {
    open spec fn le_spec(self, other: Self) -> bool {
        self <= other
    }

    proof fn le_total(a: Self, b: Self) {
    }

    proof fn le_antisymmetric(a: Self, b: Self) {
    }

    proof fn le_transitive(a: Self, b: Self, c: Self) {
    }

    fn le(&self, other: &Self) -> (r: bool) {
        *self <= *other
    }

    fn eq_node(&self, other: &Self) -> (r: bool) {
        *self == *other
    }
}

impl NodeTrait for u32 {
    open spec fn le_spec(self, other: Self) -> bool {
        self <= other
    }

    proof fn le_total(a: Self, b: Self) {
    }

    proof fn le_antisymmetric(a: Self, b: Self) {
    }

    proof fn le_transitive(a: Self, b: Self, c: Self) {
    }

    fn le(&self, other: &Self) -> (r: bool) {
        *self <= *other
    }

    fn eq_node(&self, other: &Self) -> (r: bool) {
        *self == *other
    }
}

impl NodeTrait for u64 {
    open spec fn le_spec(self, other: Self) -> bool {
        self <= other
    }

    proof fn le_total(a: Self, b: Self) {
    }

    proof fn le_antisymmetric(a: Self, b: Self) {
    }

    proof fn le_transitive(a: Self, b: Self, c: Self) {
    }

    fn le(&self, other: &Self) -> (r: bool) {
        *self <= *other
    }

    fn eq_node(&self, other: &Self) -> (r: bool) {
        *self == *other
    }
}

impl NodeTrait for usize {
    open spec fn le_spec(self, other: Self) -> bool {
        self <= other
    }

    proof fn le_total(a: Self, b: Self) {
    }

    proof fn le_antisymmetric(a: Self, b: Self) {
    }

    proof fn le_transitive(a: Self, b: Self, c: Self) {
    }

    fn le(&self, other: &Self) -> (r: bool) {
        *self <= *other
    }

    fn eq_node(&self, other: &Self) -> (r: bool) {
        *self == *other
    }
}

impl NodeTrait for i8 {
    open spec fn le_spec(self, other: Self) -> bool {
        self <= other
    }

    proof fn le_total(a: Self, b: Self) {
    }

    proof fn le_antisymmetric(a: Self, b: Self) {
    }

    proof fn le_transitive(a: Self, b: Self, c: Self) {
    }

    fn le(&self, other: &Self) -> (r: bool) {
        *self <= *other
    }

    fn eq_node(&self, other: &Self) -> (r: bool) {
        *self == *other
    }
}

impl NodeTrait for i16 {
    open spec fn le_spec(self, other: Self) -> bool {
        self <= other
    }

    proof fn le_total(a: Self, b: Self) {
    }

    proof fn le_antisymmetric(a: Self, b: Self) {
    }

    proof fn le_transitive(a: Self, b: Self, c: Self) {
    }

    fn le(&self, other: &Self) -> (r: bool) {
        *self <= *other
    }

    fn eq_node(&self, other: &Self) -> (r: bool) {
        *self == *other
    }
}

impl NodeTrait for i32 {
    open spec fn le_spec(self, other: Self) -> bool {
        self <= other
    }

    proof fn le_total(a: Self, b: Self) {
    }

    proof fn le_antisymmetric(a: Self, b: Self) {
    }

    proof fn le_transitive(a: Self, b: Self, c: Self) {
    }

    fn le(&self, other: &Self) -> (r: bool) {
        *self <= *other
    }

    fn eq_node(&self, other: &Self) -> (r: bool) {
        *self == *other
    }
}

impl NodeTrait for i64 {
    open spec fn le_spec(self, other: Self) -> bool {
        self <= other
    }

    proof fn le_total(a: Self, b: Self) {
    }

    proof fn le_antisymmetric(a: Self, b: Self) {
    }

    proof fn le_transitive(a: Self, b: Self, c: Self) {
    }

    fn le(&self, other: &Self) -> (r: bool) {
        *self <= *other
    }

    fn eq_node(&self, other: &Self) -> (r: bool) {
        *self == *other
    }
}

impl NodeTrait for isize {
    open spec fn le_spec(self, other: Self) -> bool {
        self <= other
    }

    proof fn le_total(a: Self, b: Self) {
    }

    proof fn le_antisymmetric(a: Self, b: Self) {
    }

    proof fn le_transitive(a: Self, b: Self, c: Self) {
    }

    fn le(&self, other: &Self) -> (r: bool) {
        *self <= *other
    }

    fn eq_node(&self, other: &Self) -> (r: bool) {
        *self == *other
    }
}


/// Pairs of identifiers order lexicographically: by the first component,
/// then by the second.
impl<A: NodeTrait, B: NodeTrait> NodeTrait for (A, B) {
    open spec fn le_spec(self, other: Self) -> bool {
        (self.0 != other.0 && self.0.le_spec(other.0)) || (self.0 == other.0 && self.1.le_spec(
            other.1,
        ))
    }

    proof fn le_total(a: Self, b: Self) {
        if a.0 == b.0 {
            B::le_total(a.1, b.1);
        } else {
            A::le_total(a.0, b.0);
        }
    }

    proof fn le_antisymmetric(a: Self, b: Self) {
        if a.0 != b.0 {
            A::le_antisymmetric(a.0, b.0);
        } else {
            B::le_antisymmetric(a.1, b.1);
        }
    }

    proof fn le_transitive(a: Self, b: Self, c: Self) {
        if a.0 != b.0 && b.0 != c.0 {
            A::le_transitive(a.0, b.0, c.0);
            if a.0 == c.0 {
                A::le_antisymmetric(a.0, b.0);
            }
        } else if a.0 == b.0 && b.0 == c.0 {
            B::le_transitive(a.1, b.1, c.1);
        }
    }

    fn le(&self, other: &Self) -> (r: bool) {
        if self.0.eq_node(&other.0) {
            self.1.le(&other.1)
        } else {
            self.0.le(&other.0)
        }
    }

    fn eq_node(&self, other: &Self) -> (r: bool) {
        self.0.eq_node(&other.0) && self.1.eq_node(&other.1)
    }
}

} // verus!
