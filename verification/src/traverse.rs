//! Graph traversing views: lazy cursors over the adjacency entries of one
//! node, filtered by direction where the graph is directed.

use vstd::prelude::*;
use core::marker::PhantomData;

use crate::edge::{compact_of, CompactDirection, Direction, EdgeType};
use crate::graph::Undirected;
use crate::model::{lemma_yields_step, yields};
use crate::node::NodeTrait;

verus! {

/// The adjacency entries behind an optional borrow; a missing node has no
/// entries.
pub open spec fn opt_entries<N>(entries: Option<&Vec<(N, CompactDirection)>>) -> Seq<
    (N, CompactDirection),
> {
    match entries {
        Some(v) => v@,
        None => Seq::empty(),
    }
}

/// A lazy, finite, non-restartable view over the nodes with an edge starting
/// from one node: for a directed graph only the outgoing entries are
/// yielded, for an undirected graph all of them.
pub struct Neighbors<'a, N, Ty = Undirected> where Ty: EdgeType {
    entries: Option<&'a Vec<(N, CompactDirection)>>,
    pos: usize,
    ty: PhantomData<Ty>,
}

impl<'a, N, Ty> Neighbors<'a, N, Ty> where N: NodeTrait + Copy, Ty: EdgeType {
    /// The adjacency entries under view.
    pub closed spec fn entries_seq(self) -> Seq<(N, CompactDirection)> {
        opt_entries(self.entries)
    }

    /// The cursor is within bounds.
    pub closed spec fn inv(self) -> bool {
        self.pos <= self.entries_seq().len()
    }

    /// The neighbors this view has yet to yield.
    pub closed spec fn remaining(self) -> Seq<N> {
        yields(
            self.entries_seq().skip(self.pos as int),
            Ty::is_directed_spec(),
            CompactDirection::Outgoing,
        )
    }

    /// Wrap the adjacency entries of one node, or none for a missing node.
    pub fn new(entries: Option<&'a Vec<(N, CompactDirection)>>, ty: PhantomData<Ty>) -> (it: Self)
        ensures
            it.inv(),
            it.entries_seq() == opt_entries(entries),
            it.remaining() == yields(
                opt_entries(entries),
                Ty::is_directed_spec(),
                CompactDirection::Outgoing,
            ),
    {
        let it = Self { entries, pos: 0, ty };
        proof {
            assert(it.entries_seq().skip(0) =~= it.entries_seq());
        }
        it
    }

    /// Yield the next neighbor, or `None` once the view is exhausted.
    #[verifier::loop_isolation(false)]
    pub fn next(&mut self) -> (r: Option<N>)
        requires
            old(self).inv(),
        ensures
            final(self).inv(),
            final(self).entries_seq() == old(self).entries_seq(),
            old(self).remaining().len() == 0 ==> r is None && final(self).remaining() == old(self).remaining(),
            old(self).remaining().len() > 0 ==> r == Some(old(self).remaining()[0]) && final(self).remaining() == old(self).remaining().drop_first(),
    {
        let v = match self.entries {
            None => {
                return None;
            },
            Some(v) => v,
        };
        let ghost es = v@;
        if Ty::is_directed() {
            let mut pos = self.pos;
            let ghost start = self.pos as int;
            while pos < v.len()
                invariant
                    *self == *old(self),
                    start <= pos <= es.len(),
                    yields(es.skip(start), true, CompactDirection::Outgoing) == yields(
                        es.skip(pos as int),
                        true,
                        CompactDirection::Outgoing,
                    ),
                decreases es.len() - pos,
            {
                let (n, dir) = v[pos];
                proof {
                    lemma_yields_step(es, true, CompactDirection::Outgoing, pos as int);
                }
                match dir {
                    CompactDirection::Outgoing => {
                        self.pos = pos + 1;
                        proof {
                            assert(old(self).remaining()[0] == n);
                            assert(self.remaining() =~= old(self).remaining().drop_first());
                        }
                        return Some(n);
                    },
                    CompactDirection::Incoming => {
                        pos = pos + 1;
                    },
                }
            }
            self.pos = pos;
            proof {
                assert(es.skip(pos as int) =~= Seq::<(N, CompactDirection)>::empty());
            }
            None
        } else {
            if self.pos < v.len() {
                let (n, _dir) = v[self.pos];
                proof {
                    lemma_yields_step(es, false, CompactDirection::Outgoing, self.pos as int);
                    assert(old(self).remaining()[0] == n);
                }
                self.pos = self.pos + 1;
                proof {
                    assert(self.remaining() =~= old(self).remaining().drop_first());
                }
                Some(n)
            } else {
                None
            }
        }
    }
}

/// A lazy, finite, non-restartable view over the neighbors that have an
/// edge between them and one node, in a chosen direction: for a directed
/// graph only the entries tagged with that direction are yielded; for an
/// undirected graph the direction is ignored and all entries are yielded.
pub struct NeighborsDirected<'a, N, Ty> where Ty: EdgeType {
    entries: Option<&'a Vec<(N, CompactDirection)>>,
    dir: Direction,
    pos: usize,
    ty: PhantomData<Ty>,
}

impl<'a, N, Ty> NeighborsDirected<'a, N, Ty> where N: NodeTrait + Copy, Ty: EdgeType {
    /// The adjacency entries under view.
    pub closed spec fn entries_seq(self) -> Seq<(N, CompactDirection)> {
        opt_entries(self.entries)
    }

    /// The direction the view filters for.
    pub closed spec fn dir_spec(self) -> Direction {
        self.dir
    }

    /// The cursor is within bounds.
    pub closed spec fn inv(self) -> bool {
        self.pos <= self.entries_seq().len()
    }

    /// The neighbors this view has yet to yield.
    pub closed spec fn remaining(self) -> Seq<N> {
        yields(
            self.entries_seq().skip(self.pos as int),
            Ty::is_directed_spec(),
            compact_of(self.dir_spec()),
        )
    }

    /// Wrap the adjacency entries of one node, or none for a missing node,
    /// filtering for direction `dir`.
    pub fn new(
        entries: Option<&'a Vec<(N, CompactDirection)>>,
        dir: Direction,
        ty: PhantomData<Ty>,
    ) -> (it: Self)
        ensures
            it.inv(),
            it.entries_seq() == opt_entries(entries),
            it.dir_spec() == dir,
            it.remaining() == yields(
                opt_entries(entries),
                Ty::is_directed_spec(),
                compact_of(dir),
            ),
    {
        let it = Self { entries, dir, pos: 0, ty };
        proof {
            assert(it.entries_seq().skip(0) =~= it.entries_seq());
        }
        it
    }

    /// Yield the next neighbor, or `None` once the view is exhausted.
    #[verifier::loop_isolation(false)]
    pub fn next(&mut self) -> (r: Option<N>)
        requires
            old(self).inv(),
        ensures
            final(self).inv(),
            final(self).entries_seq() == old(self).entries_seq(),
            final(self).dir_spec() == old(self).dir_spec(),
            old(self).remaining().len() == 0 ==> r is None && final(self).remaining() == old(self).remaining(),
            old(self).remaining().len() > 0 ==> r == Some(old(self).remaining()[0]) && final(self).remaining() == old(self).remaining().drop_first(),
    {
        let v = match self.entries {
            None => {
                return None;
            },
            Some(v) => v,
        };
        let ghost es = v@;
        if Ty::is_directed() {
            let want = CompactDirection::from(self.dir);
            let mut pos = self.pos;
            let ghost start = self.pos as int;
            while pos < v.len()
                invariant
                    *self == *old(self),
                    start <= pos <= es.len(),
                    yields(es.skip(start), true, compact_of(self.dir)) == yields(
                        es.skip(pos as int),
                        true,
                        compact_of(self.dir),
                    ),
                decreases es.len() - pos,
            {
                let (n, dir) = v[pos];
                proof {
                    lemma_yields_step(es, true, compact_of(self.dir), pos as int);
                }
                if dir == want {
                    self.pos = pos + 1;
                    proof {
                        assert(old(self).remaining()[0] == n);
                        assert(self.remaining() =~= old(self).remaining().drop_first());
                    }
                    return Some(n);
                }
                pos = pos + 1;
            }
            self.pos = pos;
            proof {
                assert(es.skip(pos as int) =~= Seq::<(N, CompactDirection)>::empty());
            }
            None
        } else {
            if self.pos < v.len() {
                let (n, _dir) = v[self.pos];
                proof {
                    lemma_yields_step(es, false, compact_of(self.dir), self.pos as int);
                    assert(old(self).remaining()[0] == n);
                }
                self.pos = self.pos + 1;
                proof {
                    assert(self.remaining() =~= old(self).remaining().drop_first());
                }
                Some(n)
            } else {
                None
            }
        }
    }
}

} // verus!
