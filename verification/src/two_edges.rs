use vstd::prelude::*;
use crate::random::random_below;

verus! {

/// Marks an empty slot of a `TwoEdges`.
pub const NOEDGE: usize = 123456789;

/// The (at most two) cities next to one city in a tour, kept in two slots;
/// an empty slot holds `NOEDGE`.
#[derive(Clone, Copy)]
pub struct TwoEdges {
    pub edges: [usize; 2],
}

/// `e` holds `a` and `b`, in either order.
pub open spec fn holds_pair(e: [usize; 2], a: usize, b: usize) -> bool {
    (e[0] == a && e[1] == b) || (e[0] == b && e[1] == a)
}

impl TwoEdges {
    /// Both slots empty.
    pub fn new() -> (t: TwoEdges)
        ensures
            t.edges[0] == NOEDGE,
            t.edges[1] == NOEDGE,
    {
        TwoEdges { edges: [NOEDGE, NOEDGE] }
    }

    /// Puts `node` into the first empty slot; one slot must be empty.
    pub fn add(&mut self, node: usize)
        requires
            old(self).edges[0] == NOEDGE || old(self).edges[1] == NOEDGE,
        ensures
            old(self).edges[0] == NOEDGE ==> final(self).edges[0] == node && final(self).edges[1]
                == old(self).edges[1],
            old(self).edges[0] != NOEDGE ==> final(self).edges[0] == old(self).edges[0]
                && final(self).edges[1] == node,
    {
        if self.edges[0] == NOEDGE {
            self.edges = [node, self.edges[1]];
        } else {
            self.edges = [self.edges[0], node];
        }
    }

    /// The content of slot `ind`, `None` when it is empty.
    pub fn get(&self, ind: usize) -> (r: Option<usize>)
        requires
            ind < 2,
        ensures
            r == (if self.edges[ind as int] == NOEDGE {
                None
            } else {
                Some(self.edges[ind as int])
            }),
    {
        if self.edges[ind] == NOEDGE {
            None
        } else {
            Some(self.edges[ind])
        }
    }

    /// Whether either slot holds `node`.
    pub fn has(&self, node: usize) -> (r: bool)
        ensures
            r == (self.edges[0] == node || self.edges[1] == node),
    {
        self.edges[0] == node || self.edges[1] == node
    }

    /// Empties the first slot that holds `node`; one slot must hold it.
    pub fn remove(&mut self, node: usize)
        requires
            old(self).edges[0] == node || old(self).edges[1] == node,
        ensures
            old(self).edges[0] == node ==> final(self).edges[0] == NOEDGE && final(self).edges[1]
                == old(self).edges[1],
            old(self).edges[0] != node ==> final(self).edges[0] == old(self).edges[0]
                && final(self).edges[1] == NOEDGE,
    {
        if self.edges[0] == node {
            self.edges = [NOEDGE, self.edges[1]];
        } else {
            self.edges = [self.edges[0], NOEDGE];
        }
    }

    /// The content of one of the two slots, picked at random.
    pub fn rand(&self) -> (r: usize)
        ensures
            r == self.edges[0] || r == self.edges[1],
    {
        let i = random_below(2);
        self.edges[i]
    }
}

} // verus!
