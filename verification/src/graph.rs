//! An in-memory friendship graph, the neighbor-lookup service the search
//! engine consumes. Each user id maps to the list of that user's friends in
//! insertion order; `add_friendship` records every friendship in both
//! directions, so an edge can be traversed either way.

use vstd::prelude::*;
use std::collections::HashMap;
use crate::{lemma_push_contains, UserId};

verus! {

broadcast use vstd::std_specs::hash::group_hash_axioms;

pub struct FriendGraph {
    pub adj: HashMap<UserId, Vec<UserId>>,
}

impl FriendGraph {
    /// The friends stored for `v`, in storage order; empty when `v` is unknown.
    pub open spec fn neighbors_of(self, v: UserId) -> Seq<UserId> {
        if self.adj@.dom().contains(v) {
            self.adj@[v]@
        } else {
            Seq::<UserId>::empty()
        }
    }

    /// `a` lists `b` among its friends.
    pub open spec fn connects(self, a: UserId, b: UserId) -> bool {
        self.neighbors_of(a).contains(b)
    }

    /// Every stored edge points at a stored user and is stored in both
    /// directions, so friendship is symmetric.
    pub open spec fn wf(self) -> bool {
        forall|a: UserId, b: UserId| #[trigger]
            self.connects(a, b) ==> self.adj@.dom().contains(b) && self.connects(b, a)
    }

    pub fn new() -> (g: FriendGraph)
        ensures
            g.wf(),
            g.adj@ == Map::<UserId, Vec<UserId>>::empty(),
    {
        let g = FriendGraph { adj: HashMap::new() };
        proof {
            assert forall|a: UserId, b: UserId| #[trigger] g.connects(a, b) implies false by {
                assert(!g.adj@.dom().contains(a));
            }
        }
        g
    }

    /// Record the friendship between `a` and `b`, in both directions.
    pub fn add_friendship(&mut self, a: UserId, b: UserId)
        requires
            old(self).wf(),
        ensures
            final(self).wf(),
            final(self).connects(a, b),
            final(self).connects(b, a),
            forall|x: UserId, y: UserId|
                old(self).connects(x, y) ==> #[trigger] final(self).connects(x, y),
            forall|x: UserId, y: UserId| #[trigger]
                final(self).connects(x, y) ==> old(self).connects(x, y) || (x == a && y == b) || (
                x == b && y == a),
    {
        let ghost g0 = *self;
        let mut list_a = match self.adj.remove(&a) {
            Some(l) => l,
            None => Vec::new(),
        };
        list_a.push(b);
        self.adj.insert(a, list_a);
        let ghost g1 = *self;
        proof {
            lemma_one_direction_added(g0, g1, a, b);
        }
        let mut list_b = match self.adj.remove(&b) {
            Some(l) => l,
            None => Vec::new(),
        };
        list_b.push(a);
        self.adj.insert(b, list_b);
        proof {
            lemma_one_direction_added(g1, *self, b, a);
            assert forall|x: UserId, y: UserId| #[trigger] self.connects(x, y) implies
                self.adj@.dom().contains(y) && self.connects(y, x) by {
                if old(self).connects(x, y) {
                    assert(old(self).adj@.dom().contains(y));
                }
            }
        }
    }
}

/// How the graph changes when one directed edge `a -> b` is appended:
/// `b` joins `a`'s friend list and every other adjacency stays as it was.
proof fn lemma_one_direction_added(g0: FriendGraph, g1: FriendGraph, a: UserId, b: UserId)
    requires
        g1.adj@ == g0.adj@.remove(a).insert(
            a,
            g1.adj@[a],
        ),
        g1.adj@.dom().contains(a),
        g1.adj@[a]@ == (if g0.adj@.dom().contains(a) {
            g0.adj@[a]@
        } else {
            Seq::<UserId>::empty()
        }).push(b),
    ensures
        g1.connects(a, b),
        forall|x: UserId, y: UserId| g0.connects(x, y) ==> #[trigger] g1.connects(x, y),
        forall|x: UserId, y: UserId| #[trigger]
            g1.connects(x, y) ==> g0.connects(x, y) || (x == a && y == b),
        forall|v: UserId| #[trigger]
            g1.adj@.dom().contains(v) <==> g0.adj@.dom().contains(v) || v == a,
{
    let old_a = if g0.adj@.dom().contains(a) {
        g0.adj@[a]@
    } else {
        Seq::<UserId>::empty()
    };
    lemma_push_contains(old_a, b, b);
    assert(g1.connects(a, b));
    assert forall|x: UserId, y: UserId| g0.connects(x, y) implies #[trigger] g1.connects(x, y) by {
        if x == a {
            lemma_push_contains(old_a, b, y);
        } else {
            assert(g1.neighbors_of(x) == g0.neighbors_of(x));
        }
    }
    assert forall|x: UserId, y: UserId| #[trigger]
        g1.connects(x, y) implies g0.connects(x, y) || (x == a && y == b) by {
        if x == a {
            lemma_push_contains(old_a, b, y);
        } else {
            assert(g1.neighbors_of(x) == g0.neighbors_of(x));
        }
    }
}

} // verus!

