//! Shortest chains of friends in a social-network graph.
//!
//! The crate finds the shortest chain of mutual-friend relationships between
//! two users with a bidirectional breadth-first search: one frontier grows
//! from the start user, one from the end user, and the search stops as soon
//! as the two frontiers meet.

use vstd::prelude::*;

mod chain;
mod frontier;
mod graph;
mod search;

pub use chain::{chain_link, construct_chain_of_friends, parent_map_wf};
pub use frontier::{breadth_first_search, Frontier};
pub use graph::FriendGraph;
pub use search::{connected, find_shortest_chain, is_path};

verus! {

/// A user is identified by an opaque integer id.
pub type UserId = i64;

/// An ordered sequence of user ids from start to end inclusive, each
/// consecutive pair being a friendship; the empty sequence means that no
/// chain exists.
pub type ChainOfFriends = Vec<UserId>;

/// Membership in a sequence after a push: the pushed element is a member,
/// and exactly the prior members stay members besides it.
pub(crate) proof fn lemma_push_contains<A>(s: Seq<A>, x: A, y: A)
    ensures
        s.push(x).contains(y) <==> (s.contains(y) || y == x),
{
    if s.contains(y) {
        let i = choose|i: int| 0 <= i < s.len() && s[i] == y;
        assert(s.push(x)[i] == y);
    }
    if y == x {
        assert(s.push(x)[s.len() as int] == y);
    }
    if s.push(x).contains(y) {
        let i = choose|i: int| 0 <= i < s.push(x).len() && s.push(x)[i] == y;
        if i < s.len() {
            assert(s[i] == y);
        }
    }
}

} // verus!
