//! One search direction of the bidirectional search: a FIFO queue of users
//! pending expansion, the set of users already discovered, and the parent map
//! recording which user discovered which.

use vstd::prelude::*;
use std::collections::{HashMap, HashSet, VecDeque};
use crate::chain::walk_reaches;
use crate::{lemma_push_contains, UserId};

verus! {

broadcast use vstd::std_specs::hash::group_hash_axioms;

pub struct Frontier {
    /// The user this direction grows from.
    pub root: UserId,
    /// Users pending expansion, in discovery order.
    pub queue: VecDeque<UserId>,
    /// Users already discovered in this direction.
    pub visited: HashSet<UserId>,
    /// For each discovered user other than the root, the user that
    /// discovered it.
    pub parents: HashMap<UserId, UserId>,
    /// The breadth-first depth at which each discovered user was found.
    pub depth: Ghost<Map<UserId, int>>,
}

impl Frontier {
    /// Well-formedness: the root is discovered, the parent map covers
    /// exactly the discovered users other than the root, each parent was
    /// itself discovered one level earlier, and everything queued is
    /// discovered.
    pub open spec fn inv(self) -> bool {
        &&& self.visited@.finite()
        &&& self.visited@.contains(self.root)
        &&& self.depth@[self.root] == 0
        &&& forall|v: UserId| #[trigger]
            self.parents@.dom().contains(v) ==> self.visited@.contains(v) && v != self.root
        &&& forall|v: UserId| #[trigger]
            self.visited@.contains(v) && v != self.root ==> self.parents@.dom().contains(v)
        &&& forall|v: UserId| #[trigger]
            self.visited@.contains(v) ==> self.depth@.dom().contains(v) && self.depth@[v] >= 0
        &&& forall|v: UserId| #[trigger]
            self.parents@.dom().contains(v) ==> self.visited@.contains(self.parents@[v])
                && self.depth@[v] == self.depth@[self.parents@[v]] + 1
        &&& forall|i: int|
            0 <= i < self.queue@.len() ==> self.visited@.contains(#[trigger] self.queue@[i])
    }

    /// A fresh frontier rooted at `root`: only the root is discovered and
    /// queued, and nothing has a parent yet.
    pub fn new(root: UserId) -> (f: Frontier)
        ensures
            f.inv(),
            f.root == root,
            f.visited@ == Set::<UserId>::empty().insert(root),
            f.parents@ == Map::<UserId, UserId>::empty(),
            f.queue@ == Seq::<UserId>::empty().push(root),
            f.depth@ == Map::<UserId, int>::empty().insert(root, 0),
    {
        let mut queue: VecDeque<UserId> = VecDeque::new();
        queue.push_back(root);
        let mut visited: HashSet<UserId> = HashSet::new();
        visited.insert(root);
        Frontier {
            root,
            queue,
            visited,
            parents: HashMap::new(),
            depth: Ghost(Map::<UserId, int>::empty().insert(root, 0)),
        }
    }
}

/// The abstract state the expansion step acts on, and its outcome.
pub struct Expansion {
    pub visited: Set<UserId>,
    pub parents: Map<UserId, UserId>,
    pub queue: Seq<UserId>,
    pub middle: Option<UserId>,
}

/// Exactly what expanding `user` against `friends` does, friend by friend
/// in list order: an already-discovered friend is skipped untouched; a new
/// one is recorded with `user` as its parent and queued at the back; the
/// first new one the other side already knows ends the expansion at once,
/// leaving the rest of the list untouched.
#[verifier::opaque]
pub open spec fn expand(
    state: Expansion,
    other: Set<UserId>,
    user: UserId,
    friends: Seq<UserId>,
) -> Expansion
    decreases friends.len(),
{
    if friends.len() == 0 || state.middle is Some {
        state
    } else {
        let f = friends[0];
        if state.visited.contains(f) {
            expand(state, other, user, friends.skip(1))
        } else {
            let next = Expansion {
                visited: state.visited.insert(f),
                parents: state.parents.insert(f, user),
                queue: state.queue.push(f),
                middle: if other.contains(f) {
                    Some(f)
                } else {
                    None
                },
            };
            if other.contains(f) {
                next
            } else {
                expand(next, other, user, friends.skip(1))
            }
        }
    }
}

/// The view of a frontier as the state the expansion step acts on.
pub open spec fn expansion_of(fr: Frontier, middle: Option<UserId>) -> Expansion {
    Expansion { visited: fr.visited@, parents: fr.parents@, queue: fr.queue@, middle }
}

/// Every discovered user's recorded depth is the length of its parent walk
/// back to the root.
pub proof fn lemma_frontier_walk(fr: Frontier, v: UserId)
    requires
        fr.inv(),
        fr.visited@.contains(v),
    ensures
        walk_reaches(fr.parents@, fr.root, v, fr.depth@[v] as nat),
    decreases fr.depth@[v],
{
    if v != fr.root {
        lemma_frontier_walk(fr, fr.parents@[v]);
    }
}

/// Expand one discovered user `user` of `frontier` against the friend list
/// `friends` reported for it. Every friend not yet discovered is recorded
/// with `user` as its parent and queued for later expansion; the first
/// newly discovered friend that the opposite direction has already
/// discovered is returned at once as the meeting user.
pub fn breadth_first_search(
    user: UserId,
    friends: &Vec<UserId>,
    frontier: &mut Frontier,
    other_visited: &HashSet<UserId>,
) -> (middle: Option<UserId>)
    requires
        old(frontier).inv(),
        old(frontier).visited@.contains(user),
    ensures
        final(frontier).inv(),
        final(frontier).root == old(frontier).root,
        expansion_of(*final(frontier), middle) == expand(
            expansion_of(*old(frontier), None),
            other_visited@,
            user,
            friends@,
        ),
        old(frontier).visited@.subset_of(final(frontier).visited@),
        forall|v: UserId| #[trigger]
            final(frontier).visited@.contains(v) ==> old(frontier).visited@.contains(v)
                || friends@.contains(v),
        forall|v: UserId| #[trigger]
            old(frontier).parents@.dom().contains(v) ==> final(frontier).parents@.dom().contains(v)
                && final(frontier).parents@[v] == old(frontier).parents@[v],
        forall|v: UserId| #[trigger]
            final(frontier).parents@.dom().contains(v) ==> old(frontier).parents@.dom().contains(v)
                || (friends@.contains(v) && final(frontier).parents@[v] == user),
        final(frontier).queue@.len() - old(frontier).queue@.len()
            == final(frontier).visited@.len() - old(frontier).visited@.len(),
        final(frontier).visited@.len() >= old(frontier).visited@.len(),
        forall|i: int|
            0 <= i < old(frontier).queue@.len()
                ==> final(frontier).queue@[i] == old(frontier).queue@[i],
        forall|v: UserId|
            final(frontier).visited@.contains(v) && !old(frontier).visited@.contains(v)
                ==> #[trigger] final(frontier).queue@.contains(v),
        forall|qi: int|
            old(frontier).queue@.len() <= qi < final(frontier).queue@.len()
                ==> !old(frontier).visited@.contains(#[trigger] final(frontier).queue@[qi]),
        forall|v: UserId| #[trigger]
            old(frontier).visited@.contains(v)
                ==> final(frontier).depth@[v] == old(frontier).depth@[v],
        forall|v: UserId| #[trigger]
            final(frontier).visited@.contains(v) && !old(frontier).visited@.contains(v)
                ==> final(frontier).depth@[v] == old(frontier).depth@[user] + 1,
        match middle {
            Some(m) => {
                &&& other_visited@.contains(m)
                &&& friends@.contains(m)
                &&& !old(frontier).visited@.contains(m)
                &&& final(frontier).visited@.contains(m)
                &&& final(frontier).parents@.dom().contains(m)
                &&& final(frontier).parents@[m] == user
                &&& forall|v: UserId| #[trigger]
                    final(frontier).visited@.contains(v) && !old(frontier).visited@.contains(v)
                        && v != m ==> !other_visited@.contains(v)
            },
            None => forall|f: UserId|
                friends@.contains(f) ==> #[trigger] final(frontier).visited@.contains(f)
                    && (old(frontier).visited@.contains(f) || !other_visited@.contains(f)),
        },
{
    let ghost fr0 = *frontier;
    proof {
        assert(friends@.skip(0) =~= friends@);
    }
    let mut i: usize = 0;
    while i < friends.len()
        invariant
            0 <= i <= friends.len(),
            fr0 == *old(frontier),
            expand(expansion_of(fr0, None), other_visited@, user, friends@) == expand(
                expansion_of(*frontier, None),
                other_visited@,
                user,
                friends@.skip(i as int),
            ),
            frontier.inv(),
            frontier.root == fr0.root,
            fr0.visited@.contains(user),
            fr0.visited@.subset_of(frontier.visited@),
            forall|v: UserId| #[trigger]
                frontier.visited@.contains(v) ==> fr0.visited@.contains(v) || friends@.contains(v),
            forall|v: UserId| #[trigger]
                fr0.parents@.dom().contains(v) ==> frontier.parents@.dom().contains(v)
                    && frontier.parents@[v] == fr0.parents@[v],
            forall|v: UserId| #[trigger]
                frontier.parents@.dom().contains(v) ==> fr0.parents@.dom().contains(v) || (
                friends@.contains(v) && frontier.parents@[v] == user),
            frontier.queue@.len() - fr0.queue@.len() == frontier.visited@.len()
                - fr0.visited@.len(),
            frontier.visited@.len() >= fr0.visited@.len(),
            forall|j: int|
                0 <= j < fr0.queue@.len() ==> frontier.queue@[j] == fr0.queue@[j],
            forall|v: UserId|
                frontier.visited@.contains(v) && !fr0.visited@.contains(v)
                    ==> #[trigger] frontier.queue@.contains(v),
            forall|qi: int|
                fr0.queue@.len() <= qi < frontier.queue@.len() ==> !fr0.visited@.contains(
                    #[trigger] frontier.queue@[qi],
                ),
            forall|j: int| 0 <= j < i ==> frontier.visited@.contains(#[trigger] friends@[j]),
            forall|v: UserId| #[trigger]
                frontier.visited@.contains(v) && !fr0.visited@.contains(v)
                    ==> !other_visited@.contains(v),
            forall|v: UserId| #[trigger]
                fr0.visited@.contains(v) ==> frontier.depth@[v] == fr0.depth@[v],
            forall|v: UserId| #[trigger]
                frontier.visited@.contains(v) && !fr0.visited@.contains(v)
                    ==> frontier.depth@[v] == fr0.depth@[user] + 1,
        decreases friends.len() - i,
    {
        let friend = friends[i];
        let ghost i0 = i as int;
        let ghost fr_iter = *frontier;
        i = i + 1;
        proof {
            assert(friends@.skip(i0)[0] == friends@[i0]);
            assert(friends@.skip(i0).skip(1) =~= friends@.skip(i0 + 1));
        }
        if frontier.visited.contains(&friend) {
            proof {
                reveal_with_fuel(expand, 1);
                assert(expand(expansion_of(fr_iter, None), other_visited@, user, friends@.skip(i0))
                    == expand(
                    expansion_of(*frontier, None),
                    other_visited@,
                    user,
                    friends@.skip(i0 + 1),
                ));
            }
            continue;
        }
        let ghost queue_before = frontier.queue@;
        frontier.parents.insert(friend, user);
        frontier.visited.insert(friend);
        frontier.queue.push_back(friend);
        proof {
            frontier.depth@ = frontier.depth@.insert(friend, frontier.depth@[user] + 1);
            assert forall|v: UserId|
                frontier.visited@.contains(v) && !fr0.visited@.contains(v) implies #[trigger]
                frontier.queue@.contains(v) by {
                lemma_push_contains(queue_before, friend, v);
            }
        }
        if other_visited.contains(&friend) {
            proof {
                reveal_with_fuel(expand, 1);
                assert(expand(expansion_of(fr_iter, None), other_visited@, user, friends@.skip(i0))
                    == expansion_of(*frontier, Some(friend)));
            }
            return Some(friend);
        }
        proof {
            reveal_with_fuel(expand, 1);
            assert(expand(expansion_of(fr_iter, None), other_visited@, user, friends@.skip(i0))
                == expand(
                expansion_of(*frontier, None),
                other_visited@,
                user,
                friends@.skip(i0 + 1),
            ));
        }
    }
    proof {
        reveal_with_fuel(expand, 1);
        assert(expand(
            expansion_of(*frontier, None),
            other_visited@,
            user,
            friends@.skip(friends@.len() as int),
        ) == expansion_of(*frontier, None));
    }
    None
}

} // verus!
