//! The bidirectional search engine: two frontiers, one rooted at the start
//! user and one at the end user, expand one whole breadth-first level per
//! round in turn, and the search stops as soon as they meet. Because each
//! side's levels are complete before the next begins, the first meeting
//! yields a chain no longer than any other chain: the result is shortest.

use vstd::prelude::*;
use std::collections::HashSet;
use crate::chain::{chain_link, construct_chain_of_friends, parent_depth_ok};
use crate::frontier::{breadth_first_search, lemma_frontier_walk, Frontier};
use crate::graph::FriendGraph;
use crate::{ChainOfFriends, UserId};
use vstd::set_lib::lemma_len_subset;

verus! {

broadcast use vstd::std_specs::hash::group_hash_axioms;

/// `p` is a chain of friendships from `s` to `e`: it starts at `s`, ends at
/// `e`, and each consecutive pair is a stored edge.
pub open spec fn is_path(g: FriendGraph, p: Seq<UserId>, s: UserId, e: UserId) -> bool {
    &&& p.len() >= 1
    &&& p[0] == s
    &&& p[p.len() - 1] == e
    &&& forall|i: int| 0 <= i < p.len() - 1 ==> g.connects(#[trigger] p[i], p[i + 1])
}

/// Some chain of friendships joins `s` to `e` (always true for `s == e`).
pub open spec fn connected(g: FriendGraph, s: UserId, e: UserId) -> bool {
    exists|p: Seq<UserId>| is_path(g, p, s, e)
}

/// A set of users is closed under friendship: every friend of a member is a
/// member. Once a frontier has expanded all its discovered users, its
/// visited set is closed, so it holds the whole connected component.
proof fn lemma_path_stays_in_closed_set(g: FriendGraph, p: Seq<UserId>, s: Set<UserId>)
    requires
        p.len() >= 1,
        s.contains(p[0]),
        forall|j: int| 0 <= j < p.len() - 1 ==> g.connects(#[trigger] p[j], p[j + 1]),
        forall|v: UserId, w: UserId| s.contains(v) && #[trigger] g.connects(v, w) ==> s.contains(w),
    ensures
        s.contains(p[p.len() - 1]),
    decreases p.len(),
{
    if p.len() > 1 {
        let rest = p.subrange(1, p.len() as int);
        assert(g.connects(p[0], p[1]));
        assert(s.contains(p[1]));
        assert(rest[0] == p[1]);
        assert forall|j: int| 0 <= j < rest.len() - 1 implies g.connects(
            #[trigger] rest[j],
            rest[j + 1],
        ) by {
            assert(rest[j] == p[j + 1]);
            assert(rest[j + 1] == p[j + 2]);
        }
        lemma_path_stays_in_closed_set(g, rest, s);
        assert(rest[rest.len() - 1] == p[p.len() - 1]);
    }
}

/// A frontier whose levels are complete up to `bound` holds every user a
/// path of at most `bound` steps can reach, at a depth no more than the
/// number of steps taken: walking a path never escapes the ball.
proof fn lemma_path_in_ball(
    g: FriendGraph,
    p: Seq<UserId>,
    vis: Set<UserId>,
    dep: Map<UserId, int>,
    bound: int,
    i: int,
)
    requires
        forall|v: UserId, w: UserId|
            vis.contains(v) && dep[v] < bound && #[trigger] g.connects(v, w) ==> vis.contains(w)
                && dep[w] <= dep[v] + 1,
        forall|j: int| 0 <= j < p.len() - 1 ==> g.connects(#[trigger] p[j], p[j + 1]),
        0 <= i < p.len(),
        i <= bound,
        vis.contains(p[0]),
        dep[p[0]] <= 0,
    ensures
        vis.contains(p[i]) && dep[p[i]] <= i,
    decreases i,
{
    if i > 0 {
        lemma_path_in_ball(g, p, vis, dep, bound, i - 1);
        assert(g.connects(p[i - 1], p[i]));
    }
}

/// No chain of friendships can be shorter than the one through the meeting
/// user: a shorter chain would have to cross from the forward ball into the
/// backward ball at some user both sides have discovered, and the meeting
/// user is the only such user.
proof fn lemma_shorter_path_impossible(
    g: FriendGraph,
    vis_f: Set<UserId>,
    dep_f: Map<UserId, int>,
    bf: int,
    vis_b: Set<UserId>,
    dep_b: Map<UserId, int>,
    bb: int,
    start: UserId,
    end: UserId,
    middle: UserId,
    p: Seq<UserId>,
)
    requires
        g.wf(),
        forall|v: UserId, w: UserId|
            vis_f.contains(v) && dep_f[v] < bf && #[trigger] g.connects(v, w) ==> vis_f.contains(w)
                && dep_f[w] <= dep_f[v] + 1,
        forall|v: UserId, w: UserId|
            vis_b.contains(v) && dep_b[v] < bb && #[trigger] g.connects(v, w) ==> vis_b.contains(w)
                && dep_b[w] <= dep_b[v] + 1,
        vis_f.contains(start),
        dep_f[start] <= 0,
        vis_b.contains(end),
        dep_b[end] <= 0,
        forall|v: UserId| vis_f.contains(v) && #[trigger] vis_b.contains(v) ==> v == middle,
        dep_f[middle] + dep_b[middle] <= bf + bb + 1,
        bf >= 0,
        bb >= 0,
        is_path(g, p, start, end),
    ensures
        p.len() >= dep_f[middle] + dep_b[middle] + 1,
{
    let pl = p.len() - 1;
    if pl <= bf + bb {
        let i = if pl <= bf {
            pl
        } else {
            bf
        };
        lemma_path_in_ball(g, p, vis_f, dep_f, bf, i);
        let q = Seq::new(p.len(), |t: int| p[p.len() - 1 - t]);
        assert forall|t: int| 0 <= t < q.len() - 1 implies g.connects(
            #[trigger] q[t],
            q[t + 1],
        ) by {
            assert(q[t] == p[p.len() - 1 - t]);
            assert(q[t + 1] == p[p.len() - 2 - t]);
            assert(g.connects(p[p.len() - 2 - t], p[p.len() - 1 - t]));
        }
        lemma_path_in_ball(g, q, vis_b, dep_b, bb, pl - i);
        assert(q[pl - i] == p[i]);
        assert(p[i] == middle);
    }
}

/// Everything the search returns at a meeting: the reconstructed chain is a
/// genuine chain of friendships from start to end, no other chain is
/// shorter, and a direct friendship forces the two-user chain.
proof fn lemma_meeting_chain(
    g: FriendGraph,
    ps: Map<UserId, UserId>,
    pe: Map<UserId, UserId>,
    vis_f: Set<UserId>,
    dep_f: Map<UserId, int>,
    bf: int,
    vis_b: Set<UserId>,
    dep_b: Map<UserId, int>,
    bb: int,
    start: UserId,
    end: UserId,
    middle: UserId,
    found: Seq<UserId>,
)
    requires
        g.wf(),
        start != end,
        found.len() >= 1,
        found[0] == start,
        found[found.len() - 1] == end,
        forall|i: int|
            0 <= i < found.len() - 1 ==> chain_link(ps, pe, found[i], #[trigger] found[i + 1]),
        forall|v: UserId| #[trigger] ps.dom().contains(v) ==> g.connects(ps[v], v),
        forall|v: UserId| #[trigger] pe.dom().contains(v) ==> g.connects(pe[v], v),
        forall|v: UserId, w: UserId|
            vis_f.contains(v) && dep_f[v] < bf && #[trigger] g.connects(v, w) ==> vis_f.contains(w)
                && dep_f[w] <= dep_f[v] + 1,
        forall|v: UserId, w: UserId|
            vis_b.contains(v) && dep_b[v] < bb && #[trigger] g.connects(v, w) ==> vis_b.contains(w)
                && dep_b[w] <= dep_b[v] + 1,
        vis_f.contains(start),
        dep_f[start] <= 0,
        vis_b.contains(end),
        dep_b[end] <= 0,
        forall|v: UserId| vis_f.contains(v) && #[trigger] vis_b.contains(v) ==> v == middle,
        found.len() == dep_f[middle] + dep_b[middle] + 1,
        dep_f[middle] + dep_b[middle] <= bf + bb + 1,
        bf >= 0,
        bb >= 0,
    ensures
        is_path(g, found, start, end),
        forall|p: Seq<UserId>| #[trigger] is_path(g, p, start, end) ==> p.len() >= found.len(),
        g.connects(start, end) ==> found == seq![start, end],
{
    assert forall|i: int| 0 <= i < found.len() - 1 implies g.connects(
        #[trigger] found[i],
        found[i + 1],
    ) by {
        let a = found[i];
        let b = found[i + 1];
        assert(chain_link(ps, pe, a, b));
        if pe.dom().contains(a) && pe[a] == b {
            assert(g.connects(b, a));
        }
    }
    assert(is_path(g, found, start, end));
    assert forall|p: Seq<UserId>| #[trigger]
        is_path(g, p, start, end) implies p.len() >= found.len() by {
        lemma_shorter_path_impossible(g, vis_f, dep_f, bf, vis_b, dep_b, bb, start, end, middle, p);
    }
    if g.connects(start, end) {
        assert(is_path(g, seq![start, end], start, end));
        assert(found.len() <= 2);
        assert(found =~= seq![start, end]);
    }
}

/// Expand a single user of the level at depth `d`: pop the next queued
/// user, look its friends up, and hand them to the expansion step. `head`
/// is the frontier as it stood when the level began, and `j` counts how
/// many of its queued users have been expanded already.
#[verifier::loop_isolation(false)]
#[verifier::rlimit(100)]
fn expand_one(
    graph: &FriendGraph,
    frontier: &mut Frontier,
    other_visited: &HashSet<UserId>,
    Ghost(d): Ghost<int>,
    Ghost(head): Ghost<Frontier>,
    Ghost(j): Ghost<int>,
) -> (middle: Option<UserId>)
    requires
        graph.wf(),
        d >= 0,
        head.inv(),
        0 <= j < head.queue@.len(),
        forall|qi: int|
            0 <= qi < head.queue@.len() ==> head.depth@[#[trigger] head.queue@[qi]] == d,
        forall|v: UserId| #[trigger] head.visited@.contains(v) ==> head.depth@[v] <= d,
        old(frontier).inv(),
        old(frontier).root == head.root,
        forall|v: UserId| #[trigger]
            head.visited@.contains(v) ==> old(frontier).visited@.contains(v) && old(frontier).depth@[v] == head.depth@[v],
        forall|v: UserId| #[trigger]
            old(frontier).visited@.contains(v) && !head.visited@.contains(v) ==> old(frontier).depth@[v] == d + 1 && old(frontier).queue@.contains(v),
        old(frontier).queue@.len() >= head.queue@.len() - j,
        forall|idx: int|
            0 <= idx < head.queue@.len() - j ==> #[trigger] old(frontier).queue@[idx]
                == head.queue@[j + idx],
        forall|idx: int|
            head.queue@.len() - j <= idx < old(frontier).queue@.len()
                ==> !head.visited@.contains(#[trigger] old(frontier).queue@[idx]),
        old(frontier).queue@.len() - (head.queue@.len() - j) == old(frontier).visited@.len()
            - head.visited@.len(),
        forall|idx: int, w: UserId|
            0 <= idx < j && #[trigger] graph.connects(head.queue@[idx], w) ==> old(frontier).visited@.contains(w) && old(frontier).depth@[w] <= d + 1,
        forall|v: UserId| #[trigger]
            old(frontier).visited@.contains(v) ==> !other_visited@.contains(v),
        forall|v: UserId| #[trigger]
            old(frontier).parents@.dom().contains(v) ==> graph.connects(
                old(frontier).parents@[v],
                v,
            ),
        forall|v: UserId| #[trigger]
            old(frontier).visited@.contains(v) ==> graph.adj@.dom().contains(v) || v == old(frontier).root,
        old(frontier).visited@.len() <= graph.adj@.dom().len() + 1,
        forall|v: UserId, w: UserId|
            old(frontier).visited@.contains(v) && old(frontier).depth@[v] < d
                && #[trigger] graph.connects(v, w) ==> old(frontier).visited@.contains(w) && old(frontier).depth@[w] <= old(frontier).depth@[v] + 1,
    ensures
        final(frontier).inv(),
        final(frontier).root == head.root,
        forall|v: UserId| #[trigger]
            head.visited@.contains(v) ==> final(frontier).visited@.contains(v) && final(frontier).depth@[v] == head.depth@[v],
        forall|v: UserId| #[trigger]
            final(frontier).visited@.contains(v) && !head.visited@.contains(v) ==> final(frontier).depth@[v] == d + 1 && final(frontier).queue@.contains(v),
        final(frontier).queue@.len() >= head.queue@.len() - (j + 1),
        forall|idx: int|
            0 <= idx < head.queue@.len() - (j + 1) ==> #[trigger] final(frontier).queue@[idx]
                == head.queue@[j + 1 + idx],
        forall|idx: int|
            head.queue@.len() - (j + 1) <= idx < final(frontier).queue@.len()
                ==> !head.visited@.contains(#[trigger] final(frontier).queue@[idx]),
        final(frontier).queue@.len() - (head.queue@.len() - (j + 1)) == final(frontier).visited@.len() - head.visited@.len(),
        forall|v: UserId| #[trigger]
            final(frontier).parents@.dom().contains(v) ==> graph.connects(
                final(frontier).parents@[v],
                v,
            ),
        forall|v: UserId| #[trigger]
            final(frontier).visited@.contains(v) ==> graph.adj@.dom().contains(v) || v == final(frontier).root,
        final(frontier).visited@.len() <= graph.adj@.dom().len() + 1,
        forall|v: UserId, w: UserId|
            final(frontier).visited@.contains(v) && final(frontier).depth@[v] < d
                && #[trigger] graph.connects(v, w) ==> final(frontier).visited@.contains(w)
                && final(frontier).depth@[w] <= final(frontier).depth@[v] + 1,
        match middle {
            None => {
                &&& forall|idx: int, w: UserId|
                    0 <= idx < j + 1 && #[trigger] graph.connects(head.queue@[idx], w) ==> final(frontier).visited@.contains(w) && final(frontier).depth@[w] <= d + 1
                &&& forall|v: UserId| #[trigger]
                    final(frontier).visited@.contains(v) ==> !other_visited@.contains(v)
            },
            Some(m) => {
                &&& final(frontier).visited@.contains(m)
                &&& other_visited@.contains(m)
                &&& forall|v: UserId| #[trigger]
                    final(frontier).visited@.contains(v) && other_visited@.contains(v) ==> v == m
            },
        },
{
    let ghost q_iter = frontier.queue@;
    let empty_friends: Vec<UserId> = Vec::new();
    let user = frontier.queue.pop_front().unwrap();
    proof {
        assert(user == head.queue@[j]);
        assert(head.visited@.contains(user));
        assert(frontier.depth@[user] == d);
    }
    let ghost fr_pre = *frontier;
    let friends = match graph.adj.get(&user) {
        Some(l) => l,
        None => &empty_friends,
    };
    proof {
        assert(friends@ =~= graph.neighbors_of(user));
    }
    let middle = breadth_first_search(user, friends, frontier, other_visited);
    proof {
        assert forall|v: UserId| #[trigger]
            frontier.visited@.contains(v) implies graph.adj@.dom().contains(v) || v
            == frontier.root by {
            if friends@.contains(v) && !fr_pre.visited@.contains(v) {
                assert(graph.connects(user, v));
            }
        }
        lemma_len_subset(frontier.visited@, graph.adj@.dom().insert(frontier.root));
        assert forall|v: UserId| #[trigger]
            frontier.visited@.contains(v) && !head.visited@.contains(v) implies frontier.depth@[v]
            == d + 1 && frontier.queue@.contains(v) by {
            if fr_pre.visited@.contains(v) {
                assert(q_iter.contains(v));
                let idx = choose|idx: int| 0 <= idx < q_iter.len() && q_iter[idx] == v;
                assert(q_iter[0] == head.queue@[j]);
                assert(head.visited@.contains(q_iter[0]));
                assert(idx >= 1);
                assert(fr_pre.queue@[idx - 1] == v);
                assert(frontier.queue@[idx - 1] == v);
                assert(frontier.queue@.contains(v));
            } else {
                assert(frontier.queue@.contains(v));
            }
        }
        if middle is None {
            assert forall|idx: int, w: UserId|
                0 <= idx < j + 1 && #[trigger] graph.connects(head.queue@[idx], w) implies
                frontier.visited@.contains(w) && frontier.depth@[w] <= d + 1 by {
                if idx == j {
                    assert(friends@.contains(w));
                    assert(frontier.visited@.contains(w));
                }
            }
        }
    }
    middle
}

/// Expand one whole breadth-first level of `frontier`, whose queue holds
/// exactly the users at depth `d`, against the other direction's visited
/// set. Stops at once on a meeting user; otherwise the queue afterwards
/// holds exactly the users of depth `d + 1`.
#[verifier::loop_isolation(false)]
#[verifier::rlimit(100)]
fn expand_level(
    graph: &FriendGraph,
    frontier: &mut Frontier,
    other_visited: &HashSet<UserId>,
    Ghost(d): Ghost<int>,
) -> (middle: Option<UserId>)
    requires
        graph.wf(),
        old(frontier).inv(),
        d >= 0,
        old(frontier).queue@.len() > 0,
        forall|qi: int|
            0 <= qi < old(frontier).queue@.len() ==> old(frontier).depth@[#[trigger] old(frontier).queue@[qi]] == d,
        forall|v: UserId| #[trigger]
            old(frontier).visited@.contains(v) ==> old(frontier).depth@[v] <= d,
        forall|v: UserId| #[trigger]
            old(frontier).visited@.contains(v) && old(frontier).depth@[v] == d ==> old(frontier).queue@.contains(v),
        forall|v: UserId, w: UserId|
            old(frontier).visited@.contains(v) && old(frontier).depth@[v] < d
                && #[trigger] graph.connects(v, w) ==> old(frontier).visited@.contains(w) && old(frontier).depth@[w] <= old(frontier).depth@[v] + 1,
        forall|v: UserId| #[trigger]
            old(frontier).visited@.contains(v) ==> !other_visited@.contains(v),
        forall|v: UserId| #[trigger]
            old(frontier).parents@.dom().contains(v) ==> graph.connects(
                old(frontier).parents@[v],
                v,
            ),
        forall|v: UserId| #[trigger]
            old(frontier).visited@.contains(v) ==> graph.adj@.dom().contains(v) || v == old(frontier).root,
        old(frontier).visited@.len() <= graph.adj@.dom().len() + 1,
    ensures
        final(frontier).inv(),
        final(frontier).root == old(frontier).root,
        forall|v: UserId| #[trigger]
            old(frontier).visited@.contains(v) ==> final(frontier).visited@.contains(v) && final(frontier).depth@[v] == old(frontier).depth@[v],
        forall|v: UserId| #[trigger]
            final(frontier).visited@.contains(v) && !old(frontier).visited@.contains(v) ==> final(frontier).depth@[v] == d + 1,
        forall|v: UserId| #[trigger]
            final(frontier).visited@.contains(v) ==> final(frontier).depth@[v] <= d + 1,
        forall|v: UserId| #[trigger]
            final(frontier).parents@.dom().contains(v) ==> graph.connects(
                final(frontier).parents@[v],
                v,
            ),
        forall|v: UserId| #[trigger]
            final(frontier).visited@.contains(v) ==> graph.adj@.dom().contains(v) || v == final(frontier).root,
        final(frontier).visited@.len() <= graph.adj@.dom().len() + 1,
        forall|v: UserId, w: UserId|
            final(frontier).visited@.contains(v) && final(frontier).depth@[v] < d
                && #[trigger] graph.connects(v, w) ==> final(frontier).visited@.contains(w)
                && final(frontier).depth@[w] <= final(frontier).depth@[v] + 1,
        match middle {
            None => {
                &&& forall|v: UserId, w: UserId|
                    final(frontier).visited@.contains(v) && final(frontier).depth@[v] < d + 1
                        && #[trigger] graph.connects(v, w) ==> final(frontier).visited@.contains(w)
                        && final(frontier).depth@[w] <= final(frontier).depth@[v] + 1
                &&& forall|qi: int|
                    0 <= qi < final(frontier).queue@.len() ==> final(frontier).depth@[
                        #[trigger] final(frontier).queue@[qi]] == d + 1
                &&& forall|v: UserId| #[trigger]
                    final(frontier).visited@.contains(v) && final(frontier).depth@[v] == d + 1
                        ==> final(frontier).queue@.contains(v)
                &&& forall|v: UserId| #[trigger]
                    final(frontier).visited@.contains(v) ==> !other_visited@.contains(v)
                &&& final(frontier).queue@.len() == final(frontier).visited@.len() - old(frontier).visited@.len()
            },
            Some(m) => {
                &&& final(frontier).visited@.contains(m)
                &&& other_visited@.contains(m)
                &&& forall|v: UserId| #[trigger]
                    final(frontier).visited@.contains(v) && other_visited@.contains(v) ==> v == m
            },
        },
{
    let ghost head = *frontier;
    let k = frontier.queue.len();
    let mut middle: Option<UserId> = None;
    let mut j: usize = 0;
    while j < k && middle.is_none()
        invariant
            0 <= j <= k,
            k == head.queue@.len(),
            head == *old(frontier),
            frontier.inv(),
            frontier.root == head.root,
            forall|v: UserId| #[trigger]
                head.visited@.contains(v) ==> frontier.visited@.contains(v) && frontier.depth@[v]
                    == head.depth@[v],
            forall|v: UserId| #[trigger]
                frontier.visited@.contains(v) && !head.visited@.contains(v) ==> frontier.depth@[v]
                    == d + 1 && frontier.queue@.contains(v),
            frontier.queue@.len() >= k - j,
            forall|idx: int|
                0 <= idx < k - j ==> #[trigger] frontier.queue@[idx] == head.queue@[j + idx],
            forall|idx: int|
                k - j <= idx < frontier.queue@.len() ==> !head.visited@.contains(
                    #[trigger] frontier.queue@[idx],
                ),
            frontier.queue@.len() - (k - j) == frontier.visited@.len() - head.visited@.len(),
            middle.is_none() ==> forall|idx: int, w: UserId|
                0 <= idx < j && #[trigger] graph.connects(head.queue@[idx], w)
                    ==> frontier.visited@.contains(w) && frontier.depth@[w] <= d + 1,
            middle.is_none() ==> forall|v: UserId| #[trigger]
                frontier.visited@.contains(v) ==> !other_visited@.contains(v),
            forall|v: UserId| #[trigger]
                frontier.parents@.dom().contains(v) ==> graph.connects(frontier.parents@[v], v),
            forall|v: UserId| #[trigger]
                frontier.visited@.contains(v) ==> graph.adj@.dom().contains(v) || v
                    == frontier.root,
            frontier.visited@.len() <= graph.adj@.dom().len() + 1,
            forall|v: UserId, w: UserId|
                frontier.visited@.contains(v) && frontier.depth@[v] < d && #[trigger] graph.connects(
                    v,
                    w,
                ) ==> frontier.visited@.contains(w) && frontier.depth@[w] <= frontier.depth@[v]
                    + 1,
            middle matches Some(m) ==> frontier.visited@.contains(m) && other_visited@.contains(m)
                && (forall|v: UserId| #[trigger]
                frontier.visited@.contains(v) && other_visited@.contains(v) ==> v == m),
        decreases k - j,
    {
        middle = expand_one(
            graph,
            frontier,
            other_visited,
            Ghost(d),
            Ghost(head),
            Ghost(j as int),
        );
        j = j + 1;
    }
    proof {
        if middle is None {
            assert forall|v: UserId, w: UserId|
                frontier.visited@.contains(v) && frontier.depth@[v] < d + 1
                    && #[trigger] graph.connects(v, w) implies frontier.visited@.contains(w)
                && frontier.depth@[w] <= frontier.depth@[v] + 1 by {
                if frontier.depth@[v] == d {
                    assert(head.visited@.contains(v));
                    assert(head.depth@[v] == d);
                    assert(head.queue@.contains(v));
                    let idx = choose|idx: int|
                        0 <= idx < head.queue@.len() && head.queue@[idx] == v;
                    assert(graph.connects(head.queue@[idx], w));
                }
            }
        }
    }
    middle
}

/// Find a shortest chain of friends from `start` to `end`.
///
/// The search grows one frontier from each endpoint, expanding one complete
/// breadth-first level per side per round, and stops as soon as a user
/// discovered by one side turns out to be already discovered by the other.
/// The empty chain comes back exactly when no chain exists; neither
/// endpoint needs to be a stored user. No chain of friendships between the
/// two endpoints is shorter than the one returned.
#[verifier::loop_isolation(false)]
#[verifier::rlimit(100)]
pub fn find_shortest_chain(graph: &FriendGraph, start: UserId, end: UserId) -> (chain:
    ChainOfFriends)
    requires
        graph.wf(),
    ensures
        start == end ==> chain@ == seq![start],
        chain@.len() > 0 ==> is_path(*graph, chain@, start, end),
        !connected(*graph, start, end) ==> chain@.len() == 0,
        start != end && connected(*graph, start, end) ==> chain@.len() > 0,
        forall|p: Seq<UserId>| #[trigger]
            is_path(*graph, p, start, end) ==> p.len() >= chain@.len(),
        start != end && graph.connects(start, end) ==> chain@ == seq![start, end],
{
    if start == end {
        let mut single: ChainOfFriends = Vec::new();
        single.push(start);
        proof {
            assert(single@ =~= seq![start]);
            assert(is_path(*graph, single@, start, end));
        }
        return single;
    }
    let mut forward = Frontier::new(start);
    let mut backward = Frontier::new(end);
    let ghost mut df: int = 0;
    let ghost mut db: int = 0;
    proof {
        assert(graph.adj@.dom().finite());
        assert(forward.queue@[0] == start);
        assert(forward.queue@.contains(start));
        assert(backward.queue@[0] == end);
        assert(backward.queue@.contains(end));
    }
    while forward.queue.len() > 0 && backward.queue.len() > 0
        invariant
            forward.inv(),
            backward.inv(),
            forward.root == start,
            backward.root == end,
            df >= 0,
            db >= 0,
            forall|v: UserId| #[trigger]
                forward.visited@.contains(v) ==> !backward.visited@.contains(v),
            forall|v: UserId| #[trigger]
                forward.parents@.dom().contains(v) ==> graph.connects(forward.parents@[v], v),
            forall|v: UserId| #[trigger]
                backward.parents@.dom().contains(v) ==> graph.connects(backward.parents@[v], v),
            forall|v: UserId| #[trigger]
                forward.visited@.contains(v) ==> graph.adj@.dom().contains(v) || v == start,
            forall|v: UserId| #[trigger]
                backward.visited@.contains(v) ==> graph.adj@.dom().contains(v) || v == end,
            forward.visited@.len() <= graph.adj@.dom().len() + 1,
            backward.visited@.len() <= graph.adj@.dom().len() + 1,
            forall|qi: int|
                0 <= qi < forward.queue@.len() ==> forward.depth@[#[trigger] forward.queue@[qi]]
                    == df,
            forall|qi: int|
                0 <= qi < backward.queue@.len() ==> backward.depth@[#[trigger] backward.queue@[qi]]
                    == db,
            forall|v: UserId| #[trigger] forward.visited@.contains(v) ==> forward.depth@[v] <= df,
            forall|v: UserId| #[trigger]
                backward.visited@.contains(v) ==> backward.depth@[v] <= db,
            forall|v: UserId| #[trigger]
                forward.visited@.contains(v) && forward.depth@[v] == df
                    ==> forward.queue@.contains(v),
            forall|v: UserId| #[trigger]
                backward.visited@.contains(v) && backward.depth@[v] == db
                    ==> backward.queue@.contains(v),
            forall|v: UserId, w: UserId|
                forward.visited@.contains(v) && forward.depth@[v] < df && #[trigger] graph.connects(
                    v,
                    w,
                ) ==> forward.visited@.contains(w) && forward.depth@[w] <= forward.depth@[v] + 1,
            forall|v: UserId, w: UserId|
                backward.visited@.contains(v) && backward.depth@[v] < db
                    && #[trigger] graph.connects(v, w) ==> backward.visited@.contains(w)
                    && backward.depth@[w] <= backward.depth@[v] + 1,
        decreases 2 * (graph.adj@.dom().len() + 2) - 2 * forward.visited@.len()
            + forward.queue@.len() + 2 * (graph.adj@.dom().len() + 2) - 2
            * backward.visited@.len() + backward.queue@.len(),
    {
        let middle_forward = expand_level(graph, &mut forward, &backward.visited, Ghost(df));
        if let Some(middle) = middle_forward {
            let ghost ps = forward.parents@;
            let ghost pe = backward.parents@;
            let ghost dmf: int = forward.depth@[middle];
            let ghost dmb: int = backward.depth@[middle];
            proof {
                assert(parent_depth_ok(ps, start, forward.depth@));
                assert(parent_depth_ok(pe, end, backward.depth@));
                assert forall|v: UserId| #[trigger]
                    ps.dom().contains(v) implies graph.connects(ps[v], v) by {
                    assert(forward.parents@.dom().contains(v));
                }
                assert forall|v: UserId| #[trigger]
                    pe.dom().contains(v) implies graph.connects(pe[v], v) by {
                    assert(backward.parents@.dom().contains(v));
                }
                lemma_frontier_walk(forward, middle);
                lemma_frontier_walk(backward, middle);
                assert(dmf <= df + 1);
                assert(dmb <= db);
            }
            let found = construct_chain_of_friends(
                forward.parents,
                backward.parents,
                start,
                middle,
                end,
            );
            proof {
                assert(found@.len() == dmf + dmb + 1);
                assert forall|v: UserId|
                    forward.visited@.contains(v) && #[trigger] backward.visited@.contains(v)
                    implies v == middle by {}
                lemma_meeting_chain(
                    *graph,
                    ps,
                    pe,
                    forward.visited@,
                    forward.depth@,
                    df,
                    backward.visited@,
                    backward.depth@,
                    db,
                    start,
                    end,
                    middle,
                    found@,
                );
            }
            return found;
        }
        proof {
            df = df + 1;
        }
        let middle_backward = expand_level(graph, &mut backward, &forward.visited, Ghost(db));
        if let Some(middle) = middle_backward {
            let ghost ps = forward.parents@;
            let ghost pe = backward.parents@;
            let ghost dmf: int = forward.depth@[middle];
            let ghost dmb: int = backward.depth@[middle];
            proof {
                assert(parent_depth_ok(ps, start, forward.depth@));
                assert(parent_depth_ok(pe, end, backward.depth@));
                assert forall|v: UserId| #[trigger]
                    ps.dom().contains(v) implies graph.connects(ps[v], v) by {
                    assert(forward.parents@.dom().contains(v));
                }
                assert forall|v: UserId| #[trigger]
                    pe.dom().contains(v) implies graph.connects(pe[v], v) by {
                    assert(backward.parents@.dom().contains(v));
                }
                lemma_frontier_walk(forward, middle);
                lemma_frontier_walk(backward, middle);
                assert(dmf <= df);
                assert(dmb <= db + 1);
            }
            let found = construct_chain_of_friends(
                forward.parents,
                backward.parents,
                start,
                middle,
                end,
            );
            proof {
                assert(found@.len() == dmf + dmb + 1);
                assert forall|v: UserId|
                    forward.visited@.contains(v) && #[trigger] backward.visited@.contains(v)
                    implies v == middle by {}
                lemma_meeting_chain(
                    *graph,
                    ps,
                    pe,
                    forward.visited@,
                    forward.depth@,
                    df,
                    backward.visited@,
                    backward.depth@,
                    db,
                    start,
                    end,
                    middle,
                    found@,
                );
            }
            return found;
        }
        proof {
            db = db + 1;
        }
    }
    proof {
        if connected(*graph, start, end) {
            let p = choose|p: Seq<UserId>| is_path(*graph, p, start, end);
            if forward.queue@.len() == 0 {
                assert forall|v: UserId, w: UserId|
                    forward.visited@.contains(v) && #[trigger] graph.connects(v, w) implies
                    forward.visited@.contains(w) by {
                    assert(forward.depth@[v] < df);
                }
                lemma_path_stays_in_closed_set(*graph, p, forward.visited@);
                assert(forward.visited@.contains(end));
                assert(backward.visited@.contains(end));
                assert(false);
            } else {
                let q = Seq::new(p.len(), |i: int| p[p.len() - 1 - i]);
                assert(q[0] == end);
                assert(q[q.len() - 1] == start);
                assert forall|j: int| 0 <= j < q.len() - 1 implies graph.connects(
                    #[trigger] q[j],
                    q[j + 1],
                ) by {
                    assert(q[j] == p[p.len() - 1 - j]);
                    assert(q[j + 1] == p[p.len() - 2 - j]);
                    assert(graph.connects(p[p.len() - 2 - j], p[p.len() - 1 - j]));
                }
                assert forall|v: UserId, w: UserId|
                    backward.visited@.contains(v) && #[trigger] graph.connects(v, w) implies
                    backward.visited@.contains(w) by {
                    assert(backward.depth@[v] < db);
                }
                lemma_path_stays_in_closed_set(*graph, q, backward.visited@);
                assert(backward.visited@.contains(start));
                assert(forward.visited@.contains(start));
                assert(false);
            }
        }
        if graph.connects(start, end) {
            assert(is_path(*graph, seq![start, end], start, end));
            assert(connected(*graph, start, end));
            assert(false);
        }
    }
    Vec::new()
}

} // verus!
