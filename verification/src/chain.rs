//! Path reconstruction: walking the two parent maps back from the meeting
//! user assembles the final chain, start first and end last.

use vstd::prelude::*;
use std::collections::HashMap;
use crate::{ChainOfFriends, UserId};

verus! {

broadcast use vstd::std_specs::hash::group_hash_axioms;

/// `d` witnesses that the parent map `p` is a breadth-first tree rooted at
/// `root`: the root has no parent, every parent link leads to the root or to
/// another mapped user, and each link descends exactly one level.
pub open spec fn parent_depth_ok(p: Map<UserId, UserId>, root: UserId, d: Map<UserId, int>) -> bool {
    &&& !p.dom().contains(root)
    &&& forall|v: UserId| #[trigger] p.dom().contains(v) ==> {
        &&& d.dom().contains(v)
        &&& d.dom().contains(p[v])
        &&& d[v] == d[p[v]] + 1
        &&& d[v] >= 1
        &&& (p[v] == root || p.dom().contains(p[v]))
    }
}

/// The parent map `p` is a well-formed breadth-first tree rooted at `root`,
/// so following parent links from any mapped user reaches `root`.
pub open spec fn parent_map_wf(p: Map<UserId, UserId>, root: UserId) -> bool {
    exists|d: Map<UserId, int>| parent_depth_ok(p, root, d)
}

/// Following parent links in `p` from `v` reaches `root` in exactly `n`
/// steps.
pub open spec fn walk_reaches(p: Map<UserId, UserId>, root: UserId, v: UserId, n: nat) -> bool
    decreases n,
{
    if v == root {
        n == 0
    } else {
        n > 0 && p.dom().contains(v) && walk_reaches(p, root, p[v], (n - 1) as nat)
    }
}

/// A walk from `v` to `root` has only one possible step count.
proof fn lemma_walk_unique(p: Map<UserId, UserId>, root: UserId, v: UserId, n1: nat, n2: nat)
    requires
        walk_reaches(p, root, v, n1),
        walk_reaches(p, root, v, n2),
    ensures
        n1 == n2,
    decreases n1,
{
    if v != root {
        lemma_walk_unique(p, root, p[v], (n1 - 1) as nat, (n2 - 1) as nat);
    }
}

/// A sequence that steps through `p` link by link and ends at the root is a
/// walk of its own length in edges.
proof fn lemma_seq_walk(p: Map<UserId, UserId>, root: UserId, s: Seq<UserId>)
    requires
        s.len() >= 1,
        s[s.len() - 1] == root,
        !p.dom().contains(root),
        forall|i: int|
            0 <= i < s.len() - 1 ==> p.dom().contains(#[trigger] s[i]) && p[s[i]] == s[i + 1],
    ensures
        walk_reaches(p, root, s[0], (s.len() - 1) as nat),
    decreases s.len(),
{
    if s.len() > 1 {
        let rest = s.subrange(1, s.len() as int);
        assert forall|i: int|
            0 <= i < rest.len() - 1 implies p.dom().contains(#[trigger] rest[i]) && p[rest[i]]
            == rest[i + 1] by {
            assert(rest[i] == s[i + 1]);
            assert(rest[i + 1] == s[i + 2]);
        }
        lemma_seq_walk(p, root, rest);
        assert(rest[0] == s[1]);
        assert(s[0] != root);
    }
}

/// Two consecutive users of a reconstructed chain are joined by a recorded
/// parent link: either `b` was discovered from `a` in the forward direction,
/// or `a` was discovered from `b` in the backward direction.
pub open spec fn chain_link(
    ps: Map<UserId, UserId>,
    pe: Map<UserId, UserId>,
    a: UserId,
    b: UserId,
) -> bool {
    ||| (ps.dom().contains(b) && ps[b] == a)
    ||| (pe.dom().contains(a) && pe[a] == b)
}

/// Assemble the chain start, ..., middle, ..., end from the two parent maps:
/// walk `parents_start` from `middle` back to `start` and reverse that
/// segment, then walk `parents_end` from `middle` on to `end`.
#[verifier::loop_isolation(false)]
pub fn construct_chain_of_friends(
    parents_start: HashMap<UserId, UserId>,
    parents_end: HashMap<UserId, UserId>,
    start: UserId,
    middle: UserId,
    end: UserId,
) -> (chain: ChainOfFriends)
    requires
        parent_map_wf(parents_start@, start),
        parent_map_wf(parents_end@, end),
        middle == start || parents_start@.dom().contains(middle),
        middle == end || parents_end@.dom().contains(middle),
    ensures
        chain@.len() >= 1,
        chain@[0] == start,
        chain@[chain@.len() - 1] == end,
        forall|i: int|
            0 <= i < chain@.len() - 1 ==> chain_link(
                parents_start@,
                parents_end@,
                chain@[i],
                #[trigger] chain@[i + 1],
            ),
        middle == start && middle == end ==> chain@ == seq![start],
        forall|n: nat, m: nat|
            #![trigger walk_reaches(parents_start@, start, middle, n), walk_reaches(parents_end@, end, middle, m)]
            walk_reaches(parents_start@, start, middle, n) && walk_reaches(
                parents_end@,
                end,
                middle,
                m,
            ) ==> chain@.len() == n + m + 1,
{
    let ghost ds = choose|d: Map<UserId, int>| parent_depth_ok(parents_start@, start, d);
    let ghost de = choose|d: Map<UserId, int>| parent_depth_ok(parents_end@, end, d);
    let mut back: Vec<UserId> = Vec::new();
    back.push(middle);
    let mut current_user = middle;
    while current_user != start
        invariant
            current_user == start || parents_start@.dom().contains(current_user),
            back@.len() >= 1,
            back@[0] == middle,
            back@[back@.len() - 1] == current_user,
            forall|i: int|
                0 <= i < back@.len() - 1 ==> parents_start@.dom().contains(#[trigger] back@[i])
                    && parents_start@[back@[i]] == back@[i + 1],
        decreases (if current_user == start {
            0int
        } else {
            ds[current_user]
        }),
    {
        let next = match parents_start.get(&current_user) {
            Some(p) => *p,
            None => current_user,
        };
        back.push(next);
        current_user = next;
    }
    proof {
        assert(parent_depth_ok(parents_start@, start, ds));
        lemma_seq_walk(parents_start@, start, back@);
    }
    let ghost n0: int = back@.len() - 1;
    let mut chain: Vec<UserId> = Vec::new();
    let mut i: usize = back.len();
    while i > 0
        invariant
            0 <= i <= back@.len(),
            chain@.len() == back@.len() - i,
            forall|j: int|
                0 <= j < chain@.len() ==> #[trigger] chain@[j] == back@[back@.len() - 1 - j],
        decreases i,
    {
        i = i - 1;
        chain.push(back[i]);
    }
    assert(chain@[0] == start);
    assert(chain@[chain@.len() - 1] == middle);
    assert forall|j: int| 0 <= j < chain@.len() - 1 implies chain_link(
        parents_start@,
        parents_end@,
        chain@[j],
        #[trigger] chain@[j + 1],
    ) by {
        let k = back@.len() - 2 - j;
        assert(chain@[j] == back@[k + 1]);
        assert(chain@[j + 1] == back@[k]);
        assert(parents_start@.dom().contains(back@[k]));
    }
    let ghost l1: int = chain@.len() as int;
    current_user = middle;
    while current_user != end
        invariant
            current_user == end || parents_end@.dom().contains(current_user),
            chain@.len() >= 1,
            chain@.len() >= l1,
            l1 >= 1,
            chain@[0] == start,
            chain@[l1 - 1] == middle,
            chain@[chain@.len() - 1] == current_user,
            forall|idx: int|
                l1 - 1 <= idx < chain@.len() - 1 ==> parents_end@.dom().contains(
                    #[trigger] chain@[idx],
                ) && parents_end@[chain@[idx]] == chain@[idx + 1],
            forall|i: int|
                0 <= i < chain@.len() - 1 ==> chain_link(
                    parents_start@,
                    parents_end@,
                    chain@[i],
                    #[trigger] chain@[i + 1],
                ),
        decreases (if current_user == end {
            0int
        } else {
            de[current_user]
        }),
    {
        let next = match parents_end.get(&current_user) {
            Some(p) => *p,
            None => current_user,
        };
        chain.push(next);
        current_user = next;
    }
    proof {
        let seq2 = chain@.subrange(l1 - 1, chain@.len() as int);
        assert(seq2[0] == middle);
        assert(seq2[seq2.len() - 1] == end);
        assert forall|i: int|
            0 <= i < seq2.len() - 1 implies parents_end@.dom().contains(#[trigger] seq2[i])
            && parents_end@[seq2[i]] == seq2[i + 1] by {
            assert(seq2[i] == chain@[l1 - 1 + i]);
            assert(seq2[i + 1] == chain@[l1 + i]);
        }
        assert(parent_depth_ok(parents_end@, end, de));
        lemma_seq_walk(parents_end@, end, seq2);
        let m0 = chain@.len() - l1;
        assert(walk_reaches(parents_end@, end, middle, m0 as nat));
        assert(walk_reaches(parents_start@, start, middle, n0 as nat));
        assert forall|n: nat, m: nat|
            #![trigger walk_reaches(parents_start@, start, middle, n), walk_reaches(parents_end@, end, middle, m)]
            walk_reaches(parents_start@, start, middle, n) && walk_reaches(
                parents_end@,
                end,
                middle,
                m,
            ) implies chain@.len() == n + m + 1 by {
            lemma_walk_unique(parents_start@, start, middle, n, n0 as nat);
            lemma_walk_unique(parents_end@, end, middle, m, m0 as nat);
        }
        if middle == start && middle == end {
            assert(n0 == 0);
            assert(m0 == 0);
            assert(chain@.len() == 1);
            assert(chain@ =~= seq![start]);
        }
    }
    chain
}

} // verus!
