use social_network::{
    breadth_first_search, construct_chain_of_friends, find_shortest_chain, FriendGraph, Frontier,
    UserId,
};
use std::collections::{HashMap, HashSet};

#[test]
fn test_find_shortest_chain_in_a_basic_graph() {
    let mut graph = FriendGraph::new();
    for (a, b) in [(1, 2), (1, 3), (2, 4), (2, 5), (3, 6), (4, 7), (5, 8), (6, 9)] {
        graph.add_friendship(a, b);
    }

    // The shortest chain is found even when it is not the direct path.
    let expected_chain = vec![1, 2, 5, 8];
    assert_eq!(expected_chain, find_shortest_chain(&graph, 1, 8));

    // An empty chain comes back when the starting or ending user is absent.
    let expected_chain: Vec<UserId> = vec![];
    assert_eq!(expected_chain, find_shortest_chain(&graph, 10, 8));

    // When the starting and ending users are the same the chain is that
    // user alone, in this case [1].
    let expected_chain = vec![1];
    assert_eq!(expected_chain, find_shortest_chain(&graph, 1, 1));

    let expected_chain = vec![1, 3, 6, 9];
    assert_eq!(expected_chain, find_shortest_chain(&graph, 1, 9));
}

#[test]
fn test_find_shortest_chain_in_a_disconnected_graph() {
    let mut graph = FriendGraph::new();
    for (a, b) in [(1, 2), (1, 3), (2, 4), (2, 5)] {
        graph.add_friendship(a, b);
    }

    // There is no chain between users 1 and 8, so the result is empty.
    let expected_chain: Vec<UserId> = vec![];
    assert_eq!(expected_chain, find_shortest_chain(&graph, 1, 8));
}

#[test]
fn test_find_shortest_chain_in_a_large_graph() {
    let mut graph = FriendGraph::new();
    for i in 2..1_001 {
        graph.add_friendship(i - 1, i);
    }

    let expected_chain = (1..1_001).collect::<Vec<UserId>>();
    assert_eq!(expected_chain, find_shortest_chain(&graph, 1, 1_000));
}

#[test]
fn test_find_shortest_chain_in_a_dense_graph() {
    let mut graph = FriendGraph::new();
    for i in 1..101 {
        for j in 1..i {
            graph.add_friendship(j, i);
        }
    }

    let expected_chain = vec![1, 100];
    assert_eq!(expected_chain, find_shortest_chain(&graph, 1, 100));
}

#[test]
fn test_find_shortest_chain_in_a_cyclic_graph() {
    let mut graph = FriendGraph::new();
    for i in 2..101 {
        graph.add_friendship(i - 1, i);
    }
    graph.add_friendship(1, 100);

    let expected_chain = vec![1, 100];
    assert_eq!(expected_chain, find_shortest_chain(&graph, 1, 100));
}

#[test]
fn test_same_user_needs_no_storage() {
    // The single-user chain comes back even on a graph that stores nothing.
    let graph = FriendGraph::new();
    assert_eq!(vec![5], find_shortest_chain(&graph, 5, 5));
}

#[test]
fn test_direct_friendship_wins() {
    let mut graph = FriendGraph::new();
    graph.add_friendship(1, 2);
    graph.add_friendship(2, 3);
    graph.add_friendship(1, 3);
    assert_eq!(vec![1, 3], find_shortest_chain(&graph, 1, 3));
}

#[test]
fn test_both_endpoints_absent() {
    let mut graph = FriendGraph::new();
    graph.add_friendship(1, 2);
    let expected_chain: Vec<UserId> = vec![];
    assert_eq!(expected_chain, find_shortest_chain(&graph, 10, 20));
}

#[test]
fn test_construct_chain_of_friends_joins_both_walks() {
    // Forward tree rooted at 1 discovered 2 from 1 and 3 from 2; backward
    // tree rooted at 5 discovered 4 from 5 and 3 from 4; they met at 3.
    let mut parents_start: HashMap<UserId, UserId> = HashMap::new();
    parents_start.insert(2, 1);
    parents_start.insert(3, 2);
    let mut parents_end: HashMap<UserId, UserId> = HashMap::new();
    parents_end.insert(4, 5);
    parents_end.insert(3, 4);
    let chain = construct_chain_of_friends(parents_start, parents_end, 1, 3, 5);
    assert_eq!(chain, vec![1, 2, 3, 4, 5]);
}

#[test]
fn test_construct_chain_of_friends_meeting_at_start() {
    // The frontiers met at the start user itself: the forward walk is
    // trivial and the backward walk alone extends the chain.
    let parents_start: HashMap<UserId, UserId> = HashMap::new();
    let mut parents_end: HashMap<UserId, UserId> = HashMap::new();
    parents_end.insert(1, 2);
    let chain = construct_chain_of_friends(parents_start, parents_end, 1, 1, 2);
    assert_eq!(chain, vec![1, 2]);
}

#[test]
fn test_breadth_first_search_reports_meeting_user() {
    let mut frontier = Frontier::new(1);
    let mut other_visited: HashSet<UserId> = HashSet::new();
    other_visited.insert(3);
    let friends = vec![2, 3, 4];
    let middle = breadth_first_search(1, &friends, &mut frontier, &other_visited);
    // 2 is discovered first, then 3 turns out to be known to the other
    // side, and the expansion stops there: 4 is never discovered.
    assert_eq!(middle, Some(3));
    assert!(frontier.visited.contains(&2));
    assert!(frontier.visited.contains(&3));
    assert!(!frontier.visited.contains(&4));
    assert_eq!(frontier.parents.get(&2), Some(&1));
    assert_eq!(frontier.parents.get(&3), Some(&1));
}

#[test]
fn test_breadth_first_search_skips_visited_and_queues_the_rest() {
    let mut frontier = Frontier::new(1);
    let other_visited: HashSet<UserId> = HashSet::new();
    let friends = vec![1, 2, 2, 3];
    let middle = breadth_first_search(1, &friends, &mut frontier, &other_visited);
    assert_eq!(middle, None);
    // The root is skipped, 2 is only discovered once, and discovery order
    // is kept in the queue behind the root.
    assert_eq!(frontier.queue, [1, 2, 3]);
    assert_eq!(frontier.parents.get(&2), Some(&1));
    assert_eq!(frontier.parents.get(&3), Some(&1));
    assert_eq!(frontier.parents.get(&1), None);
}
