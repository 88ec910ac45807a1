use rrt_sim::colors::{DPURPLE, GREEN, LYELLOW, YELLOW};
use rrt_sim::grid::coords;
use rrt_sim::nav::{
    accept_node, common_depth, frontier_points, is_frontier, join_paths, no_obstacle, node_blocked, pick_direct,
    search_mode, walk_to_root, SearchMode,
};
use rrt_sim::tree::Tree;

#[test]
fn obstacles_block_the_line() {
    let map = vec![0, DPURPLE, 0];
    assert!(no_obstacle(&map, &vec![0, 2, 5]));
    assert!(!no_obstacle(&map, &vec![0, 1]));
    assert!(no_obstacle(&map, &vec![]));
}

#[test]
fn nodes_need_free_space_once_anything_is_seen() {
    // nothing seen yet: only obstacles count
    let map = vec![0, 0, 0, 0];
    assert!(accept_node(&map, &vec![0, 1], &vec![2]));
    let map = vec![DPURPLE, 0, 0, 0];
    assert!(!accept_node(&map, &vec![0, 1], &vec![2]));
    // something seen: the larger disc must reach free space
    let map = vec![0, 0, LYELLOW, 0];
    assert!(accept_node(&map, &vec![0], &vec![1, 2]));
    assert!(!accept_node(&map, &vec![0], &vec![1, 3]));
    let map = vec![0, 0, LYELLOW, GREEN];
    assert!(accept_node(&map, &vec![0], &vec![3, 9]));
}

#[test]
fn blocked_nodes() {
    let map = vec![0, DPURPLE, 0];
    assert!(node_blocked(&map, &vec![1], &vec![0]));
    assert!(node_blocked(&map, &vec![0], &vec![2, 1]));
    assert!(!node_blocked(&map, &vec![0], &vec![2]));
}

#[test]
fn frontier_nodes_have_nothing_seen_around_them() {
    let mut map = vec![0u32; 250 * 250];
    assert!(is_frontier(&map, (10, 10)));
    map[coords(10, 10) as usize] = YELLOW;
    assert!(!is_frontier(&map, (10, 10)));
    assert!(!is_frontier(&map, (11, 10)));
    assert!(!is_frontier(&map, (10, 12)));
    assert!(is_frontier(&map, (20, 20)));
    // (12, 12) is at distance sqrt 8 > 2 from the seen pixel
    assert!(is_frontier(&map, (12, 12)));
    assert_eq!(frontier_points(&map, &vec![(10, 10), (20, 20), (11, 10), (0, 0)]), vec![1, 3]);
}

#[test]
fn paths_join_at_their_last_common_node() {
    assert_eq!(common_depth(&vec![true, true, true, false]), 2);
    assert_eq!(common_depth(&vec![true, false, true]), 0);
    assert_eq!(common_depth(&vec![]), 0);
    assert_eq!(common_depth(&vec![false, true, true]), 2);
    assert_eq!(join_paths(&vec![0, 1, 2], &vec![0, 1, 3, 4], 1), vec![2, 1, 3, 4]);
    assert_eq!(join_paths(&vec![0, 5], &vec![0], 0), vec![5, 0]);
}

fn chain() -> Tree<u32> {
    let mut t = Tree::new(0u32);
    t.insert_node(0, 1); // 1
    t.insert_node(1, 2); // 2
    t.insert_node(2, 3); // 3
    t
}

#[test]
fn walking_up_in_open_space_keeps_only_the_ends() {
    let t = chain();
    assert_eq!(walk_to_root(&t, 3, &|_a: usize, _b: usize| true), vec![0, 3]);
    assert_eq!(walk_to_root(&t, 0, &|_a: usize, _b: usize| true), vec![0]);
}

#[test]
fn walking_up_keeps_the_last_node_in_sight() {
    let t = chain();
    // node 2 cannot be seen from anywhere: the walk keeps node 3 a second
    // time, the last node seen before the view breaks
    assert_eq!(walk_to_root(&t, 3, &|_a: usize, b: usize| b != 2), vec![0, 3, 3]);
    // from node 3 the root is out of sight, so node 1 is kept
    assert_eq!(walk_to_root(&t, 3, &|a: usize, b: usize| !(a == 3 && b == 0)), vec![0, 1, 3]);
}

#[test]
fn direct_destination_is_the_last_usable_frontier() {
    assert_eq!(pick_direct(&vec![false, false], &vec![true, true], &vec![false, true]), Some(0));
    assert_eq!(pick_direct(&vec![false, false, true], &vec![true, true, true], &vec![false, false, false]), Some(1));
    assert_eq!(pick_direct(&vec![false], &vec![false], &vec![false]), None);
    assert_eq!(pick_direct(&vec![], &vec![], &vec![]), None);
}

#[test]
fn every_fifth_attempt_follows_the_tree() {
    assert_eq!(search_mode(0, 10), SearchMode::Direct);
    assert_eq!(search_mode(4, 10), SearchMode::Direct);
    assert_eq!(search_mode(5, 10), SearchMode::Route);
    assert_eq!(search_mode(5, 1), SearchMode::Regrow);
    assert_eq!(search_mode(10, 2), SearchMode::Route);
    assert_eq!(search_mode(11, 0), SearchMode::Direct);
}
