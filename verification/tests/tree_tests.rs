use rand::rngs::SmallRng;
use rand::seq::IteratorRandom;
use rand::{Rng, SeedableRng};
use rrt_sim::tree::{Node, Tree};

fn consistent(t: &Tree<(f32, f32)>) {
    for (k, node) in t.nodes() {
        assert_eq!(node.idx, *k);
        assert_eq!(node.child.len(), node.num_child);
        if node.idx == 0 {
            assert!(node.par.is_none());
        } else {
            let p = node.par.expect("non-root node without parent");
            assert!(t.contains(p));
            assert!(t.get(p).unwrap().child.contains(k));
        }
        for c in &node.child {
            assert!(t.contains(*c));
            assert_eq!(t.get(*c).unwrap().par, Some(*k));
        }
    }
}

fn grow(t: &mut Tree<(f32, f32)>, rng: &mut SmallRng, n: usize, keep_half: bool) {
    let mut added = 0;
    while added < n {
        let parent = *t.nodes().keys().choose(rng).unwrap();
        if keep_half && !rng.random_bool(0.5) {
            continue;
        }
        let x: f32 = rng.random_range(0.0..100.0);
        let y: f32 = rng.random_range(0.0..100.0);
        t.insert_node(parent, (x, y));
        added += 1;
    }
}

#[test]
fn grow_tree() {
    let mut t = Tree::new((0.0, 0.0));
    let mut rng = SmallRng::seed_from_u64(7);
    grow(&mut t, &mut rng, 1000, true);
    assert_eq!(t.len(), 1001);
    consistent(&t);
}

#[test]
fn del_node() {
    let mut t = Tree::new((0.0, 0.0));
    let mut rng = SmallRng::seed_from_u64(11);
    grow(&mut t, &mut rng, 1000, false);
    for _ in 0..500 {
        let k = *t.nodes().keys().choose(&mut rng).unwrap();
        if k != 0 {
            t.del(k);
        }
    }
    grow(&mut t, &mut rng, 1000, false);
    for _ in 0..500 {
        let k = *t.nodes().keys().choose(&mut rng).unwrap();
        if k != 0 {
            t.del(k);
        }
    }
    consistent(&t);
}

#[test]
fn new_tree_holds_root_only() {
    let t = Tree::new((1.5f32, 2.5f32));
    assert_eq!(t.len(), 1);
    assert_eq!(t.next_idx(), 1);
    let root = t.get(0).unwrap();
    assert_eq!(root.pnt(), (1.5, 2.5));
    assert!(root.par.is_none());
    assert!(t.get(1).is_none());
}

#[test]
fn insert_hands_out_indices_in_order() {
    let mut t = Tree::new((0u32, 0u32));
    assert_eq!(t.insert_node(0, (1, 1)), 1);
    assert_eq!(t.insert_node(1, (2, 2)), 2);
    assert_eq!(t.insert_node(0, (3, 3)), 3);
    assert_eq!(t.get(0).unwrap().child, vec![1, 3]);
    assert_eq!(t.num_children(0), 2);
    assert_eq!(t.num_children(2), 0);
    assert_eq!(t.get(2).unwrap().par, Some(1));
}

#[test]
fn del_hands_children_to_grandparent() {
    let mut t = Tree::new((0u32, 0u32));
    t.insert_node(0, (1, 1)); // 1
    t.insert_node(1, (2, 2)); // 2
    t.insert_node(1, (3, 3)); // 3
    t.del(1);
    assert!(!t.contains(1));
    assert_eq!(t.get(2).unwrap().par, Some(0));
    assert_eq!(t.get(3).unwrap().par, Some(0));
    assert_eq!(t.num_children(0), 2);
    assert_eq!(t.len(), 3);
    // the root is never removed
    t.del(0);
    assert_eq!(t.len(), 3);
    assert!(t.contains(0));
}

#[test]
fn del_undoes_insert() {
    let mut t = Tree::new((0u32, 0u32));
    t.insert_node(0, (1, 1));
    let k = t.insert_node(1, (5, 5));
    t.del(k);
    assert_eq!(t.len(), 2);
    assert_eq!(t.get(1).unwrap().child, Vec::<usize>::new());
    assert_eq!(t.get(1).unwrap().par, Some(0));
    assert_eq!(t.num_children(0), 1);
}

#[test]
fn del_subtree_removes_descendants() {
    let mut t = Tree::new((0u32, 0u32));
    t.insert_node(0, (1, 1)); // 1
    t.insert_node(1, (2, 2)); // 2
    t.insert_node(2, (3, 3)); // 3
    t.insert_node(0, (4, 4)); // 4
    t.del_subtree(1);
    assert_eq!(t.len(), 2);
    assert!(t.contains(0) && t.contains(4));
    assert!(!t.contains(1) && !t.contains(2) && !t.contains(3));
    assert_eq!(t.get(0).unwrap().child, vec![4]);
    // an index not in the tree, or the root, changes nothing
    t.del_subtree(9);
    t.del_subtree(0);
    assert_eq!(t.len(), 2);
}

#[test]
fn node_constructors() {
    let n = Node::new((3u32, 4u32), 2, 5);
    assert_eq!(n.idx, 5);
    assert_eq!(n.par, Some(2));
    assert_eq!(n.num_child, 0);
    assert_eq!(n.pnt(), (3, 4));
    let s = Node::start((0u32, 0u32));
    assert_eq!(s.idx, 0);
    assert!(s.par.is_none());
}
