use std::collections::HashMap;

use rrt_sim::tree::Tree;
use rrt_sim::wl::{get_str, get_wl, Subgraph, WLabel};

fn small() -> (Tree<u32>, HashMap<usize, usize>) {
    let mut t = Tree::new(0u32);
    t.insert_node(0, 1); // 1
    t.insert_node(1, 2); // 2
    (t, HashMap::from([(1, 20), (2, 40)]))
}

#[test]
fn subgraph_push() {
    let mut s: Subgraph<u32> = Subgraph::empty();
    assert!(s.v.is_empty());
    s.push(3);
    s.push(4);
    assert_eq!(s.v, vec![3, 4]);
}

#[test]
fn label_text() {
    let l = WLabel { deg: 2, parent: 1, child: 1, par_dist_rnd: 20 };
    assert_eq!(l.to_label(), "2.1.1.20");
    let mut s = Subgraph::empty();
    s.push(l);
    s.push(WLabel { deg: 0, parent: 0, child: 0, par_dist_rnd: 0 });
    assert_eq!(s.to_label_string(), "2.1.1.20!0.0.0.0!");
}

#[test]
fn depth_zero_is_the_node_label() {
    let (t, d) = small();
    let g = get_wl(1, &t, 0, &d);
    assert_eq!(g.v.len(), 1);
    let l = g.v[0];
    assert_eq!((l.deg, l.parent, l.child, l.par_dist_rnd), (2, 1, 1, 20));
    let r = get_wl(0, &t, 0, &d).v[0];
    assert_eq!((r.deg, r.parent, r.child, r.par_dist_rnd), (1, 0, 1, 0));
    assert_eq!(get_str(1, &t, 0, &d), "2.1.1.20!");
}

#[test]
fn depth_one_adds_the_neighbours_sorted_by_degree() {
    let (t, d) = small();
    assert_eq!(get_str(1, &t, 1, &d), "2.1.1.20!1.1.0.40!1.0.1.0!");
    assert_eq!(get_str(2, &t, 1, &d), "1.1.0.40!2.1.1.20!");
}

#[test]
fn neighbours_are_sorted_by_degree() {
    let mut t = Tree::new(0u32);
    t.insert_node(0, 1); // 1
    t.insert_node(0, 2); // 2
    t.insert_node(1, 3); // 3
    t.insert_node(1, 4); // 4
    let d = HashMap::from([(1, 10), (2, 20), (3, 30), (4, 40)]);
    assert_eq!(get_str(0, &t, 1, &d), "2.0.2.0!1.1.0.20!3.1.2.10!");
    // depth 1 starts with depth 0
    assert!(get_str(1, &t, 1, &d).starts_with(&get_str(1, &t, 0, &d)));
}
