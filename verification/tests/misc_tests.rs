use rrt_sim::colors::GREEN;
use rrt_sim::image::{frame_rgb, hex_text, rgb_of};
use rrt_sim::json::{NodeEntry, TreeFmt};
use rrt_sim::opts::OnOff;
use rrt_sim::session::{has_green_with_five_dpurple_indices, Collisions, MoveEvent};
use rrt_sim::text::{fname_gen, push_decimal, push_padded, utc_format, Stamp};
use rrt_sim::train::prune_nodes;
use rrt_sim::tree::Tree;

#[test]
fn a_collision_is_counted_once() {
    let c = Collisions::new().next(MoveEvent::BumpBack).next(MoveEvent::PassEnd);
    assert_eq!(c.hits, 1);
    assert!(!c.hit);
    assert_eq!(c.next(MoveEvent::PassEnd).hits, 1);
}

#[test]
fn pushing_forward_is_not_counted_until_the_robot_turns() {
    let c = Collisions::new().next(MoveEvent::BumpForward).next(MoveEvent::PassEnd);
    assert_eq!(c.hits, 0);
    assert!(c.hit && c.same_move);
    let c = c.next(MoveEvent::Turn).next(MoveEvent::PassEnd);
    assert_eq!(c.hits, 1);
}

#[test]
fn the_stuck_check_never_fires() {
    assert!(!has_green_with_five_dpurple_indices(&vec![GREEN; 64]));
    assert!(!has_green_with_five_dpurple_indices(&vec![]));
}

#[test]
fn pruning_rewards() {
    let mut t = Tree::new(0u32);
    t.insert_node(0, 1); // 1
    t.insert_node(1, 2); // 2
    t.insert_node(0, 3); // 3
    let r = prune_nodes(&mut t, &vec![1, 3], &vec![false, true]);
    // node 1: not on the frontier, one child; node 3: on the frontier, no child
    assert_eq!(r, vec![2, -2]);
    assert_eq!(t.len(), 2);
    assert_eq!(t.get(2).unwrap().par, Some(0));
    let r = prune_nodes(&mut t, &vec![0], &vec![false]);
    assert_eq!(r, vec![2]);
    assert_eq!(t.len(), 2);
}

#[test]
fn tree_as_json() {
    let f = TreeFmt {
        entries: vec![
            NodeEntry { idx: 0, x: "0".into(), y: "0".into() },
            NodeEntry { idx: 1, x: "0.1".into(), y: "0.2".into() },
            NodeEntry { idx: 12, x: "0.5".into(), y: "1".into() },
        ],
    };
    assert_eq!(f.to_json(), "{\"1\": [0.1, 0.2], \"12\": [0.5, 1]}");
    assert_eq!(TreeFmt { entries: vec![] }.to_json(), "{}");
}

#[test]
fn decimals() {
    let mut s = String::from("n=");
    push_decimal(&mut s, 1205);
    assert_eq!(s, "n=1205");
    let mut s = String::new();
    push_decimal(&mut s, 0);
    assert_eq!(s, "0");
}

#[test]
fn switches() {
    assert_ne!(OnOff::On, OnOff::Off);
}

#[test]
fn colours_as_image_bytes() {
    assert_eq!(hex_text(0xABC), "000ABC");
    assert_eq!(hex_text(0xFFFF99), "FFFF99");
    assert_eq!(rgb_of(0x123456), [0x12, 0x34, 0x56]);
    assert_eq!(rgb_of(0x301934), [0x30, 0x19, 0x34]);
    assert_eq!(rgb_of(0), [0, 0, 0]);
    assert_eq!(frame_rgb(&vec![0xFF0000, 0x00FF00]), vec![255, 0, 0, 0, 255, 0]);
    assert_eq!(frame_rgb(&vec![]), Vec::<u8>::new());
}

#[test]
fn time_stamps() {
    let t = Stamp { year: 2024, month: 3, day: 7, hour: 9, minute: 5, second: 0, nanosecond: 12 };
    assert_eq!(utc_format(&t), "2024-03-07_09-05-00-0012");
    assert_eq!(fname_gen(&t, "img/", "_a", "png"), "img/2024-03-07_09-05-00-0012_a.png");
    let t = Stamp { year: -44, month: 12, day: 31, hour: 23, minute: 59, second: 59, nanosecond: 123456789 };
    assert_eq!(utc_format(&t), "-44-12-31_23-59-59-123456789");
    let mut s = String::new();
    push_padded(&mut s, 7, 3);
    push_padded(&mut s, 1234, 2);
    assert_eq!(s, "0071234");
}
