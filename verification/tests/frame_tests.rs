use rrt_sim::colors::{BLACK, BLUE, DPURPLE, GREEN, LYELLOW, RED, YELLOW};
use rrt_sim::frame::{
    count_color, count_covered, draw, erase, free_pixels, frontier_report, is_touching, mark_free, mark_pixels, masked,
    mark_known, recolor, replace, reveal_fov, seen_edge, seen_edges, seen_edges_anywhere,
};
use rrt_sim::grid::{coords, Rect};

#[test]
fn drawing_and_replacing() {
    let mut b = vec![0u32; 5];
    draw(&mut b, &vec![1, 3, 9], 7);
    assert_eq!(b, vec![0, 7, 0, 7, 0]);
    let mut b = vec![1, 2, 1];
    replace(&mut b, 1, 5);
    assert_eq!(b, vec![5, 2, 5]);
    let mut b = vec![1, 2, 1];
    erase(&mut b, 1);
    assert_eq!(b, vec![BLACK, 2, BLACK]);
}

#[test]
fn recolor_fades_the_view() {
    let mut b = vec![YELLOW, RED, BLUE, 5, LYELLOW, 5, GREEN];
    recolor(&mut b, 3);
    assert_eq!(b, vec![LYELLOW, LYELLOW, BLUE, RED, LYELLOW, BLACK, GREEN]);
    // the robot never paints over an obstacle
    let mut b = vec![DPURPLE];
    recolor(&mut b, 0);
    assert_eq!(b, vec![DPURPLE]);
}

#[test]
fn the_view_stops_at_obstacles() {
    let mut b = vec![0, 0, DPURPLE, 0];
    reveal_fov(&mut b, &vec![0, 3], &vec![vec![1], vec![2]]);
    assert_eq!(b, vec![YELLOW, 0, DPURPLE, 0]);
    let mut b = vec![RED, GREEN];
    reveal_fov(&mut b, &vec![0, 1], &vec![vec![], vec![]]);
    assert_eq!(b, vec![RED, GREEN]);
}

#[test]
fn counting_colours() {
    assert_eq!(count_color(&vec![1, 2, 1], 1), 2);
    assert_eq!(count_covered(&vec![LYELLOW, BLUE, BLACK, RED, DPURPLE]), 3);
    assert_eq!(free_pixels(&vec![LYELLOW, BLUE, BLACK, RED]), vec![0, 3]);
}

#[test]
fn masks() {
    assert_eq!(masked(&vec![3, 4], &vec![1, 0]), vec![3, 0]);
    let mut m = vec![0u32; 4];
    mark_pixels(&mut m, &vec![1, 3]);
    assert_eq!(m, vec![0, 1, 0, 1]);
    let mut m = vec![0u32; 3];
    mark_free(&mut m, &vec![LYELLOW, 0, GREEN]);
    assert_eq!(m, vec![1, 0, 1]);
}

#[test]
fn touching_neighbours() {
    let mut b = vec![BLACK; 250 * 250];
    b[1000] = 5;
    assert!(is_touching(&b, 1250, 5, false));
    assert!(is_touching(&b, 1001, 5, false));
    assert!(is_touching(&b, 1251, 5, false));
    assert!(!is_touching(&b, 1500, 5, false));
    assert!(is_touching(&b, 1500, 5, true));
    assert!(is_touching(&b, 1003, 5, true));
    assert!(!is_touching(&b, 1004, 5, true));
    // pixel 0 counts as a neighbour like any other
    assert!(is_touching(&vec![5, 0, 0], 1, 5, false));
    assert!(is_touching(&vec![5; 300], 250, 5, false));
}

#[test]
fn obstacle_edges_next_to_seen_space() {
    let mut b = vec![BLACK; 250 * 250];
    b[1000] = LYELLOW;
    assert!(seen_edge(&b, 1001));
    assert!(!seen_edge(&b, 5000));
    assert_eq!(seen_edges(&b, &vec![1001, 5000, 999]), vec![1001, 999]);
}

#[test]
fn obstacle_edges_below_the_grid() {
    let mut b = vec![BLACK; 250 * 250];
    b[62260] = LYELLOW;
    // one row below the last row of the grid, under a seen pixel
    assert!(seen_edge(&b, 62510));
    assert_eq!(seen_edges(&b, &vec![62510, 62261]), vec![62261]);
    assert_eq!(seen_edges_anywhere(&b, &vec![62510, 62261, 5000]), vec![62510, 62261]);
}

#[test]
fn frontier_report_of_a_full_buffer() {
    let mut b = vec![BLACK; 250 * 250];
    b[10] = LYELLOW;
    assert_eq!(frontier_report(&b), Vec::<usize>::new());
}

#[test]
fn knowledge_mask() {
    let mut b = vec![BLACK; 250 * 250];
    // an obstacle two pixels wide with seen space to its left
    let obs = vec![Rect { coords: (10, 10), width: 2, height: 1 }];
    let left = coords(9, 10) as usize;
    b[left] = LYELLOW;
    let mut m = vec![0u32; 250 * 250];
    mark_known(&mut m, &b, &obs);
    let o1 = coords(10, 10) as usize;
    let o2 = coords(11, 10) as usize;
    assert_eq!(m[left], 1);
    assert_eq!(m[o1], 1);
    assert_eq!(m[o2], 1);
    assert_eq!(m.iter().filter(|x| **x == 1).count(), 3);
}
