use rrt_sim::grid::{buf_to_ord, buf_to_pair, coords, inv_coords, is_agent, Rect, H32, W32};

#[test]
fn coords_flip_the_vertical_axis() {
    assert_eq!(coords(0, 249), 0);
    assert_eq!(coords(3, 248), 253);
    assert_eq!(coords(0, 0), 249 * 250);
}

#[test]
fn inv_coords_reads_the_point_back() {
    assert_eq!(inv_coords(253), (3, 248));
    assert_eq!(inv_coords(0), (0, 249));
    for (x, y) in [(0u32, 0u32), (17, 42), (249, 249), (100, 3)] {
        assert_eq!(inv_coords(coords(x, y)), (x, y));
    }
    // far beyond the grid the row is clamped to 0
    assert_eq!(inv_coords(W32 * (H32 + 5) + 7), (7, 0));
}

#[test]
fn rect_to_fb_lists_rows_bottom_up() {
    let r = Rect { coords: (1, 1), width: 2, height: 2 };
    assert_eq!(r.to_fb(), vec![62001, 62002, 61751, 61752]);
    // columns past the grid's edge are left out
    let r = Rect { coords: (249, 1), width: 4, height: 1 };
    assert_eq!(r.to_fb(), vec![coords(249, 1) as usize, coords(250, 1) as usize]);
}

#[test]
fn buffers_split_into_tuples() {
    let mut b = vec![1, 2, 3, 4];
    assert_eq!(buf_to_pair(&mut b), vec![(1, 2), (3, 4)]);
    let mut b = vec![1, 2, 3, 4, 5, 6];
    assert_eq!(buf_to_ord(3, &mut b), vec![vec![1, 2, 3], vec![4, 5, 6]]);
}

#[test]
fn agent_marker_shape() {
    assert!(is_agent(100, 100, 1));
    assert!(!is_agent(100, 101, 1));
    assert!(is_agent(100, 101, 2));
    assert!(is_agent(100, 100 + 250 + 1, 2));
    assert!(is_agent(100, 100 - 250, 2));
    assert!(!is_agent(100, 100 + 2, 2));
}

#[test]
fn rect_points_and_borders() {
    let r = Rect { coords: (2, 3), width: 2, height: 2 };
    assert_eq!(r.to_coords(), vec![(2, 3), (3, 3), (2, 4), (3, 4)]);
    assert_eq!(
        r.to_border_coords(),
        vec![(2, 3), (2, 5), (3, 3), (3, 5), (2, 3), (4, 3), (2, 4), (4, 4)]
    );
    assert_eq!(
        r.to_border_lines(),
        vec![((2, 3), (2, 5)), ((2, 3), (4, 3)), ((4, 3), (4, 5)), ((2, 5), (4, 5))]
    );
}
