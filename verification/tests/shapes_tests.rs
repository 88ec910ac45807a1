use rrt_sim::grid::inv_coords;
use rrt_sim::shapes::{gen_circle, widen_line};

#[test]
fn unit_circle() {
    assert_eq!(gen_circle((10, 10), 1), vec![60010, 59759, 59760]);
}

#[test]
fn circle_pixels_lie_within_the_radius() {
    let p = (120u32, 80u32);
    let c = gen_circle(p, 7);
    assert!(!c.is_empty());
    for i in &c {
        let q = inv_coords(*i as u32);
        let dx = q.0 as i64 - p.0 as i64;
        let dy = q.1 as i64 - p.1 as i64;
        assert!(dx * dx + dy * dy <= 49);
    }
    // the box holds 14 x 14 pixels, the disc fewer
    assert!(c.len() < 196);
}

#[test]
fn widening_by_rows() {
    let mut l = vec![1000];
    widen_line(&mut l, 2, true);
    assert_eq!(l, vec![1000, 1000, 1000, 1250, 1250, 1250, 750, 750, 750]);
}

#[test]
fn widening_by_columns() {
    let mut l = vec![1000, 5];
    widen_line(&mut l, 2, false);
    assert_eq!(l.len(), 18);
    assert_eq!(&l[0..6], &[1000, 5, 1000, 5, 1000, 5]);
    assert_eq!(&l[6..12], &[1001, 6, 1001, 6, 1001, 6]);
    assert_eq!(&l[12..18], &[999, 4, 999, 4, 999, 4]);
}

#[test]
fn widening_clamps_at_zero() {
    let mut l = vec![100];
    widen_line(&mut l, 3, true);
    assert_eq!(l, vec![100, 100, 100, 350, 350, 350, 0, 0, 0]);
    let mut l = vec![100];
    widen_line(&mut l, 0, true);
    assert_eq!(l, vec![100, 100, 100]);
}
