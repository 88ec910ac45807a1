use rrt_sim::env::{obs_regions, Clutter, Env};
use rrt_sim::grid::Rect;

fn in_bounds(r: &Rect) -> bool {
    30 <= r.coords.0 && r.coords.0 < 250 && 30 <= r.coords.1 && r.coords.1 < 250 && 3 <= r.width && r.width < 30
        && 3 <= r.height && r.height < 30
}

#[test]
fn obstacle_counts_follow_the_clutter_level() {
    for (c, lo, hi) in [(Clutter::Low, 7, 10), (Clutter::Mid, 20, 40), (Clutter::High, 42, 57), (Clutter::Nah, 7, 57)] {
        for seed in 0..20u64 {
            let mut e = Env::new(c, Some(seed)).unwrap();
            assert!(e.obs.is_empty());
            e.gen_obs();
            assert!(lo <= e.obs.len() && e.obs.len() < hi, "{:?} gave {}", c, e.obs.len());
            assert!(e.obs.iter().all(in_bounds));
            assert_eq!(e.c, c);
        }
    }
}

#[test]
fn same_seed_same_obstacles() {
    let mut a = Env::new(Clutter::Mid, Some(42)).unwrap();
    let mut b = Env::new(Clutter::Mid, Some(42)).unwrap();
    a.gen_obs();
    b.gen_obs();
    assert_eq!(a.obs.len(), b.obs.len());
    for (x, y) in a.obs.iter().zip(&b.obs) {
        assert_eq!((x.coords, x.width, x.height), (y.coords, y.width, y.height));
    }
}

#[test]
fn gen_obs_appends() {
    let mut e = Env::new(Clutter::Low, None).unwrap();
    e.gen_obs();
    let n = e.obs.len();
    let first = (e.obs[0].coords, e.obs[0].width);
    e.gen_obs();
    assert!(e.obs.len() >= n + 7);
    assert_eq!((e.obs[0].coords, e.obs[0].width), first);
}

#[test]
fn random_rects_fall_in_bounds() {
    let mut e = Env::new(Clutter::Low, Some(3)).unwrap();
    let mut corners = std::collections::HashSet::new();
    for _ in 0..200 {
        let r = Rect::random(&mut e.rng);
        assert!(in_bounds(&r));
        corners.insert(r.coords);
    }
    // the draws spread over the range
    assert!(corners.len() > 50);
}

#[test]
fn regions_count_obstacles_in_the_grid() {
    let obs = vec![
        Rect { coords: (10, 10), width: 3, height: 3 },
        Rect { coords: (260, 10), width: 3, height: 3 },
        Rect { coords: (100, 249), width: 3, height: 3 },
        Rect { coords: (100, 250), width: 3, height: 3 },
    ];
    assert_eq!(obs_regions(&obs), 2);
    assert_eq!(obs_regions(&vec![]), 0);
}

#[test]
fn obstacle_outlines() {
    let mut e = Env::new(Clutter::Low, Some(5)).unwrap();
    e.obs = vec![Rect { coords: (2, 3), width: 2, height: 1 }, Rect { coords: (10, 10), width: 1, height: 1 }];
    assert_eq!(e.obs_coord(), vec![(2, 3), (3, 3), (10, 10)]);
    assert_eq!(e.obs_bord().len(), 2 * 2 + 2 * 1 + 2 + 2);
    assert_eq!(e.obs_bord_lines().len(), 8);
    assert_eq!(e.obs_bord_lines()[4], ((10, 10), (10, 11)));
}

#[test]
fn seeded_env_always_starts() {
    let e = Env::new(Clutter::High, Some(0));
    assert!(matches!(e, Ok(ref x) if x.obs.is_empty() && x.c == Clutter::High));
    // unseeded: the operating system gives the seed
    let f = Env::new(Clutter::Low, None);
    assert!(f.is_ok());
}
