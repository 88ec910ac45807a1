//! Decisions the tree-based explorer takes on the known map: which
//! pixels are obstacles, where a new node may go, which nodes lie on the
//! frontier of the explored space, and how two paths to the root join.

use vstd::prelude::*;
use crate::colors::{DPURPLE, LYELLOW, YELLOW, GREEN, RED};
use crate::grid::{coords, spec_coords, W32, H32, WIDTH, HEIGHT};
use crate::frame::is_free_color;
use crate::tree::{Tree, TreeView, descends, parent_of, is_tree};

verus! {

/// No entry of `pix` that lies in `map` is an obstacle.
pub open spec fn clear_of_obstacles(map: Seq<u32>, pix: Seq<usize>) -> bool {
    forall|t: int| 0 <= t < pix.len() && #[trigger] pix[t] < map.len() ==> map[pix[t] as int] != DPURPLE
}

/// No pixel of `pix` inside `map` is an obstacle: a clear line of sight
/// when `pix` is a line, a free disc when it is a circle.
pub fn no_obstacle(map: &Vec<u32>, pix: &Vec<usize>) -> (r: bool)
    ensures
        r == clear_of_obstacles(map@, pix@),
{
    let mut t: usize = 0;
    while t < pix.len()
        invariant
            t <= pix.len(),
            forall|u: int| 0 <= u < t && #[trigger] pix[u] < map.len() ==> map[pix[u] as int] != DPURPLE,
        decreases pix.len() - t,
    {
        let c = pix[t];
        if c < map.len() {
            if map[c] == DPURPLE {
                return false;
            }
        }
        t = t + 1;
    }
    true
}

/// Some entry of `pix` inside `map` is free space.
pub open spec fn touches_free(map: Seq<u32>, pix: Seq<usize>) -> bool {
    exists|t: int| 0 <= t < pix.len() && #[trigger] pix[t] < map.len() && is_free_color(map[pix[t] as int])
}

/// A new node may be placed where the small disc `near` around it holds no
/// obstacle and, once anything has been seen, the larger disc `far` around
/// it reaches free space.
pub fn accept_node(map: &Vec<u32>, near: &Vec<usize>, far: &Vec<usize>) -> (r: bool)
    ensures
        r == (clear_of_obstacles(map@, near@) && (map@.contains(LYELLOW) ==> touches_free(map@, far@))),
{
    if !no_obstacle(map, near) {
        return false;
    }
    let mut seen = false;
    let mut n: usize = 0;
    while n < map.len()
        invariant
            n <= map.len(),
            clear_of_obstacles(map@, near@),
            seen <==> map@.subrange(0, n as int).contains(LYELLOW),
        decreases map.len() - n,
    {
        proof {
            assert forall|x: u32| map@.subrange(0, n + 1).contains(x) <==> (map@.subrange(0, n as int).contains(x)
                || x == map@[n as int]) by {
                if map@.subrange(0, n + 1).contains(x) {
                    let j = map@.subrange(0, n + 1).index_of(x);
                    if j < n {
                        assert(map@.subrange(0, n as int)[j] == x);
                    }
                }
                if map@.subrange(0, n as int).contains(x) {
                    let j = map@.subrange(0, n as int).index_of(x);
                    assert(map@.subrange(0, n + 1)[j] == x);
                }
                if x == map@[n as int] {
                    assert(map@.subrange(0, n + 1)[n as int] == x);
                }
            }
        }
        if map[n] == LYELLOW {
            seen = true;
        }
        n = n + 1;
    }
    assert(map@.subrange(0, map.len() as int) == map@);
    if seen {
        let mut t: usize = 0;
        while t < far.len()
            invariant
                t <= far.len(),
                clear_of_obstacles(map@, near@),
                forall|u: int| 0 <= u < t && #[trigger] far[u] < map.len() ==> !is_free_color(map[far[u] as int]),
            decreases far.len() - t,
        {
            let i = far[t];
            if i < map.len() {
                let c = map[i];
                if c == LYELLOW || c == YELLOW || c == GREEN || c == RED {
                    proof {
                        assert(far[t as int] < map.len() && is_free_color(map@[far[t as int] as int]));
                    }
                    return true;
                }
            }
            t = t + 1;
        }
        false
    } else {
        true
    }
}

/// A node must be removed when its small disc `near` holds an obstacle or
/// the line `edge` to its parent crosses one.
pub fn node_blocked(map: &Vec<u32>, near: &Vec<usize>, edge: &Vec<usize>) -> (r: bool)
    ensures
        r == (!clear_of_obstacles(map@, near@) || !clear_of_obstacles(map@, edge@)),
{
    !no_obstacle(map, near) || !no_obstacle(map, edge)
}

/// Radius of the disc checked around a frontier candidate.
pub const FRONTIER_R: u32 = 2;

/// The grid point `(x, y)` lies in the box scanned around `p`: from `R`
/// below each coordinate (clipped at 0) up to, but not including, `R` above
/// it (clipped at the grid's size), within distance `R` of `p`.
pub open spec fn in_frontier_disc(p: (u32, u32), x: int, y: int) -> bool {
    let r = FRONTIER_R as int;
    let x0 = if p.0 >= r { p.0 - r } else { 0 };
    let y0 = if p.1 >= r { p.1 - r } else { 0 };
    let x1 = if p.0 + r <= W32 { p.0 + r } else { W32 as int };
    let y1 = if p.1 + r <= H32 { p.1 + r } else { H32 as int };
    &&& x0 <= x < x1
    &&& y0 <= y < y1
    &&& (x - p.0) * (x - p.0) + (y - p.1) * (y - p.1) <= r * r
}

/// A node at `p` lies on the frontier when no pixel of its disc has been
/// seen.
pub open spec fn spec_is_frontier(map: Seq<u32>, p: (u32, u32)) -> bool {
    forall|x: int, y: int| #[trigger] in_frontier_disc(p, x, y) ==> {
        let c = map[spec_coords(x, y)];
        c != LYELLOW && c != YELLOW
    }
}

/// A node is off the frontier as soon as one pixel of its disc has been
/// seen, whether earlier (`LYELLOW`) or now (`YELLOW`); in particular when
/// its own pixel has been seen.
pub proof fn lemma_seen_pixel_blocks_frontier(map: Seq<u32>, p: (u32, u32), x: int, y: int)
    requires
        in_frontier_disc(p, x, y),
        map[spec_coords(x, y)] == LYELLOW || map[spec_coords(x, y)] == YELLOW,
    ensures
        !spec_is_frontier(map, p),
{
}

/// A node's own pixel lies in its disc.
pub proof fn lemma_own_pixel_in_disc(p: (u32, u32))
    requires
        p.0 < W32,
        p.1 < H32,
    ensures
        in_frontier_disc(p, p.0 as int, p.1 as int),
{
}

proof fn lemma_seen_pixel_blocks_frontier_all(map: Seq<u32>, p: (u32, u32))
    ensures
        forall|x: int, y: int|
            #![trigger in_frontier_disc(p, x, y)]
            in_frontier_disc(p, x, y) && (map[spec_coords(x, y)] == LYELLOW || map[spec_coords(x, y)] == YELLOW)
                ==> !spec_is_frontier(map, p),
        p.0 < W32 && p.1 < H32 && (map[spec_coords(p.0 as int, p.1 as int)] == LYELLOW || map[spec_coords(
            p.0 as int,
            p.1 as int,
        )] == YELLOW) ==> !spec_is_frontier(map, p),
{
    assert forall|x: int, y: int|
        #![trigger in_frontier_disc(p, x, y)]
        in_frontier_disc(p, x, y) && (map[spec_coords(x, y)] == LYELLOW || map[spec_coords(x, y)] == YELLOW)
            implies !spec_is_frontier(map, p) by {
        lemma_seen_pixel_blocks_frontier(map, p, x, y);
    }
    if p.0 < W32 && p.1 < H32 {
        lemma_own_pixel_in_disc(p);
    }
}

/// The node at `p` lies on the frontier of the explored space.
pub fn is_frontier(map: &Vec<u32>, p: (u32, u32)) -> (r: bool)
    requires
        p.0 + FRONTIER_R <= u32::MAX,
        p.1 + FRONTIER_R <= u32::MAX,
        forall|x: int, y: int| #[trigger] in_frontier_disc(p, x, y) ==> spec_coords(x, y) < map.len(),
    ensures
        r == spec_is_frontier(map@, p),
        forall|x: int, y: int|
            #![trigger in_frontier_disc(p, x, y)]
            in_frontier_disc(p, x, y) && (map@[spec_coords(x, y)] == LYELLOW || map@[spec_coords(x, y)] == YELLOW)
                ==> !r,
        p.0 < W32 && p.1 < H32 && (map@[spec_coords(p.0 as int, p.1 as int)] == LYELLOW || map@[spec_coords(
            p.0 as int,
            p.1 as int,
        )] == YELLOW) ==> !r,
{
    proof {
        lemma_seen_pixel_blocks_frontier_all(map@, p);
    }
    let x_start = p.0.saturating_sub(FRONTIER_R);
    let y_start = p.1.saturating_sub(FRONTIER_R);
    let x_end = if p.0 + FRONTIER_R <= W32 { p.0 + FRONTIER_R } else { W32 };
    let y_end = if p.1 + FRONTIER_R <= H32 { p.1 + FRONTIER_R } else { H32 };
    let mut y = y_start;
    while y < y_end
        invariant
            y_start <= y,
            y_start as int == (if p.1 >= FRONTIER_R { p.1 - FRONTIER_R } else { 0 }),
            x_start as int == (if p.0 >= FRONTIER_R { p.0 - FRONTIER_R } else { 0 }),
            x_end as int == (if p.0 + FRONTIER_R <= W32 { p.0 + FRONTIER_R } else { W32 as int }),
            y_end as int == (if p.1 + FRONTIER_R <= H32 { p.1 + FRONTIER_R } else { H32 as int }),
            forall|x: int, y: int| #[trigger] in_frontier_disc(p, x, y) ==> spec_coords(x, y) < map.len(),
            forall|xx: int, yy: int| #[trigger] in_frontier_disc(p, xx, yy) && yy < y ==> {
                let c = map[spec_coords(xx, yy)];
                c != LYELLOW && c != YELLOW
            },
        decreases y_end - y,
    {
        let mut x = x_start;
        while x < x_end
            invariant
                x_start <= x,
                y_start <= y < y_end,
                y_start as int == (if p.1 >= FRONTIER_R { p.1 - FRONTIER_R } else { 0 }),
                x_start as int == (if p.0 >= FRONTIER_R { p.0 - FRONTIER_R } else { 0 }),
                x_end as int == (if p.0 + FRONTIER_R <= W32 { p.0 + FRONTIER_R } else { W32 as int }),
                y_end as int == (if p.1 + FRONTIER_R <= H32 { p.1 + FRONTIER_R } else { H32 as int }),
                forall|x: int, y: int| #[trigger] in_frontier_disc(p, x, y) ==> spec_coords(x, y) < map.len(),
                forall|xx: int, yy: int| #[trigger] in_frontier_disc(p, xx, yy) && (yy < y || (yy == y && xx < x)) ==> {
                    let c = map[spec_coords(xx, yy)];
                    c != LYELLOW && c != YELLOW
                },
            decreases x_end - x,
        {
            let dx: i64 = x as i64 - p.0 as i64;
            let dy: i64 = y as i64 - p.1 as i64;
            proof {
                assert(-2 <= dx <= 2 && -2 <= dy <= 2);
                assert(0 <= dx * dx <= 4 && 0 <= dy * dy <= 4) by (nonlinear_arith)
                    requires -2 <= dx <= 2, -2 <= dy <= 2;
            }
            if dx * dx + dy * dy <= 4 {
                proof {
                    assert(in_frontier_disc(p, x as int, y as int));
                }
                let j = coords(x, y) as usize;
                if map[j] == LYELLOW || map[j] == YELLOW {
                    return false;
                }
            }
            x = x + 1;
        }
        y = y + 1;
    }
    true
}

/// On a map of at least the grid's size, every pixel scanned around a
/// frontier candidate lies inside the map.
pub proof fn lemma_disc_in_map(map: Seq<u32>, p: (u32, u32))
    requires
        map.len() >= WIDTH * HEIGHT,
    ensures
        forall|x: int, y: int| #[trigger] in_frontier_disc(p, x, y) ==> spec_coords(x, y) < map.len(),
{
    assert forall|x: int, y: int| #[trigger] in_frontier_disc(p, x, y) implies spec_coords(x, y) < map.len() by {
        assert(0 <= x < 250 && 0 <= y < 250);
        assert(spec_coords(x, y) == x + (250 - y - 1) * 250);
        assert(x + (250 - y - 1) * 250 < 62500) by (nonlinear_arith)
            requires
                0 <= x < 250,
                0 <= y < 250,
        ;
    }
}

/// The positions `i < n` whose point `pts[i]` lies on the frontier, in
/// increasing order.
pub open spec fn frontier_positions(map: Seq<u32>, pts: Seq<(u32, u32)>, n: nat) -> Seq<usize>
    decreases n,
{
    if n == 0 {
        Seq::empty()
    } else {
        let rest = frontier_positions(map, pts, (n - 1) as nat);
        if spec_is_frontier(map, pts[n - 1]) {
            rest.push((n - 1) as usize)
        } else {
            rest
        }
    }
}

/// The positions of the points in `pts` that lie on the frontier of the
/// explored part of `map`, in order; every pixel scanned must lie in the
/// map, as it does when the map covers the grid.
pub fn frontier_points(map: &Vec<u32>, pts: &Vec<(u32, u32)>) -> (r: Vec<usize>)
    requires
        forall|i: int| 0 <= i < pts.len() ==> #[trigger] pts@[i].0 + FRONTIER_R <= u32::MAX && pts@[i].1
            + FRONTIER_R <= u32::MAX,
        forall|i: int, x: int, y: int| 0 <= i < pts.len() && #[trigger] in_frontier_disc(pts@[i], x, y)
            ==> spec_coords(x, y) < map.len(),
    ensures
        r@ == frontier_positions(map@, pts@, pts.len() as nat),
{
    let mut r: Vec<usize> = Vec::new();
    let mut i: usize = 0;
    while i < pts.len()
        invariant
            i <= pts.len(),
            forall|i: int| 0 <= i < pts.len() ==> #[trigger] pts@[i].0 + FRONTIER_R <= u32::MAX && pts@[i].1
                + FRONTIER_R <= u32::MAX,
            forall|i: int, x: int, y: int| 0 <= i < pts.len() && #[trigger] in_frontier_disc(pts@[i], x, y)
                ==> spec_coords(x, y) < map.len(),
            r@ == frontier_positions(map@, pts@, i as nat),
        decreases pts.len() - i,
    {
        let p = pts[i];
        assert(pts@[i as int] == p);
        proof {
            assert forall|x: int, y: int| #[trigger] in_frontier_disc(p, x, y) implies spec_coords(x, y) < map.len() by {
                assert(in_frontier_disc(pts@[i as int], x, y));
            }
        }
        if is_frontier(map, p) {
            r.push(i);
        }
        i = i + 1;
    }
    r
}

/// The parent of a node lies above everything the node lies above.
proof fn lemma_descends_parent<P>(v: TreeView<P>, a: usize, k: usize)
    requires
        is_tree(v),
        descends(v, a, k),
        a != 0,
    ensures
        descends(v, parent_of(v, a)->0, k),
    decreases k,
{
    if k == a {
        assert(v.contains_key(a));
        let p = parent_of(v, a)->0;
        assert(v.contains_key(p));
        assert(descends(v, p, p));
    } else {
        let q = parent_of(v, k)->0;
        lemma_descends_parent(v, a, q);
    }
}

/// What a consistent `clear` answers is the line-of-sight relation.
proof fn lemma_answer_is_sight<F: Fn(usize, usize) -> bool>(clear: &F, a: usize, b: usize, r: bool)
    requires
        answers_consistently(clear),
        clear.ensures((a, b), r),
    ensures
        r == sight_of(clear)(a, b),
{
    if !r && clear.ensures((a, b), true) {
        assert(clear.ensures((a, b), r) && clear.ensures((a, b), true));
    }
}

/// `clear` gives one answer for each pair of nodes: calling it twice on
/// the same nodes cannot give two results.
pub open spec fn answers_consistently<F: Fn(usize, usize) -> bool>(clear: &F) -> bool {
    forall|a: usize, b: usize, r1: bool, r2: bool|
        #![trigger clear.ensures((a, b), r1), clear.ensures((a, b), r2)]
        clear.ensures((a, b), r1) && clear.ensures((a, b), r2) ==> r1 == r2
}

/// The line-of-sight relation that `clear` answers: a node sees another
/// when `clear` can answer `true` for the pair.
pub open spec fn sight_of<F: Fn(usize, usize) -> bool>(clear: &F) -> spec_fn(usize, usize) -> bool {
    |a: usize, b: usize| clear.ensures((a, b), true)
}

/// The walk up from `last` to the root, with the nodes kept so far in
/// `rev` (latest last): the walk keeps `last` whenever the latest kept
/// node sees `last` but not its parent, and keeps the root unless it is
/// the latest kept node already.
pub open spec fn walk_up<P>(v: TreeView<P>, los: spec_fn(usize, usize) -> bool, rev: Seq<usize>, last: usize) -> Seq<
    usize,
>
    decreases last,
{
    match parent_of(v, last) {
        Some(n) => if n < last {
            let front = rev.last();
            let kept = if !los(front, n) && los(front, last) {
                rev.push(last)
            } else {
                rev
            };
            walk_up(v, los, kept, n)
        } else {
            rev
        },
        None => if rev.last() != last {
            rev.push(last)
        } else {
            rev
        },
    }
}

/// The path from `start` to the root under the line-of-sight relation
/// `los`, root first: `start`, then each node kept on the walk up.
pub open spec fn spec_walk<P>(v: TreeView<P>, start: usize, los: spec_fn(usize, usize) -> bool) -> Seq<usize> {
    walk_up(v, los, seq![start], start).reverse()
}

/// Each node sees its parent under `los`: every edge of the tree can be
/// driven.
pub open spec fn edges_in_sight<P>(v: TreeView<P>, los: spec_fn(usize, usize) -> bool) -> bool {
    forall|k: usize| #[trigger] v.contains_key(k) && k != 0 ==> los(k, parent_of(v, k)->0)
}

/// The walk keeps the sight test on the latest kept node: where that node
/// sees the node the walk stands on, each kept node sees the one kept
/// after it.
proof fn lemma_walk_up_in_sight<P>(v: TreeView<P>, los: spec_fn(usize, usize) -> bool, rev: Seq<usize>, last: usize)
    requires
        is_tree(v),
        v.contains_key(last),
        edges_in_sight(v, los),
        rev.len() >= 1,
        forall|j: int| 0 <= j < rev.len() - 1 ==> #[trigger] los(rev[j], rev[j + 1]),
        los(rev.last(), last),
    ensures
        walk_up(v, los, rev, last).len() >= 1,
        forall|j: int|
            0 <= j < walk_up(v, los, rev, last).len() - 1 ==> #[trigger] los(
                walk_up(v, los, rev, last)[j],
                walk_up(v, los, rev, last)[j + 1],
            ),
    decreases last,
{
    match parent_of(v, last) {
        Some(n) => {
            assert(last != 0);
            assert(n < last);
            let front = rev.last();
            if !los(front, n) && los(front, last) {
                let kept = rev.push(last);
                assert(los(last, n));
                assert forall|j: int| 0 <= j < kept.len() - 1 implies #[trigger] los(kept[j], kept[j + 1]) by {
                    if j < rev.len() - 1 {
                        assert(kept[j] == rev[j] && kept[j + 1] == rev[j + 1]);
                    }
                }
                lemma_walk_up_in_sight(v, los, kept, n);
            } else {
                lemma_walk_up_in_sight(v, los, rev, n);
            }
        },
        None => {
            if rev.last() != last {
                let kept = rev.push(last);
                assert forall|j: int| 0 <= j < kept.len() - 1 implies #[trigger] los(kept[j], kept[j + 1]) by {
                    if j < rev.len() - 1 {
                        assert(kept[j] == rev[j] && kept[j + 1] == rev[j + 1]);
                    }
                }
            }
        },
    }
}

/// The path is drivable waypoint to waypoint: where each node sees its
/// parent and `start` sees itself, every waypoint of the path is seen
/// from the one after it, since the sight test is always made from the
/// latest kept node.
pub proof fn lemma_walk_in_sight<P>(v: TreeView<P>, start: usize, los: spec_fn(usize, usize) -> bool)
    requires
        is_tree(v),
        v.contains_key(start),
        edges_in_sight(v, los),
        los(start, start),
    ensures
        forall|i: int|
            0 <= i < spec_walk(v, start, los).len() - 1 ==> #[trigger] los(
                spec_walk(v, start, los)[i + 1],
                spec_walk(v, start, los)[i],
            ),
{
    let rev = walk_up(v, los, seq![start], start);
    lemma_walk_up_in_sight(v, los, seq![start], start);
    let path = spec_walk(v, start, los);
    assert forall|i: int| 0 <= i < path.len() - 1 implies #[trigger] los(path[i + 1], path[i]) by {
        let j = rev.len() - 2 - i;
        assert(path[i + 1] == rev[j]);
        assert(path[i] == rev[j + 1]);
    }
}

/// The path from node `start` up to the root that a robot can drive:
/// walking up from `start`, a node is kept whenever the line from the
/// last kept node still reaches it but no longer reaches its parent, as
/// `clear` reports; the root ends the path. It is returned root first.
/// The path starts at the root, ends at `start`, and each node lies above
/// (or is) the next.
pub fn walk_to_root<P, F: Fn(usize, usize) -> bool>(tree: &Tree<P>, start: usize, clear: &F) -> (path: Vec<usize>)
    requires
        tree.wf(),
        tree@.contains_key(start),
        forall|a: usize, b: usize| clear.requires((a, b)),
        answers_consistently(clear),
    ensures
        path@ == spec_walk(tree@, start, sight_of(clear)),
        edges_in_sight(tree@, sight_of(clear)) && sight_of(clear)(start, start) ==> forall|i: int|
            0 <= i < path.len() - 1 ==> #[trigger] sight_of(clear)(path@[i + 1], path@[i]),
        path.len() >= 1,
        path@[0] == 0,
        path@[path.len() - 1] == start,
        forall|i: int| 0 <= i < path.len() - 1 ==> #[trigger] descends(tree@, path@[i], path@[i + 1]),
{
    proof {
        tree.lemma_wf();
    }
    let ghost v = tree@;
    let ghost los = sight_of(clear);
    let mut rev: Vec<usize> = Vec::new();
    rev.push(start);
    let mut last = start;
    assert(descends(v, start, start));
    assert(rev@ =~= seq![start]);
    loop
        invariant_except_break
            tree.wf(),
            v == tree@,
            is_tree(v),
            v.contains_key(last),
            rev.len() >= 1,
            rev@[0] == start,
            forall|i: int| 0 <= i < rev.len() - 1 ==> #[trigger] descends(v, rev@[i + 1], rev@[i]),
            descends(v, last, rev@[rev.len() - 1]),
            forall|a: usize, b: usize| clear.requires((a, b)),
            answers_consistently(clear),
            los == sight_of(clear),
            walk_up(v, los, rev@, last) == walk_up(v, los, seq![start], start),
        ensures
            rev.len() >= 1,
            rev@[0] == start,
            rev@[rev.len() - 1] == 0,
            forall|i: int| 0 <= i < rev.len() - 1 ==> #[trigger] descends(v, rev@[i + 1], rev@[i]),
            rev@ == walk_up(v, los, seq![start], start),
        decreases last,
    {
        let node = tree.get(last).unwrap();
        match node.par {
            Some(n) => {
                assert(parent_of(v, last) == Some(n));
                assert(last != 0);
                assert(n < last);
                let front = rev[rev.len() - 1];
                assert(front == rev@.last());
                let ghost before = rev@;
                let sees_parent = clear(front, n);
                proof {
                    lemma_answer_is_sight(clear, front, n, sees_parent);
                }
                let keep = if !sees_parent {
                    let sees_last = clear(front, last);
                    proof {
                        lemma_answer_is_sight(clear, front, last, sees_last);
                    }
                    sees_last
                } else {
                    false
                };
                assert(keep == (!los(front, n) && los(front, last)));
                if keep {
                    rev.push(last);
                    proof {
                        assert(descends(v, last, last));
                    }
                }
                proof {
                    lemma_descends_parent(v, last, rev@[rev.len() - 1]);
                    assert(walk_up(v, los, before, last) == walk_up(v, los, rev@, n));
                }
                last = n;
            },
            None => {
                assert(last == 0);
                assert(parent_of(v, last) is None);
                if rev[rev.len() - 1] != last {
                    rev.push(last);
                }
                break;
            },
        }
    }
    let mut path: Vec<usize> = Vec::new();
    let mut j = rev.len();
    while j > 0
        invariant
            j <= rev.len(),
            rev.len() >= 1,
            path@ == rev@.subrange(j as int, rev.len() as int).reverse(),
        decreases j,
    {
        j = j - 1;
        path.push(rev[j]);
        proof {
            assert(path@ =~= rev@.subrange(j as int, rev.len() as int).reverse());
        }
    }
    proof {
        assert(rev@.subrange(0, rev.len() as int) =~= rev@);
        assert(path@ == spec_walk(tree@, start, sight_of(clear)));
        if edges_in_sight(tree@, sight_of(clear)) && sight_of(clear)(start, start) {
            lemma_walk_in_sight(tree@, start, sight_of(clear));
        }
        assert forall|i: int| 0 <= i < path.len() - 1 implies #[trigger] descends(tree@, path@[i], path@[i + 1]) by {
            let k = rev.len() - 1 - (i + 1);
            assert(path@[i] == rev@[k + 1]);
            assert(path@[i + 1] == rev@[k]);
        }
    }
    path
}

/// How the explorer looks for its next destination.
#[derive(Clone, Copy, Debug, PartialEq, Eq, Structural)]
pub enum SearchMode {
    /// Drive straight to a frontier node in sight.
    Direct,
    /// Drive along the tree to the farthest frontier node.
    Route,
    /// Grow the tree and try again.
    Regrow,
}

/// The search after `attempts` failed attempts with `n_frontiers`
/// frontier entries: straight to a node in sight, except on every fifth
/// attempt, which follows the tree when there is more than one entry.
pub open spec fn spec_search_mode(attempts: usize, n_frontiers: usize) -> SearchMode {
    if attempts == 0 || attempts % 5 != 0 {
        SearchMode::Direct
    } else if n_frontiers > 1 {
        SearchMode::Route
    } else {
        SearchMode::Regrow
    }
}

/// How to look for the next destination.
pub fn search_mode(attempts: usize, n_frontiers: usize) -> (m: SearchMode)
    ensures
        m == spec_search_mode(attempts, n_frontiers),
{
    if attempts == 0 || attempts % 5 != 0 {
        SearchMode::Direct
    } else if n_frontiers > 1 {
        SearchMode::Route
    } else {
        SearchMode::Regrow
    }
}

/// Position `i` of the frontier list may be driven to directly: its node
/// has not been visited, is in sight, and is not the robot's own node.
pub open spec fn direct_ok(visited: Seq<bool>, in_sight: Seq<bool>, is_current: Seq<bool>, i: int) -> bool {
    !visited[i] && in_sight[i] && !is_current[i]
}

/// The frontier node to drive to directly: scanning the list from its
/// end, the first that may be driven to, if any.
pub fn pick_direct(visited: &Vec<bool>, in_sight: &Vec<bool>, is_current: &Vec<bool>) -> (r: Option<usize>)
    requires
        visited.len() == in_sight.len(),
        visited.len() == is_current.len(),
    ensures
        r is None <==> forall|i: int| 0 <= i < visited.len() ==> !#[trigger] direct_ok(visited@, in_sight@, is_current@, i),
        r matches Some(i) ==> i < visited.len() && direct_ok(visited@, in_sight@, is_current@, i as int)
            && forall|j: int| i < j < visited.len() ==> !#[trigger] direct_ok(visited@, in_sight@, is_current@, j),
{
    let mut i = visited.len();
    while i > 0
        invariant
            i <= visited.len(),
            visited.len() == in_sight.len(),
            visited.len() == is_current.len(),
            forall|j: int| i <= j < visited.len() ==> !#[trigger] direct_ok(visited@, in_sight@, is_current@, j),
        decreases i,
    {
        i = i - 1;
        if !visited[i] && in_sight[i] && !is_current[i] {
            assert(direct_ok(visited@, in_sight@, is_current@, i as int));
            return Some(i);
        }
    }
    None
}

/// The last position, among `1..same.len()`, of an unbroken run of `true`
/// starting at position 1 (0 when `same[1]` is false or absent).
pub open spec fn spec_common_depth(same: Seq<bool>) -> nat
    decreases same.len(),
{
    if same.len() <= 1 {
        0
    } else if forall|i: int| 1 <= i < same.len() ==> #[trigger] same[i] {
        (same.len() - 1) as nat
    } else {
        spec_common_depth(same.drop_last())
    }
}

/// Given, for each depth, whether two root-first paths agree there, the
/// deepest depth up to which they agree (the depth of their last common
/// node).
pub fn common_depth(same: &Vec<bool>) -> (com: usize)
    ensures
        com == spec_common_depth(same@),
{
    if same.len() <= 1 {
        return 0;
    }
    let mut i: usize = 1;
    while i < same.len() && same[i]
        invariant
            1 <= i <= same.len(),
            forall|k: int| 1 <= k < i ==> #[trigger] same@[k],
        decreases same.len() - i,
    {
        i = i + 1;
    }
    proof {
        lemma_common_depth_prefix(same@, i as int);
    }
    i - 1
}

/// When positions `1..i` all agree and position `i` (if any) does not, the
/// common depth is that of the agreeing run.
proof fn lemma_common_depth_prefix(same: Seq<bool>, i: int)
    requires
        1 <= i <= same.len(),
        forall|k: int| 1 <= k < i ==> #[trigger] same[k],
        i < same.len() ==> !same[i],
    ensures
        spec_common_depth(same) == if i == 1 { 0 } else { i - 1 },
    decreases same.len(),
{
    if same.len() <= 1 {
    } else if forall|k: int| 1 <= k < same.len() ==> #[trigger] same[k] {
        if i < same.len() {
            assert(same[i]);
        }
    } else {
        if i == same.len() {
            assert(forall|k: int| 1 <= k < same.len() ==> #[trigger] same[k]);
        }
        let d = same.drop_last();
        assert forall|k: int| 1 <= k < i implies #[trigger] d[k] by {
            assert(same[k]);
        }
        lemma_common_depth_prefix(d, i);
    }
}

/// The path from the end of `a` back to its entry `com`, followed by the
/// entries of `b` after `com`: two root-first paths joined at their common
/// node `com`.
pub open spec fn spec_join_paths<T>(a: Seq<T>, b: Seq<T>, com: int) -> Seq<T> {
    let start = if com + 1 <= b.len() { com + 1 } else { b.len() as int };
    a.subrange(com, a.len() as int).reverse() + b.subrange(start, b.len() as int)
}

/// The joined path starts where `a` ends and ends where `b` ends, when
/// each path reaches past the common depth.
pub proof fn lemma_join_ends<T>(a: Seq<T>, b: Seq<T>, com: int)
    requires
        0 <= com < a.len(),
        com + 1 < b.len(),
    ensures
        spec_join_paths(a, b, com).len() == a.len() - com + b.len() - com - 1,
        spec_join_paths(a, b, com)[0] == a.last(),
        spec_join_paths(a, b, com).last() == b.last(),
{
    let j = spec_join_paths(a, b, com);
    let front = a.subrange(com, a.len() as int).reverse();
    assert(front[0] == a[a.len() - 1]);
}

/// Joins two root-first paths at depth `com`: `a` walked back from its end
/// to depth `com`, then `b` from just past depth `com`.
pub fn join_paths<T: Copy>(a: &Vec<T>, b: &Vec<T>, com: usize) -> (path: Vec<T>)
    requires
        com <= a.len(),
    ensures
        path@ == spec_join_paths(a@, b@, com as int),
{
    let mut path: Vec<T> = Vec::new();
    let mut i = a.len();
    while i > com
        invariant
            com <= i <= a.len(),
            path@ == a@.subrange(i as int, a.len() as int).reverse(),
        decreases i,
    {
        i = i - 1;
        path.push(a[i]);
        proof {
            assert(path@ =~= a@.subrange(i as int, a.len() as int).reverse());
        }
    }
    let start = if com < b.len() { com + 1 } else { b.len() };
    let ghost p0 = path@;
    let mut j = start;
    while j < b.len()
        invariant
            start <= j <= b.len(),
            path@ == p0 + b@.subrange(start as int, j as int),
        decreases b.len() - j,
    {
        path.push(b[j]);
        j = j + 1;
        proof {
            assert(path@ =~= p0 + b@.subrange(start as int, j as int));
        }
    }
    path
}

} // verus!

