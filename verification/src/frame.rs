//! Rules of the simulator's frame buffer: what the robot has seen, what
//! blocks it, and what is reported back to an exploring algorithm.

use vstd::prelude::*;
use crate::colors::{BLACK, RED, GREEN, BLUE, YELLOW, LYELLOW, DPURPLE};
use crate::grid::{W32, WIDTH, HEIGHT, Rect, fb_rows, to_fb_ok};
use crate::shapes::lemma_fb_rows_bounded;

verus! {

/// Some entry among the first `n` of `pix` is `k`.
pub open spec fn listed(pix: Seq<u32>, n: int, k: int) -> bool {
    exists|j: int| 0 <= j < n && pix[j] as int == k
}

/// Draw some pixels to the buffer: every index of `pix` inside the buffer
/// takes `color`.
pub fn draw(buf: &mut Vec<u32>, pix: &Vec<u32>, color: u32)
    ensures
        final(buf).len() == old(buf).len(),
        forall|k: int| 0 <= k < old(buf).len() ==> #[trigger] final(buf)[k] == if listed(pix@, pix.len() as int, k) {
            color
        } else {
            old(buf)[k]
        },
{
    let ghost b0 = buf@;
    let mut n: usize = 0;
    while n < pix.len()
        invariant
            n <= pix.len(),
            buf.len() == b0.len(),
            forall|k: int| 0 <= k < b0.len() ==> #[trigger] buf[k] == if listed(pix@, n as int, k) {
                color
            } else {
                b0[k]
            },
        decreases pix.len() - n,
    {
        let i = pix[n];
        if (i as usize) < buf.len() {
            buf.set(i as usize, color);
        }
        proof {
            assert forall|k: int| 0 <= k < b0.len() implies #[trigger] buf[k] == if listed(pix@, n + 1, k) {
                color
            } else {
                b0[k]
            } by {
                if listed(pix@, n as int, k) {
                    let j = choose|j: int| 0 <= j < n && pix@[j] as int == k;
                    assert(0 <= j < n + 1 && pix@[j] as int == k);
                }
                if listed(pix@, n + 1, k) && !listed(pix@, n as int, k) {
                    let j = choose|j: int| 0 <= j < n + 1 && pix@[j] as int == k;
                    if j < n {
                        assert(listed(pix@, n as int, k));
                    }
                }
                if i as int == k {
                    assert(0 <= n < n + 1 && pix@[n as int] as int == k);
                }
            }
        }
        n = n + 1;
    }
}

/// Every pixel of colour `color` takes colour `into`.
pub fn replace(buf: &mut Vec<u32>, color: u32, into: u32)
    ensures
        final(buf).len() == old(buf).len(),
        forall|k: int| 0 <= k < old(buf).len() ==> #[trigger] final(buf)[k] == if old(buf)[k] == color {
            into
        } else {
            old(buf)[k]
        },
{
    let ghost b0 = buf@;
    let mut n: usize = 0;
    while n < buf.len()
        invariant
            n <= buf.len(),
            buf.len() == b0.len(),
            forall|k: int| 0 <= k < n ==> #[trigger] buf[k] == if b0[k] == color { into } else { b0[k] },
            forall|k: int| n <= k < b0.len() ==> #[trigger] buf[k] == b0[k],
        decreases buf.len() - n,
    {
        if buf[n] == color {
            buf.set(n, into);
        }
        n = n + 1;
    }
}

/// Every pixel of colour `color` becomes unexplored (`BLACK`).
pub fn erase(buf: &mut Vec<u32>, color: u32)
    ensures
        final(buf).len() == old(buf).len(),
        forall|k: int| 0 <= k < old(buf).len() ==> #[trigger] final(buf)[k] == if old(buf)[k] == color {
            BLACK
        } else {
            old(buf)[k]
        },
{
    replace(buf, color, BLACK)
}

/// A colour the robot can move through and has seen: current or earlier
/// field of view, trail or marker.
pub open spec fn is_free_color(c: u32) -> bool {
    c == LYELLOW || c == YELLOW || c == GREEN || c == RED
}

/// A colour that counts towards coverage: free space or an overlay.
pub open spec fn is_covered_color(c: u32) -> bool {
    is_free_color(c) || c == BLUE
}

/// A colour that neither the robot's trail nor its field of view paints
/// over.
pub open spec fn is_fixed_color(c: u32) -> bool {
    c == GREEN || c == DPURPLE || c == BLUE
}

/// The colour a pixel of colour `c` takes when the robot moves on; `here`
/// tells whether the robot stands on it.
pub open spec fn recolor_px(c: u32, here: bool) -> u32 {
    if here && !is_fixed_color(c) {
        RED
    } else if c == YELLOW || c == RED {
        LYELLOW
    } else if !is_fixed_color(c) && c != LYELLOW {
        BLACK
    } else {
        c
    }
}

/// Obstacles, markers and overlays keep their colour as the robot moves
/// on, and every other pixel ends up black, seen, or the robot's own.
pub proof fn lemma_recolor_keeps_fixed(c: u32, here: bool)
    ensures
        is_fixed_color(c) ==> recolor_px(c, here) == c,
        !is_fixed_color(c) ==> (recolor_px(c, here) == RED || recolor_px(c, here) == LYELLOW || recolor_px(c, here)
            == BLACK),
{
}

/// What the robot's move does to one pixel, colour by colour: the robot's
/// own pixel turns red unless it is an obstacle, marker or overlay, which
/// wins over fading; elsewhere the view and the old trail fade to seen,
/// seen space, obstacles, markers and overlays stay, and all else turns
/// black.
pub proof fn lemma_recolor_cases(c: u32, here: bool)
    ensures
        here && c != GREEN && c != DPURPLE && c != BLUE ==> recolor_px(c, here) == RED,
        here && (c == GREEN || c == DPURPLE || c == BLUE) ==> recolor_px(c, here) == c,
        !here && (c == YELLOW || c == RED) ==> recolor_px(c, here) == LYELLOW,
        !here && (c == GREEN || c == DPURPLE || c == BLUE || c == LYELLOW) ==> recolor_px(c, here) == c,
        !here && c != GREEN && c != DPURPLE && c != BLUE && c != LYELLOW && c != YELLOW && c != RED
            ==> recolor_px(c, here) == BLACK,
{
}

/// First pass of a frame update: the robot's pixel (index `robot`) turns
/// red, what was in view or trail fades to seen, and everything else that
/// is not an obstacle, marker or overlay turns black.
pub fn recolor(buf: &mut Vec<u32>, robot: u32)
    ensures
        final(buf).len() == old(buf).len(),
        forall|k: int| 0 <= k < old(buf).len() ==> #[trigger] final(buf)[k] == recolor_px(
            old(buf)[k],
            k as u32 == robot,
        ),
        (robot as int) < old(buf).len() && old(buf)[robot as int] != GREEN && old(buf)[robot as int] != DPURPLE
            && old(buf)[robot as int] != BLUE ==> final(buf)[robot as int] == RED,
        forall|k: int|
            0 <= k < old(buf).len() && k as u32 != robot && (old(buf)[k] == YELLOW || old(buf)[k] == RED)
                ==> #[trigger] final(buf)[k] == LYELLOW,
{
    let ghost b0 = buf@;
    let mut n: usize = 0;
    while n < buf.len()
        invariant
            n <= buf.len(),
            buf.len() == b0.len(),
            forall|k: int| 0 <= k < n ==> #[trigger] buf[k] == recolor_px(b0[k], k as u32 == robot),
            forall|k: int| n <= k < b0.len() ==> #[trigger] buf[k] == b0[k],
        decreases buf.len() - n,
    {
        let c = buf[n];
        #[verifier::truncate]
        let at: bool = (n as u32) == robot;
        if at && c != GREEN && c != DPURPLE && c != BLUE {
            buf.set(n, RED);
        } else if c == YELLOW || c == RED {
            buf.set(n, LYELLOW);
        } else if c != GREEN && c != DPURPLE && c != LYELLOW && c != BLUE {
            buf.set(n, BLACK);
        }
        n = n + 1;
    }
}

/// No pixel of `line` is an obstacle in `buf`.
pub open spec fn line_of_sight(buf: Seq<u32>, line: Seq<usize>) -> bool {
    forall|t: int| 0 <= t < line.len() ==> buf[#[trigger] line[t] as int] != DPURPLE
}

/// Pixel `k` is one of the first `n` entries of `fov` whose sight line
/// (`lines` at the same position) is clear in `buf`.
pub open spec fn visible(buf: Seq<u32>, fov: Seq<usize>, lines: Seq<Seq<usize>>, n: int, k: int) -> bool {
    exists|j: int| 0 <= j < n && fov[j] as int == k && #[trigger] line_of_sight(buf, lines[j])
}

/// Second pass of a frame update: each pixel of the field of view `fov`
/// whose sight line is free of obstacles turns `YELLOW`, unless it is an
/// obstacle, marker, overlay or trail pixel.
pub fn reveal_fov(buf: &mut Vec<u32>, fov: &Vec<usize>, lines: &Vec<Vec<usize>>)
    requires
        fov.len() == lines.len(),
        forall|j: int| 0 <= j < fov.len() ==> #[trigger] fov[j] < old(buf).len(),
        forall|j: int, t: int| 0 <= j < lines.len() && 0 <= t < lines[j].len() ==> #[trigger] lines[j][t] < old(buf).len(),
    ensures
        final(buf).len() == old(buf).len(),
        forall|k: int| 0 <= k < old(buf).len() ==> #[trigger] final(buf)[k] == if !is_fixed_color(old(buf)[k])
            && old(buf)[k] != RED && visible(old(buf)@, fov@, lines@.map_values(|l: Vec<usize>| l@), fov.len() as int, k) {
            YELLOW
        } else {
            old(buf)[k]
        },
{
    let ghost b0 = buf@;
    let ghost ls = lines@.map_values(|l: Vec<usize>| l@);
    let mut n: usize = 0;
    while n < fov.len()
        invariant
            n <= fov.len(),
            fov.len() == lines.len(),
            ls == lines@.map_values(|l: Vec<usize>| l@),
            buf.len() == b0.len(),
            forall|j: int| 0 <= j < fov.len() ==> #[trigger] fov[j] < b0.len(),
            forall|j: int, t: int| 0 <= j < lines.len() && 0 <= t < lines[j].len() ==> #[trigger] lines[j][t] < b0.len(),
            forall|k: int| 0 <= k < b0.len() ==> (#[trigger] buf[k] == DPURPLE <==> b0[k] == DPURPLE),
            forall|k: int| 0 <= k < b0.len() ==> #[trigger] buf[k] == if !is_fixed_color(b0[k]) && b0[k] != RED
                && visible(b0, fov@, ls, n as int, k) {
                YELLOW
            } else {
                b0[k]
            },
        decreases fov.len() - n,
    {
        let i = fov[n];
        let c = buf[i];
        if c != GREEN && c != DPURPLE && c != BLUE && c != RED {
            let line = &lines[n];
            let mut blocked = false;
            let mut t: usize = 0;
            while t < line.len()
                invariant
                    t <= line.len(),
                    line@ == ls[n as int],
                    buf.len() == b0.len(),
                    forall|u: int| 0 <= u < line.len() ==> #[trigger] line[u] < b0.len(),
                    forall|k: int| 0 <= k < b0.len() ==> (#[trigger] buf[k] == DPURPLE <==> b0[k] == DPURPLE),
                    !blocked <==> forall|u: int| 0 <= u < t ==> b0[#[trigger] line[u] as int] != DPURPLE,
                decreases line.len() - t,
            {
                if buf[line[t]] == DPURPLE {
                    blocked = true;
                }
                t = t + 1;
            }
            if !blocked {
                buf.set(i, YELLOW);
            }
            proof {
                assert(!blocked <==> line_of_sight(b0, ls[n as int]));
            }
        }
        proof {
            assert forall|k: int| 0 <= k < b0.len() implies #[trigger] buf[k] == if !is_fixed_color(b0[k]) && b0[k] != RED
                && visible(b0, fov@, ls, n + 1, k) {
                YELLOW
            } else {
                b0[k]
            } by {
                if visible(b0, fov@, ls, n as int, k) {
                    let j = choose|j: int| 0 <= j < n && fov@[j] as int == k && #[trigger] line_of_sight(b0, ls[j]);
                    assert(0 <= j < n + 1 && fov@[j] as int == k && line_of_sight(b0, ls[j]));
                }
                if visible(b0, fov@, ls, n + 1, k) && !visible(b0, fov@, ls, n as int, k) {
                    let j = choose|j: int| 0 <= j < n + 1 && fov@[j] as int == k && #[trigger] line_of_sight(b0, ls[j]);
                    if j < n {
                        assert(visible(b0, fov@, ls, n as int, k));
                    }
                }
                if i as int == k && line_of_sight(b0, ls[n as int]) {
                    assert(0 <= n < n + 1 && fov@[n as int] as int == k && line_of_sight(b0, ls[n as int]));
                }
            }
        }
        n = n + 1;
    }
}

/// A pixel of an obstacle that borders seen space.
pub open spec fn is_seen_edge(buf: Seq<u32>, j: int) -> bool {
    spec_is_touching(buf, j, LYELLOW, true) || spec_is_touching(buf, j, YELLOW, true)
}

/// Pixel `j` is next to (or, within three pixels straight from) seen space.
pub fn seen_edge(buf: &Vec<u32>, j: usize) -> (r: bool)
    requires
        j <= i32::MAX - 3 * W32,
    ensures
        r == is_seen_edge(buf@, j as int),
{
    is_touching(buf, j as i32, LYELLOW, true) || is_touching(buf, j as i32, YELLOW, true)
}

/// The entries of `pix`, in order, that are in the grid and border seen
/// space.
pub open spec fn seen_edges_of(buf: Seq<u32>, pix: Seq<usize>) -> Seq<usize>
    decreases pix.len(),
{
    if pix.len() == 0 {
        pix
    } else {
        let rest = seen_edges_of(buf, pix.drop_last());
        let j = pix.last();
        if is_seen_edge(buf, j as int) && j < WIDTH * HEIGHT {
            rest.push(j)
        } else {
            rest
        }
    }
}

/// The obstacle pixels among `pix` that the robot can know about: those
/// in the grid that border seen space.
pub fn seen_edges(buf: &Vec<u32>, pix: &Vec<usize>) -> (r: Vec<usize>)
    requires
        forall|t: int| 0 <= t < pix.len() ==> #[trigger] pix[t] <= i32::MAX - 3 * W32,
    ensures
        r@ == seen_edges_of(buf@, pix@),
{
    let mut r: Vec<usize> = Vec::new();
    let mut t: usize = 0;
    while t < pix.len()
        invariant
            t <= pix.len(),
            forall|u: int| 0 <= u < pix.len() ==> #[trigger] pix[u] <= i32::MAX - 3 * W32,
            r@ == seen_edges_of(buf@, pix@.subrange(0, t as int)),
        decreases pix.len() - t,
    {
        let j = pix[t];
        proof {
            assert(pix@.subrange(0, t + 1).drop_last() == pix@.subrange(0, t as int));
        }
        if seen_edge(buf, j) && j < WIDTH * HEIGHT {
            r.push(j);
        }
        t = t + 1;
    }
    assert(pix@.subrange(0, pix.len() as int) == pix@);
    r
}

/// The entries of `pix`, in order, that border seen space, wherever they
/// lie.
pub open spec fn seen_edges_anywhere_of(buf: Seq<u32>, pix: Seq<usize>) -> Seq<usize>
    decreases pix.len(),
{
    if pix.len() == 0 {
        pix
    } else {
        let rest = seen_edges_anywhere_of(buf, pix.drop_last());
        let j = pix.last();
        if is_seen_edge(buf, j as int) {
            rest.push(j)
        } else {
            rest
        }
    }
}

/// The obstacle pixels among `pix` that border seen space, with no check
/// that they lie in the grid.
pub fn seen_edges_anywhere(buf: &Vec<u32>, pix: &Vec<usize>) -> (r: Vec<usize>)
    requires
        forall|t: int| 0 <= t < pix.len() ==> #[trigger] pix[t] <= i32::MAX - 3 * W32,
    ensures
        r@ == seen_edges_anywhere_of(buf@, pix@),
{
    let mut r: Vec<usize> = Vec::new();
    let mut t: usize = 0;
    while t < pix.len()
        invariant
            t <= pix.len(),
            forall|u: int| 0 <= u < pix.len() ==> #[trigger] pix[u] <= i32::MAX - 3 * W32,
            r@ == seen_edges_anywhere_of(buf@, pix@.subrange(0, t as int)),
        decreases pix.len() - t,
    {
        let j = pix[t];
        proof {
            assert(pix@.subrange(0, t + 1).drop_last() == pix@.subrange(0, t as int));
        }
        if seen_edge(buf, j) {
            r.push(j);
        }
        t = t + 1;
    }
    assert(pix@.subrange(0, pix.len() as int) == pix@);
    r
}

/// Sets the mask entry of every index in `idx` to 1.
pub fn mark_pixels(mask: &mut Vec<u32>, idx: &Vec<usize>)
    requires
        forall|t: int| 0 <= t < idx.len() ==> #[trigger] idx[t] < old(mask).len(),
    ensures
        final(mask).len() == old(mask).len(),
        forall|k: int| 0 <= k < old(mask).len() ==> #[trigger] final(mask)[k] == if idx@.contains(k as usize) {
            1
        } else {
            old(mask)[k]
        },
{
    let ghost m0 = mask@;
    let mut t: usize = 0;
    while t < idx.len()
        invariant
            t <= idx.len(),
            mask.len() == m0.len(),
            forall|u: int| 0 <= u < idx.len() ==> #[trigger] idx[u] < m0.len(),
            forall|k: int| 0 <= k < m0.len() ==> #[trigger] mask[k] == if idx@.subrange(0, t as int).contains(k as usize) {
                1
            } else {
                m0[k]
            },
        decreases idx.len() - t,
    {
        let j = idx[t];
        mask.set(j, 1);
        proof {
            assert forall|k: int| 0 <= k < m0.len() implies #[trigger] mask[k] == if idx@.subrange(0, t + 1).contains(k as usize) {
                1u32
            } else {
                m0[k]
            } by {
                if idx@.subrange(0, t as int).contains(k as usize) {
                    let i = idx@.subrange(0, t as int).index_of(k as usize);
                    assert(idx@.subrange(0, t + 1)[i] == k as usize);
                }
                if idx@.subrange(0, t + 1).contains(k as usize) {
                    let i = idx@.subrange(0, t + 1).index_of(k as usize);
                    if i < t {
                        assert(idx@.subrange(0, t as int)[i] == k as usize);
                    }
                }
                if j as int == k {
                    assert(idx@.subrange(0, t + 1)[t as int] == j);
                }
            }
        }
        t = t + 1;
    }
    assert(idx@.subrange(0, idx.len() as int) == idx@);
}

/// Sets the mask entry of every free pixel to 1.
pub fn mark_free(mask: &mut Vec<u32>, buf: &Vec<u32>)
    requires
        buf.len() <= old(mask).len(),
    ensures
        final(mask).len() == old(mask).len(),
        forall|k: int| 0 <= k < old(mask).len() ==> #[trigger] final(mask)[k] == if k < buf.len() && is_free_color(buf[k]) {
            1
        } else {
            old(mask)[k]
        },
{
    let ghost m0 = mask@;
    let mut n: usize = 0;
    while n < buf.len()
        invariant
            n <= buf.len(),
            buf.len() <= m0.len(),
            mask.len() == m0.len(),
            forall|k: int| 0 <= k < m0.len() ==> #[trigger] mask[k] == if k < n && is_free_color(buf[k]) {
                1
            } else {
                m0[k]
            },
        decreases buf.len() - n,
    {
        let c = buf[n];
        if c == LYELLOW || c == YELLOW || c == GREEN || c == RED {
            mask.set(n, 1);
        }
        n = n + 1;
    }
}

/// Pixel `k` is an obstacle pixel, among the first `n` obstacles, that
/// borders seen space.
pub open spec fn seen_obstacle_pixel(buf: Seq<u32>, obs: Seq<Rect>, n: int, k: int) -> bool {
    exists|j: int| 0 <= j < n && #[trigger] seen_edges_of(buf, fb_rows(obs[j], obs[j].height as nat)).contains(
        k as usize)
}

/// Marks in `mask` what the robot knows of: every obstacle pixel that
/// borders seen space and every free pixel.
pub fn mark_known(mask: &mut Vec<u32>, buf: &Vec<u32>, obs: &Vec<Rect>)
    requires
        forall|i: int| 0 <= i < obs.len() ==> #[trigger] to_fb_ok(obs@[i]),
        buf.len() <= old(mask).len(),
        WIDTH * HEIGHT <= old(mask).len(),
    ensures
        final(mask).len() == old(mask).len(),
        forall|k: int| 0 <= k < old(mask).len() ==> #[trigger] final(mask)[k] == if seen_obstacle_pixel(
            buf@,
            obs@,
            obs.len() as int,
            k,
        ) || (k < buf.len() && is_free_color(buf[k])) {
            1
        } else {
            old(mask)[k]
        },
{
    let ghost m0 = mask@;
    let mut i: usize = 0;
    while i < obs.len()
        invariant
            i <= obs.len(),
            forall|i: int| 0 <= i < obs.len() ==> #[trigger] to_fb_ok(obs@[i]),
            buf.len() <= m0.len(),
            WIDTH * HEIGHT <= m0.len(),
            mask.len() == m0.len(),
            forall|k: int| 0 <= k < m0.len() ==> #[trigger] mask[k] == if seen_obstacle_pixel(buf@, obs@, i as int, k) {
                1
            } else {
                m0[k]
            },
        decreases obs.len() - i,
    {
        assert(to_fb_ok(obs@[i as int]));
        let pix = obs[i].to_fb();
        proof {
            lemma_fb_rows_bounded(obs@[i as int], obs@[i as int].height as nat);
        }
        let edges = seen_edges(buf, &pix);
        proof {
            lemma_seen_edges_in_grid(buf@, pix@);
        }
        let ghost before = mask@;
        mark_pixels(mask, &edges);
        proof {
            assert forall|k: int| 0 <= k < m0.len() implies #[trigger] mask[k] == if seen_obstacle_pixel(
                buf@,
                obs@,
                i + 1,
                k,
            ) {
                1u32
            } else {
                m0[k]
            } by {
                let e = |j: int| seen_edges_of(buf@, fb_rows(obs@[j], obs@[j].height as nat));
                if edges@.contains(k as usize) {
                    assert(e(i as int).contains(k as usize));
                } else if seen_obstacle_pixel(buf@, obs@, i + 1, k) {
                    let j = choose|j: int| 0 <= j < i + 1 && #[trigger] seen_edges_of(buf@, fb_rows(obs@[j], obs@[j].height as nat)).contains(
                        k as usize);
                    assert(j != i);
                    assert(seen_obstacle_pixel(buf@, obs@, i as int, k));
                } else {
                    if seen_obstacle_pixel(buf@, obs@, i as int, k) {
                        let j = choose|j: int| 0 <= j < i && #[trigger] seen_edges_of(buf@, fb_rows(obs@[j], obs@[j].height as nat)).contains(
                            k as usize);
                        assert(seen_obstacle_pixel(buf@, obs@, i + 1, k));
                    }
                }
            }
        }
        i = i + 1;
    }
    let ghost m1 = mask@;
    mark_free(mask, buf);
    proof {
        assert forall|k: int| 0 <= k < m0.len() implies #[trigger] mask@[k] == if seen_obstacle_pixel(
            buf@,
            obs@,
            obs.len() as int,
            k,
        ) || (k < buf.len() && is_free_color(buf[k])) {
            1u32
        } else {
            m0[k]
        } by {
            assert(m1[k] == if seen_obstacle_pixel(buf@, obs@, obs.len() as int, k) { 1u32 } else { m0[k] });
        }
    }
}

/// The seen obstacle pixels lie in the grid.
proof fn lemma_seen_edges_in_grid(buf: Seq<u32>, pix: Seq<usize>)
    ensures
        forall|t: int| 0 <= t < seen_edges_of(buf, pix).len() ==> #[trigger] seen_edges_of(buf, pix)[t] < WIDTH
            * HEIGHT,
    decreases pix.len(),
{
    if pix.len() > 0 {
        lemma_seen_edges_in_grid(buf, pix.drop_last());
        let rest = seen_edges_of(buf, pix.drop_last());
        let all = seen_edges_of(buf, pix);
        assert forall|t: int| 0 <= t < all.len() implies #[trigger] all[t] < WIDTH * HEIGHT by {
            if t < rest.len() {
                assert(all[t] == rest[t]);
            }
        }
    }
}

/// The indices below `n` whose colour satisfies `f`, in increasing order.
pub open spec fn indices_where(buf: Seq<u32>, n: nat, f: spec_fn(u32) -> bool) -> Seq<usize>
    decreases n,
{
    if n == 0 {
        Seq::empty()
    } else {
        let rest = indices_where(buf, (n - 1) as nat, f);
        if f(buf[n - 1]) {
            rest.push((n - 1) as usize)
        } else {
            rest
        }
    }
}

/// The number of entries of `s` that satisfy `f`.
pub open spec fn count_where(s: Seq<u32>, f: spec_fn(u32) -> bool) -> nat
    decreases s.len(),
{
    if s.len() == 0 {
        0
    } else {
        count_where(s.drop_last(), f) + if f(s.last()) { 1nat } else { 0nat }
    }
}

/// The indices of the free pixels.
pub fn free_pixels(buf: &Vec<u32>) -> (r: Vec<usize>)
    ensures
        r@ == indices_where(buf@, buf.len() as nat, |c: u32| is_free_color(c)),
{
    let mut r: Vec<usize> = Vec::new();
    let mut n: usize = 0;
    while n < buf.len()
        invariant
            n <= buf.len(),
            r@ == indices_where(buf@, n as nat, |c: u32| is_free_color(c)),
        decreases buf.len() - n,
    {
        let c = buf[n];
        if c == LYELLOW || c == YELLOW || c == GREEN || c == RED {
            r.push(n);
        }
        n = n + 1;
    }
    r
}

/// A seen colour (`LYELLOW` or `YELLOW`) whose value, taken as a pixel
/// index, has a black neighbour. The colour's value is tested, not the
/// position of the pixel that holds it.
pub open spec fn colour_index_borders_black(buf: Seq<u32>, c: u32) -> bool {
    (c == LYELLOW || c == YELLOW) && spec_is_touching(buf, c as int, BLACK, false)
}

/// The pixels the simulator reports as the frontier: the seen pixels
/// whose colour value, taken as a pixel index, has a black neighbour.
/// Colour values lie far past the grid, so on a grid-sized buffer the
/// report is empty (`lemma_frontier_report_empty`).
pub fn frontier_report(buf: &Vec<u32>) -> (r: Vec<usize>)
    ensures
        r@ == indices_where(buf@, buf.len() as nat, |c: u32| colour_index_borders_black(buf@, c)),
{
    let mut r: Vec<usize> = Vec::new();
    let mut n: usize = 0;
    while n < buf.len()
        invariant
            n <= buf.len(),
            r@ == indices_where(buf@, n as nat, |c: u32| colour_index_borders_black(buf@, c)),
        decreases buf.len() - n,
    {
        let c = buf[n];
        if (c == LYELLOW || c == YELLOW) && is_touching(buf, c as i32, BLACK, false) {
            r.push(n);
        }
        n = n + 1;
    }
    r
}

/// On a buffer shorter than the seen colours' values (less three rows),
/// no pixel is reported as the frontier.
pub proof fn lemma_frontier_report_empty(buf: Seq<u32>, n: nat)
    requires
        buf.len() <= YELLOW - 3 * W32,
    ensures
        indices_where(buf, n, |c: u32| colour_index_borders_black(buf, c)) == Seq::<usize>::empty(),
    decreases n,
{
    if n > 0 {
        lemma_frontier_report_empty(buf, (n - 1) as nat);
        let c = buf[n - 1];
        assert(!colour_index_borders_black(buf, c));
    }
}

/// Each pixel multiplied by its mask entry (the pixels the robot knows).
pub fn masked(buf: &Vec<u32>, mask: &Vec<u32>) -> (r: Vec<u32>)
    requires
        forall|k: int| 0 <= k < buf.len() && k < mask.len() ==> #[trigger] buf[k] * mask[k] <= u32::MAX,
    ensures
        r.len() == if buf.len() <= mask.len() { buf.len() } else { mask.len() },
        forall|k: int| 0 <= k < r.len() ==> #[trigger] r[k] == buf[k] * mask[k],
{
    let len = if buf.len() <= mask.len() { buf.len() } else { mask.len() };
    let mut r: Vec<u32> = Vec::new();
    let mut n: usize = 0;
    while n < len
        invariant
            n <= len,
            len <= buf.len(),
            len <= mask.len(),
            r.len() == n,
            forall|k: int| 0 <= k < buf.len() && k < mask.len() ==> #[trigger] buf[k] * mask[k] <= u32::MAX,
            forall|k: int| 0 <= k < n ==> #[trigger] r[k] == buf[k] * mask[k],
        decreases len - n,
    {
        r.push(buf[n] * mask[n]);
        n = n + 1;
    }
    r
}

/// The number of pixels of colour `color`.
pub fn count_color(buf: &Vec<u32>, color: u32) -> (r: usize)
    ensures
        r == count_where(buf@, |c: u32| c == color),
{
    let mut r: usize = 0;
    let mut n: usize = 0;
    while n < buf.len()
        invariant
            n <= buf.len(),
            r == count_where(buf@.subrange(0, n as int), |c: u32| c == color),
            r <= n,
        decreases buf.len() - n,
    {
        proof {
            assert(buf@.subrange(0, n + 1).drop_last() == buf@.subrange(0, n as int));
        }
        if buf[n] == color {
            r = r + 1;
        }
        n = n + 1;
    }
    assert(buf@.subrange(0, buf.len() as int) == buf@);
    r
}

/// The number of pixels that count towards coverage.
pub fn count_covered(buf: &Vec<u32>) -> (r: usize)
    ensures
        r == count_where(buf@, |c: u32| is_covered_color(c)),
{
    let mut r: usize = 0;
    let mut n: usize = 0;
    while n < buf.len()
        invariant
            n <= buf.len(),
            r == count_where(buf@.subrange(0, n as int), |c: u32| is_covered_color(c)),
            r <= n,
        decreases buf.len() - n,
    {
        proof {
            assert(buf@.subrange(0, n + 1).drop_last() == buf@.subrange(0, n as int));
        }
        let c = buf[n];
        if c == LYELLOW || c == YELLOW || c == GREEN || c == RED || c == BLUE {
            r = r + 1;
        }
        n = n + 1;
    }
    assert(buf@.subrange(0, buf.len() as int) == buf@);
    r
}

/// Pixel `v` is in the buffer and has colour `color`.
pub open spec fn touch_at(buf: Seq<u32>, v: int, color: u32) -> bool {
    &&& 0 <= v < buf.len()
    &&& buf[v] == color
}

/// Pixel `i` is next to a pixel of colour `color`: one of its eight
/// neighbours, or with `emarg` also one two or three pixels away in a
/// cardinal direction.
pub open spec fn spec_is_touching(buf: Seq<u32>, i: int, color: u32, emarg: bool) -> bool {
    let w = W32 as int;
    ||| touch_at(buf, i - w, color)
    ||| touch_at(buf, i + w, color)
    ||| touch_at(buf, i - 1, color)
    ||| touch_at(buf, i + 1, color)
    ||| touch_at(buf, i - w - 1, color)
    ||| touch_at(buf, i - w + 1, color)
    ||| touch_at(buf, i + w - 1, color)
    ||| touch_at(buf, i + w + 1, color)
    ||| emarg && {
        ||| touch_at(buf, i - 2 * w, color)
        ||| touch_at(buf, i + 2 * w, color)
        ||| touch_at(buf, i - 2, color)
        ||| touch_at(buf, i + 2, color)
        ||| touch_at(buf, i - 3 * w, color)
        ||| touch_at(buf, i + 3 * w, color)
        ||| touch_at(buf, i - 3, color)
        ||| touch_at(buf, i + 3, color)
    }
}

/// Tests `touch_at` for an index computed as an `i32`.
fn touches(buf: &Vec<u32>, v: i32, color: u32) -> (r: bool)
    ensures
        r == touch_at(buf@, v as int, color),
{
    if v < 0 {
        false
    } else {
        (v as usize) < buf.len() && buf[v as usize] == color
    }
}

/// Check if the pixel at `i` is next to a specific color.
pub fn is_touching(buf: &Vec<u32>, i: i32, color: u32, emarg: bool) -> (r: bool)
    requires
        i32::MIN + 3 * W32 <= i <= i32::MAX - 3 * W32,
    ensures
        r == spec_is_touching(buf@, i as int, color, emarg),
{
    let w: i32 = 250;
    if touches(buf, i - w, color) { return true; }
    if touches(buf, i + w, color) { return true; }
    if touches(buf, i - 1, color) { return true; }
    if touches(buf, i + 1, color) { return true; }
    if touches(buf, i - w - 1, color) { return true; }
    if touches(buf, i - w + 1, color) { return true; }
    if touches(buf, i + w - 1, color) { return true; }
    if touches(buf, i + w + 1, color) { return true; }
    if emarg {
        if touches(buf, i - 2 * w, color) { return true; }
        if touches(buf, i + 2 * w, color) { return true; }
        if touches(buf, i - 2, color) { return true; }
        if touches(buf, i + 2, color) { return true; }
        if touches(buf, i - 3 * w, color) { return true; }
        if touches(buf, i + 3 * w, color) { return true; }
        if touches(buf, i - 3, color) { return true; }
        if touches(buf, i + 3, color) { return true; }
    }
    false
}

} // verus!
