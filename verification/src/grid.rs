//! Geometry of the simulator's square pixel grid.
//!
//! The grid is `WIDTH` x `HEIGHT` pixels. A point `(x, y)` has its origin
//! at the bottom-left corner, while the frame buffer is stored row by row
//! from the top, so converting between the two flips the vertical axis.

use vstd::prelude::*;
use vstd::arithmetic::div_mod::lemma_fundamental_div_mod_converse;

verus! {

/// Scale factor of the simulated world.
pub const SCALE: usize = 3;
/// Scale factor used by the window.
pub const WSCALE: usize = 3;
/// `SCALE` as a `u32`.
pub const S32: u32 = 3;
/// Width of the grid in pixels.
pub const WIDTH: usize = 250;
/// Height of the grid in pixels.
pub const HEIGHT: usize = 250;
/// `WIDTH` as a `u32`.
pub const W32: u32 = 250;
/// `HEIGHT` as a `u32`.
pub const H32: u32 = 250;

/// A point on the grid with integer coordinates.
pub type Pnt32 = (u32, u32);

/// The buffer row that holds grid row `y` (rows above the grid land on row 0).
pub open spec fn spec_row(y: int) -> int {
    if y <= H32 { H32 - y - 1 } else { 0 }
}

/// Frame-buffer index of the grid point `(x, y)`.
pub open spec fn spec_coords(x: int, y: int) -> int {
    x + spec_row(y) * W32
}

/// `coords` is defined on `(x, y)`: the row does not underflow and the
/// index fits in a `u32`.
pub open spec fn coords_ok(x: int, y: int) -> bool {
    &&& y != H32
    &&& 0 <= spec_coords(x, y) <= u32::MAX
}

/// Grid point of the frame-buffer index `idx` (buffer rows below the grid
/// land on row 0).
pub open spec fn spec_inv_coords(idx: int) -> (int, int) {
    let y = idx / (W32 as int);
    (idx % (W32 as int), if y < H32 { H32 - 1 - y } else { 0 })
}

/// Converts `x` and `y` coords to pixel buffer index.
pub fn coords(x: u32, y: u32) -> (r: u32)
    requires
        coords_ok(x as int, y as int),
    ensures
        r == spec_coords(x as int, y as int),
{
    x + (if H32 >= y { H32 - y - 1 } else { 0 }) * W32
}

/// Converts pixel buffer index to `x` and `y` coords.
pub fn inv_coords(idx: u32) -> (r: (u32, u32))
    ensures
        r.0 == spec_inv_coords(idx as int).0,
        r.1 == spec_inv_coords(idx as int).1,
{
    let x = idx % W32;
    let y = idx / W32;
    (x, (if y < H32 { H32 - 1 - y } else { 0 }))
}

/// Reading a point back from the index of an in-grid point gives the
/// point itself.
pub proof fn lemma_inv_coords_of_coords(x: int, y: int)
    requires
        0 <= x < W32,
        0 <= y < H32,
    ensures
        coords_ok(x, y),
        spec_inv_coords(spec_coords(x, y)) == (x, y),
{
    let idx = spec_coords(x, y);
    assert(idx == (H32 - y - 1) * W32 + x);
    lemma_fundamental_div_mod_converse(idx, W32 as int, H32 - y - 1, x);
}

/// An axis-aligned rectangle of pixels with its lower-left corner at
/// `coords`.
#[derive(Debug)]
pub struct Rect {
    pub coords: Pnt32,
    pub width: u32,
    pub height: u32,
}

/// The number of columns of `r` that lie within the grid (`x <= W32`).
pub open spec fn fb_cols(r: Rect) -> nat {
    if r.coords.0 > W32 {
        0
    } else if r.width <= W32 + 1 - r.coords.0 {
        r.width as nat
    } else {
        (W32 + 1 - r.coords.0) as nat
    }
}

/// The buffer indices of row `y` of `r`, left to right, or nothing when the
/// row lies above the grid.
pub open spec fn fb_row(r: Rect, y: int) -> Seq<usize> {
    if y <= H32 {
        Seq::new(fb_cols(r), |k: int| spec_coords(r.coords.0 + k, y) as usize)
    } else {
        Seq::empty()
    }
}

/// The buffer indices of the first `n` rows of `r`, bottom row first.
pub open spec fn fb_rows(r: Rect, n: nat) -> Seq<usize>
    decreases n,
{
    if n == 0 {
        Seq::empty()
    } else {
        fb_rows(r, (n - 1) as nat) + fb_row(r, r.coords.1 + n - 1)
    }
}

/// `to_fb` is defined on `r`: its far corner fits in a `u32`, and no
/// in-grid column of it meets the row `H32`, whose buffer row would be
/// negative.
pub open spec fn to_fb_ok(r: Rect) -> bool {
    &&& r.coords.0 + r.width <= u32::MAX
    &&& r.coords.1 + r.height <= u32::MAX
    &&& (r.coords.1 <= H32 < r.coords.1 + r.height ==> fb_cols(r) == 0)
}

impl Rect {
    /// The buffer indices of the rectangle's pixels that lie within the
    /// grid, row by row from the bottom, each row left to right.
    pub fn to_fb(&self) -> (pix: Vec<usize>)
        requires
            to_fb_ok(*self),
        ensures
            pix@ == fb_rows(*self, self.height as nat),
    {
        let mut pix: Vec<usize> = Vec::new();
        let mut i = self.coords.1;
        while i < self.coords.1 + self.height
            invariant
                to_fb_ok(*self),
                self.coords.1 <= i <= self.coords.1 + self.height,
                pix@ == fb_rows(*self, (i - self.coords.1) as nat),
            decreases self.coords.1 + self.height - i,
        {
            let ghost before = pix@;
            let mut j = self.coords.0;
            while j < self.coords.0 + self.width
                invariant
                    to_fb_ok(*self),
                    self.coords.1 <= i < self.coords.1 + self.height,
                    self.coords.0 <= j <= self.coords.0 + self.width,
                    pix@ == before + fb_row(*self, i as int).take(
                        if i <= H32 { if j <= W32 + 1 { (j - self.coords.0) as int } else { fb_cols(*self) as int } } else { 0 },
                    ),
                decreases self.coords.0 + self.width - j,
            {
                if i <= H32 && j <= W32 {
                    proof {
                        assert(i != H32);
                        assert(0 <= spec_coords(j as int, i as int) <= 62749);
                    }
                    pix.push(coords(j, i) as usize);
                    proof {
                        let row = fb_row(*self, i as int);
                        assert(row.take((j + 1 - self.coords.0) as int) =~= row.take((j - self.coords.0) as int).push(
                            spec_coords(j as int, i as int) as usize));
                    }
                }
                j = j + 1;
            }
            proof {
                let row = fb_row(*self, i as int);
                assert(row.take(row.len() as int) == row);
                assert(fb_rows(*self, (i + 1 - self.coords.1) as nat) == before + row);
                if i > H32 {
                    assert(row.take(0) =~= row);
                }
            }
            i = i + 1;
        }
        pix
    }
}

/// The points of row `y` of `r`, left to right.
pub open spec fn row_points(r: Rect, y: int) -> Seq<(u32, u32)> {
    Seq::new(r.width as nat, |k: int| ((r.coords.0 + k) as u32, y as u32))
}

/// The points of the first `n` rows of `r`, bottom row first.
pub open spec fn rect_points(r: Rect, n: nat) -> Seq<(u32, u32)>
    decreases n,
{
    if n == 0 {
        Seq::empty()
    } else {
        rect_points(r, (n - 1) as nat) + row_points(r, r.coords.1 + n - 1)
    }
}

/// The far corner of `r` fits in a `u32`.
pub open spec fn rect_fits(r: Rect) -> bool {
    r.coords.0 + r.width <= u32::MAX && r.coords.1 + r.height <= u32::MAX
}

/// Each point of the bottom and top sides of `r`, column by column (the
/// top side one row above the rectangle), then each point of its left and
/// right sides, row by row (the right side one column past it).
pub open spec fn border_points(r: Rect) -> Seq<(u32, u32)> {
    let (x, y, w, h) = (r.coords.0 as int, r.coords.1 as int, r.width as int, r.height as int);
    Seq::new((2 * w) as nat, |k: int| ((x + k / 2) as u32, if k % 2 == 0 { y as u32 } else { (y + h) as u32 }))
        + Seq::new((2 * h) as nat, |k: int| (if k % 2 == 0 { x as u32 } else { (x + w) as u32 }, (y + k / 2) as u32))
}

impl Rect {
    /// The points of the rectangle, row by row from the bottom, each row
    /// left to right.
    pub fn to_coords(&self) -> (pix: Vec<(u32, u32)>)
        requires
            rect_fits(*self),
        ensures
            pix@ == rect_points(*self, self.height as nat),
    {
        let mut pix: Vec<(u32, u32)> = Vec::new();
        let mut i = self.coords.1;
        while i < self.coords.1 + self.height
            invariant
                rect_fits(*self),
                self.coords.1 <= i <= self.coords.1 + self.height,
                pix@ == rect_points(*self, (i - self.coords.1) as nat),
            decreases self.coords.1 + self.height - i,
        {
            let ghost before = pix@;
            let mut j = self.coords.0;
            while j < self.coords.0 + self.width
                invariant
                    rect_fits(*self),
                    self.coords.1 <= i < self.coords.1 + self.height,
                    self.coords.0 <= j <= self.coords.0 + self.width,
                    pix@ == before + row_points(*self, i as int).take((j - self.coords.0) as int),
                decreases self.coords.0 + self.width - j,
            {
                pix.push((j, i));
                proof {
                    assert(row_points(*self, i as int).take((j + 1 - self.coords.0) as int) =~= row_points(
                        *self,
                        i as int,
                    ).take((j - self.coords.0) as int).push((j, i)));
                }
                j = j + 1;
            }
            proof {
                let row = row_points(*self, i as int);
                assert(row.take(row.len() as int) =~= row);
                assert(rect_points(*self, (i + 1 - self.coords.1) as nat) == before + row);
            }
            i = i + 1;
        }
        pix
    }

    /// The points along the rectangle's border: bottom and top sides
    /// column by column, then left and right sides row by row.
    pub fn to_border_coords(&self) -> (pix: Vec<(u32, u32)>)
        requires
            rect_fits(*self),
        ensures
            pix@ == border_points(*self),
    {
        let ghost x = self.coords.0 as int;
        let ghost y = self.coords.1 as int;
        let ghost w = self.width as int;
        let ghost h = self.height as int;
        let ghost s1 = Seq::new((2 * w) as nat, |k: int| ((x + k / 2) as u32, if k % 2 == 0 { y as u32 } else {
            (y + h) as u32
        }));
        let ghost s2 = Seq::new((2 * h) as nat, |k: int| (if k % 2 == 0 { x as u32 } else { (x + w) as u32 }, (y
            + k / 2) as u32));
        let mut pix: Vec<(u32, u32)> = Vec::new();
        let mut i = self.coords.0;
        while i < self.coords.0 + self.width
            invariant
                rect_fits(*self),
                x == self.coords.0 && y == self.coords.1 && w == self.width && h == self.height,
                self.coords.0 <= i <= self.coords.0 + self.width,
                s1 == Seq::new((2 * w) as nat, |k: int| ((x + k / 2) as u32, if k % 2 == 0 { y as u32 } else {
                    (y + h) as u32
                })),
                pix@ == s1.take(2 * (i - x)),
            decreases self.coords.0 + self.width - i,
        {
            pix.push((i, self.coords.1));
            pix.push((i, self.coords.1 + self.height));
            proof {
                let n = 2 * (i - x);
                assert(s1[n] == (i, y as u32));
                assert(s1[n + 1] == (i, (y + h) as u32)) by {
                    assert((n + 1) / 2 == i - x);
                    assert((n + 1) % 2 == 1);
                }
                assert(pix@ =~= s1.take(n + 2));
            }
            i = i + 1;
        }
        assert(s1.take(2 * w) =~= s1);
        let mut i = self.coords.1;
        while i < self.coords.1 + self.height
            invariant
                rect_fits(*self),
                x == self.coords.0 && y == self.coords.1 && w == self.width && h == self.height,
                self.coords.1 <= i <= self.coords.1 + self.height,
                s2 == Seq::new((2 * h) as nat, |k: int| (if k % 2 == 0 { x as u32 } else { (x + w) as u32 }, (y
                    + k / 2) as u32)),
                pix@ == s1 + s2.take(2 * (i - y)),
            decreases self.coords.1 + self.height - i,
        {
            pix.push((self.coords.0, i));
            pix.push((self.coords.0 + self.width, i));
            proof {
                let n = 2 * (i - y);
                assert(s2[n] == (x as u32, i));
                assert(s2[n + 1] == ((x + w) as u32, i)) by {
                    assert((n + 1) / 2 == i - y);
                    assert((n + 1) % 2 == 1);
                }
                assert(pix@ =~= s1 + s2.take(n + 2));
            }
            i = i + 1;
        }
        assert(s2.take(2 * h) =~= s2);
        assert(border_points(*self) =~= s1 + s2);
        pix
    }

    /// The rectangle's four sides as segments: left, bottom, right, top.
    pub fn to_border_lines(&self) -> (lines: Vec<((u32, u32), (u32, u32))>)
        requires
            rect_fits(*self),
        ensures
            lines@ == seq![
                ((self.coords.0, self.coords.1), (self.coords.0, (self.coords.1 + self.height) as u32)),
                ((self.coords.0, self.coords.1), ((self.coords.0 + self.width) as u32, self.coords.1)),
                (((self.coords.0 + self.width) as u32, self.coords.1), ((self.coords.0 + self.width) as u32, (
                self.coords.1 + self.height) as u32)),
                ((self.coords.0, (self.coords.1 + self.height) as u32), ((self.coords.0 + self.width) as u32, (
                self.coords.1 + self.height) as u32)),
            ],
    {
        let (x, y) = self.coords;
        let x1 = x + self.width;
        let y1 = y + self.height;
        let lines = vec![((x, y), (x, y1)), ((x, y), (x1, y)), ((x1, y), (x1, y1)), ((x, y1), (x1, y1))];
        assert(lines@ =~= seq![((x, y), (x, y1)), ((x, y), (x1, y)), ((x1, y), (x1, y1)), ((x, y1), (x1, y1))]);
        lines
    }
}

/// Pairs up consecutive entries of `buf`.
pub fn buf_to_pair<T: Copy>(buf: &mut Vec<T>) -> (out: Vec<(T, T)>)
    requires
        old(buf).len() % 2 == 0,
    ensures
        final(buf)@ == old(buf)@,
        out.len() == old(buf).len() / 2,
        forall|k: int| 0 <= k < out.len() ==> #[trigger] out[k] == (old(buf)[2 * k], old(buf)[2 * k + 1]),
{
    let mut out: Vec<(T, T)> = Vec::new();
    let mut i: usize = 0;
    while i < buf.len()
        invariant
            buf.len() % 2 == 0,
            i % 2 == 0,
            i <= buf.len(),
            out.len() == i / 2,
            forall|k: int| 0 <= k < out.len() ==> #[trigger] out[k] == (buf[2 * k], buf[2 * k + 1]),
        decreases buf.len() - i,
    {
        out.push((buf[i], buf[i + 1]));
        i = i + 2;
    }
    out
}

/// Splits `buf` into consecutive chunks of `ord` entries.
pub fn buf_to_ord<T: Copy>(ord: usize, buf: &mut Vec<T>) -> (out: Vec<Vec<T>>)
    requires
        ord > 0,
        old(buf).len() % ord == 0,
    ensures
        final(buf)@ == old(buf)@,
        out.len() == old(buf).len() / ord,
        forall|k: int| 0 <= k < out.len() ==> #[trigger] out[k]@ == old(buf)@.subrange(
            k * ord,
            k * ord + ord,
        ),
{
    let mut out: Vec<Vec<T>> = Vec::new();
    let mut i: usize = 0;
    assert(0 * ord == 0) by (nonlinear_arith);
    while i < buf.len()
        invariant
            ord > 0,
            buf.len() % ord == 0,
            i % ord == 0,
            i <= buf.len(),
            out.len() * ord == i,
            forall|k: int| 0 <= k < out.len() ==> #[trigger] out[k]@ == buf@.subrange(k * ord, k * ord + ord),
        decreases buf.len() - i,
    {
        proof {
            assert(i + ord <= buf.len()) by (nonlinear_arith)
                requires
                    i < buf.len(),
                    i % ord == 0,
                    buf.len() % ord == 0,
                    ord > 0;
        }
        let mut tmp: Vec<T> = Vec::new();
        let mut j: usize = 0;
        while j < ord
            invariant
                i + ord <= buf.len(),
                j <= ord,
                tmp@ == buf@.subrange(i as int, i + j),
            decreases ord - j,
        {
            tmp.push(buf[i + j]);
            j = j + 1;
            proof {
                assert(tmp@ =~= buf@.subrange(i as int, i + j));
            }
        }
        let ghost n = out.len() as int;
        out.push(tmp);
        proof {
            assert((n + 1) * ord == n * ord + ord) by (nonlinear_arith);
            assert(((i + ord) as int) % (ord as int) == 0) by (nonlinear_arith)
                requires i % ord == 0, ord > 0;
            assert forall|k: int| 0 <= k < out.len() implies #[trigger] out[k]@ == buf@.subrange(k * ord, k * ord + ord) by {
                if k == n {
                    assert(k * ord == i);
                }
            }
        }
        i = i + ord;
    }
    proof {
        assert(out.len() == buf.len() / ord) by (nonlinear_arith)
            requires out.len() * ord == buf.len(), ord > 0;
    }
    out
}

/// The pixel `q` lies on arm `i` of the `*`-shaped marker centred on `p`.
pub open spec fn on_agent_arm(p: int, q: int, i: int) -> bool {
    let c = p + i * W32;
    let d = p - i * W32;
    ||| q == p + i
    ||| q == p - i
    ||| q == c
    ||| q == d
    ||| q == c - i
    ||| q == c + i
    ||| q == d - i
    ||| q == d + i
}

/// `q` lies on one of the first `r` arms of the marker centred on `p`.
pub open spec fn spec_is_agent(p: int, q: int, r: int) -> bool {
    exists|i: int| 0 <= i < r && #[trigger] on_agent_arm(p, q, i)
}

/// Determines if a pixel `p` in the buffer is in a `*` shape around `q`.
/// Used to generate the marker that represents the agent.
pub fn is_agent(p: i32, q: i32, r: u32) -> (res: bool)
    requires
        (r as int) * (W32 + 1) <= i32::MAX,
        i32::MIN + (r as int) * (W32 + 1) <= p <= i32::MAX - (r as int) * (W32 + 1),
    ensures
        res == spec_is_agent(p as int, q as int, r as int),
{
    let mut i: u32 = 0;
    while i < r
        invariant
            i <= r,
            (r as int) * (W32 + 1) <= i32::MAX,
            i32::MIN + (r as int) * (W32 + 1) <= p <= i32::MAX - (r as int) * (W32 + 1),
            forall|j: int| 0 <= j < i ==> !on_agent_arm(p as int, q as int, j),
        decreases r - i,
    {
        assert((i as int) * (W32 + 1) <= (r as int) * (W32 + 1)
            && (i as int) <= (i as int) * W32
            && (i as int) * W32 + (i as int) == (i as int) * (W32 + 1)) by (nonlinear_arith)
            requires i <= r;
        let iw: i32 = (i * W32) as i32;
        let ii: i32 = i as i32;
        let a = p + ii;
        let b = p - ii;
        let c = p + iw;
        let d = p - iw;
        if a == q || b == q {
            assert(on_agent_arm(p as int, q as int, i as int));
            return true;
        }
        if c == q || d == q {
            assert(on_agent_arm(p as int, q as int, i as int));
            return true;
        }
        if c - ii == q || c + ii == q {
            assert(on_agent_arm(p as int, q as int, i as int));
            return true;
        }
        if d - ii == q || d + ii == q {
            assert(on_agent_arm(p as int, q as int, i as int));
            return true;
        }
        i = i + 1;
    }
    false
}

} // verus!
