//! Pixel shapes on the grid: the disc around a point, and the widening of
//! a one-pixel line into a band.

use vstd::prelude::*;
use crate::grid::{Rect, fb_rows, fb_row, fb_cols, to_fb_ok, spec_coords, spec_inv_coords, inv_coords, W32, H32,
    WIDTH, HEIGHT};

verus! {

/// The point `q` lies within distance `r` of `p`.
pub open spec fn in_disc(q: (int, int), p: (u32, u32), r: u32) -> bool {
    (q.0 - p.0) * (q.0 - p.0) + (q.1 - p.1) * (q.1 - p.1) <= r * r
}

/// The square of side `2r` whose lower-left corner is `r` below and to the
/// left of `p`.
pub open spec fn circle_box(p: (u32, u32), r: u32) -> Rect {
    Rect { coords: ((p.0 - r) as u32, (p.1 - r) as u32), width: (2 * r) as u32, height: (2 * r) as u32 }
}

/// `gen_circle` is defined on `(p, r)`: the box's corner does not
/// underflow, its side fits in a `u32`, and its pixels can be listed.
pub open spec fn circle_ok(p: (u32, u32), r: u32) -> bool {
    &&& r <= p.0
    &&& r <= p.1
    &&& 2 * r <= u32::MAX
    &&& to_fb_ok(circle_box(p, r))
}

/// The pixels of the box around `p`, in the order `Rect::to_fb` lists
/// them, whose grid point (read back with `inv_coords`) lies within
/// distance `r` of `p`.
pub open spec fn circle_pixels(p: (u32, u32), r: u32) -> Seq<usize> {
    fb_rows(circle_box(p, r), (2 * r) as nat).filter(|i: usize| in_disc(spec_inv_coords(i as int), p, r))
}

/// Every index listed by `to_fb` is at most `WIDTH * HEIGHT`.
pub(crate) proof fn lemma_fb_rows_bounded(r: Rect, n: nat)
    requires
        to_fb_ok(r),
        n <= r.height,
    ensures
        forall|k: int| 0 <= k < fb_rows(r, n).len() ==> 0 <= #[trigger] fb_rows(r, n)[k] <= WIDTH * HEIGHT,
    decreases n,
{
    if n > 0 {
        lemma_fb_rows_bounded(r, (n - 1) as nat);
        let y = r.coords.1 + n - 1;
        let row = fb_row(r, y);
        assert forall|k: int| 0 <= k < row.len() implies 0 <= #[trigger] row[k] <= WIDTH * HEIGHT by {
            assert(y <= H32);
            assert(y != H32);
            assert(r.coords.0 + k <= W32);
            assert(0 <= spec_coords(r.coords.0 + k, y) <= WIDTH * HEIGHT) by (nonlinear_arith)
                requires
                    0 <= r.coords.0 + k <= 250,
                    0 <= y < 250,
                    spec_coords(r.coords.0 + k, y) == r.coords.0 + k + (250 - y - 1) * 250,
                    WIDTH * HEIGHT == 62500,
            ;
        }
        let prev = fb_rows(r, (n - 1) as nat);
        assert(fb_rows(r, n) == prev + row);
        assert forall|k: int| 0 <= k < fb_rows(r, n).len() implies 0 <= #[trigger] fb_rows(r, n)[k] <= WIDTH * HEIGHT by {
            if k < prev.len() {
                assert(fb_rows(r, n)[k] == prev[k]);
            } else {
                assert(fb_rows(r, n)[k] == row[k - prev.len()]);
            }
        }
    }
}

/// The pixels within distance `r` of `p`, taken from the square of side
/// `2r` around it.
pub fn gen_circle(p: (u32, u32), r: u32) -> (pix: Vec<usize>)
    requires
        circle_ok(p, r),
    ensures
        pix@ == circle_pixels(p, r),
{
    let area = Rect { coords: (p.0 - r, p.1 - r), width: 2 * r, height: 2 * r };
    let all = area.to_fb();
    proof {
        lemma_fb_rows_bounded(area, area.height as nat);
    }
    let ghost pred = |i: usize| in_disc(spec_inv_coords(i as int), p, r);
    let mut pix: Vec<usize> = Vec::new();
    let mut n: usize = 0;
    while n < all.len()
        invariant
            n <= all.len(),
            all@ == fb_rows(circle_box(p, r), (2 * r) as nat),
            forall|k: int| 0 <= k < all@.len() ==> 0 <= #[trigger] all@[k] <= WIDTH * HEIGHT,
            pred == (|i: usize| in_disc(spec_inv_coords(i as int), p, r)),
            pix@ == all@.take(n as int).filter(pred),
        decreases all.len() - n,
    {
        let i = all[n];
        assert(all@[n as int] <= WIDTH * HEIGHT);
        let q = inv_coords(i as u32);
        let dx: i128 = q.0 as i128 - p.0 as i128;
        let dy: i128 = q.1 as i128 - p.1 as i128;
        proof {
            assert(dx * dx + dy * dy <= 0x4_0000_0000_0000_0000) by (nonlinear_arith)
                requires
                    -0x1_0000_0000 <= dx <= 0x1_0000_0000,
                    -0x1_0000_0000 <= dy <= 0x1_0000_0000,
            ;
            assert(0 <= dx * dx && 0 <= dy * dy) by (nonlinear_arith);
            assert((r as i128) * (r as i128) <= 0x1_0000_0000_0000_0000) by (nonlinear_arith)
                requires
                    0 <= r <= 0x1_0000_0000,
            ;
        }
        let inside = dx * dx + dy * dy <= (r as i128) * (r as i128);
        proof {
            let t = all@.take(n + 1);
            let qq = spec_inv_coords(i as int);
            assert(i as u32 as int == i as int);
            assert(q.0 == qq.0 && q.1 == qq.1);
            assert(dx == qq.0 - p.0 && dy == qq.1 - p.1);
            assert(inside == in_disc(qq, p, r));
            assert(inside == pred(i));
            assert(t =~= all@.take(n as int).push(i));
            all@.take(n as int).lemma_filter_push(i, pred);
        }
        if inside {
            pix.push(i);
        }
        n = n + 1;
    }
    proof {
        assert(all@.take(all.len() as int) =~= all@);
    }
    pix
}

/// Every pixel of a circle lies within its radius of its centre.
pub proof fn lemma_circle_within(p: (u32, u32), r: u32, k: int)
    requires
        0 <= k < circle_pixels(p, r).len(),
    ensures
        in_disc(spec_inv_coords(circle_pixels(p, r)[k] as int), p, r),
{
    let pred = |i: usize| in_disc(spec_inv_coords(i as int), p, r);
    fb_rows(circle_box(p, r), (2 * r) as nat).lemma_filter_pred(pred, k);
}

/// Each widening round triples the band: after `k` rounds it holds
/// `3^k` copies' worth of entries.
pub proof fn lemma_band_len(s: Seq<usize>, stride: int, k: nat)
    ensures
        band(s, stride, k).len() == s.len() * vstd::arithmetic::power::pow(3, k),
    decreases k,
{
    vstd::arithmetic::power::lemma_pow0(3);
    if k > 0 {
        lemma_band_len(s, stride, (k - 1) as nat);
        vstd::arithmetic::power::lemma_pow_adds(3, (k - 1) as nat, 1);
        vstd::arithmetic::power::lemma_pow1(3);
        let b = band(s, stride, (k - 1) as nat);
        assert(band(s, stride, k).len() == 3 * b.len());
        assert(s.len() * vstd::arithmetic::power::pow(3, (k - 1) as nat) * 3 == s.len() * vstd::arithmetic::power::pow(
            3,
            k,
        )) by (nonlinear_arith)
            requires
                vstd::arithmetic::power::pow(3, k) == vstd::arithmetic::power::pow(3, (k - 1) as nat)
                    * vstd::arithmetic::power::pow(3, 1),
                vstd::arithmetic::power::pow(3, 1) == 3,
        ;
    }
}

/// `s`, then `s` shifted up by `d`, then `s` shifted down by `d` (an entry
/// below `d` going to 0).
pub open spec fn band_step(s: Seq<usize>, d: int) -> Seq<usize> {
    s + s.map_values(|x: usize| (x + d) as usize) + s.map_values(|x: usize| if d <= x { (x - d) as usize } else { 0usize })
}

/// The line `s` after `k` widening rounds of stride `stride`: round `i`
/// shifts everything so far by `i * stride` both ways.
pub open spec fn band(s: Seq<usize>, stride: int, k: nat) -> Seq<usize>
    decreases k,
{
    if k == 0 {
        s
    } else {
        band_step(band(s, stride, (k - 1) as nat), (k - 1) * stride)
    }
}

/// The largest shift a widening of `width` can add to an entry: the sum
/// of the shifts `i * stride` for `i` up to `width / 2`, at most this.
pub open spec fn band_reach(width: int) -> int {
    (width / 2 + 1) * (width / 2 + 1) * (WIDTH as int)
}

/// Every entry of the band after `k` rounds is at most `m + k * k * stride`
/// when every entry of the line is at most `m`.
proof fn lemma_band_bound(s: Seq<usize>, stride: int, k: nat, m: int)
    requires
        0 < stride,
        forall|i: int| 0 <= i < s.len() ==> #[trigger] s[i] <= m,
        m + k * k * stride <= usize::MAX,
    ensures
        forall|i: int| 0 <= i < band(s, stride, k).len() ==> #[trigger] band(s, stride, k)[i] <= m + k * k * stride,
    decreases k,
{
    if k > 0 {
        let k1 = (k - 1) as nat;
        assert(k1 * k1 * stride <= k * k * stride) by (nonlinear_arith)
            requires
                k1 + 1 == k,
                0 < stride,
        ;
        lemma_band_bound(s, stride, k1, m);
        let b = band(s, stride, k1);
        let d = k1 * stride;
        assert(m + k1 * k1 * stride + d <= m + k * k * stride) by (nonlinear_arith)
            requires
                k1 + 1 == k,
                0 < stride,
                d == k1 * stride,
        ;
        let bb = band_step(b, d);
        assert forall|i: int| 0 <= i < bb.len() implies #[trigger] bb[i] <= m + k * k * stride by {
            if i < b.len() {
            } else if i < 2 * b.len() {
                assert(bb[i] == (b[i - b.len()] + d) as usize);
            } else {
                assert(b[i - 2 * b.len()] <= m + k1 * k1 * stride);
            }
        }
    }
}

/// Widens a one-pixel line into a band `width` pixels across: in rounds
/// `i = 0 ..= width / 2`, everything so far is copied shifted up and down
/// by `i` rows (`stride` is `WIDTH`) or by `i` columns (`stride` is 1).
pub fn widen_line(pix: &mut Vec<usize>, width: usize, rows: bool)
    requires
        band_reach(width as int) <= usize::MAX,
        forall|i: int| 0 <= i < old(pix)@.len() ==> #[trigger] old(pix)@[i] <= usize::MAX - band_reach(width as int),
    ensures
        final(pix)@ == band(old(pix)@, if rows { WIDTH as int } else { 1 }, (width / 2 + 1) as nat),
{
    let stride: usize = if rows { WIDTH } else { 1 };
    let ghost s0 = pix@;
    let ghost m: int = usize::MAX - band_reach(width as int);
    let half = width / 2;
    proof {
        assert((half + 1) * (half + 1) * stride <= band_reach(width as int)) by (nonlinear_arith)
            requires
                half == width / 2,
                1 <= stride <= WIDTH,
                band_reach(width as int) == (width / 2 + 1) * (width / 2 + 1) * (WIDTH as int),
        ;
    }
    let mut i: usize = 0;
    while i <= half
        invariant
            half == width / 2,
            i <= half + 1,
            stride == if rows { WIDTH } else { 1 },
            forall|k: int| 0 <= k < s0.len() ==> #[trigger] s0[k] <= m,
            0 <= m,
            m + (half + 1) * (half + 1) * stride <= usize::MAX,
            pix@ == band(s0, stride as int, i as nat),
        decreases half + 1 - i,
    {
        proof {
            assert(m + i * i * stride <= m + (half + 1) * (half + 1) * stride) by (nonlinear_arith)
                requires
                    i <= half + 1,
                    0 < stride,
            ;
            lemma_band_bound(s0, stride as int, i as nat, m);
            assert(i * stride <= (half + 1) * (half + 1) * stride) by (nonlinear_arith)
                requires
                    i <= half,
                    0 < stride,
            ;
            assert(m + i * i * stride + i * stride <= m + (half + 1) * (half + 1) * stride) by (nonlinear_arith)
                requires
                    i <= half,
                    0 < stride,
            ;
        }
        let d: usize = i * stride;
        let ghost b = pix@;
        let cur = pix.len();
        let mut j: usize = 0;
        while j < cur
            invariant
                cur == b.len(),
                j <= cur,
                forall|k: int| 0 <= k < b.len() ==> #[trigger] b[k] + d <= usize::MAX,
                pix@ == b + b.map_values(|x: usize| (x + d) as usize).take(j as int),
            decreases cur - j,
        {
            let x = pix[j];
            assert(x == b[j as int]);
            pix.push(x + d);
            j = j + 1;
            proof {
                assert(pix@ =~= b + b.map_values(|x: usize| (x + d) as usize).take(j as int));
            }
        }
        let ghost b2 = pix@;
        let mut j: usize = 0;
        while j < cur
            invariant
                cur == b.len(),
                j <= cur,
                b2 == b + b.map_values(|x: usize| (x + d) as usize).take(cur as int),
                pix@ == b2 + b.map_values(|x: usize| if d <= x { (x - d) as usize } else { 0usize }).take(j as int),
            decreases cur - j,
        {
            let x = pix[j];
            assert(x == b[j as int]);
            pix.push(if d <= x { x - d } else { 0 });
            j = j + 1;
            proof {
                assert(pix@ =~= b2 + b.map_values(|x: usize| if d <= x { (x - d) as usize } else { 0usize }).take(
                    j as int));
            }
        }
        proof {
            assert(b.map_values(|x: usize| (x + d) as usize).take(cur as int) =~= b.map_values(|x: usize| (x + d) as usize));
            assert(b.map_values(|x: usize| if d <= x { (x - d) as usize } else { 0usize }).take(cur as int)
                =~= b.map_values(|x: usize| if d <= x { (x - d) as usize } else { 0usize }));
            assert(pix@ =~= band_step(b, (i * stride) as int));
        }
        i = i + 1;
    }
}

} // verus!
