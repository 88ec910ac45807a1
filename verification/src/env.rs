//! The simulated environment: a clutter level and the rectangular
//! obstacles drawn at random for it.

use vstd::prelude::*;
use rand::rngs::{OsRng, SmallRng};
use rand::rand_core::OsError;
use rand::{Rng, SeedableRng};
use crate::grid::{Rect, S32, W32, H32, rect_fits, rect_points, border_points};

verus! {

/// The small, fast generator that places the obstacles.
#[verifier::external_type_specification]
#[verifier::external_body]
pub struct ExSmallRng(SmallRng);

/// `SmallRng::seed_from_u64`: a generator whose whole sequence is fixed
/// by `seed`. Nothing is claimed of the generator's state.
#[verifier::external_body]
fn rng_from_seed(seed: u64) -> SmallRng {
    SmallRng::seed_from_u64(seed)
}

/// Why the operating system gave no seed.
#[verifier::external_type_specification]
#[verifier::external_body]
pub struct ExOsError(OsError);

/// `SmallRng::try_from_rng` on the operating system's generator `OsRng`:
/// a generator seeded with bytes from the operating system, or the error
/// it reported. Nothing is claimed of the generator's state, nor of when
/// the operating system fails.
#[verifier::external_body]
fn rng_from_os() -> Result<SmallRng, OsError> {
    SmallRng::try_from_rng(&mut OsRng)
}

/// The operating system could not seed the generator.
#[derive(Clone, Copy, Debug, PartialEq, Eq, Structural)]
pub enum SeedError {
    NoEntropy,
}

/// `Rng::random_range` on `lo..hi`: a value drawn from the half-open
/// range, which must not be empty (the call panics on an empty range).
/// Which value comes out depends on the generator's state and is not
/// stated. A `usize` range whose end fits in a `u32` is drawn by the same
/// `u32` sampler, so callers drawing a small `usize` use this one.
#[verifier::external_body]
fn random_range_u32(rng: &mut SmallRng, lo: u32, hi: u32) -> (r: u32)
    requires
        lo < hi,
    ensures
        lo <= r < hi,
{
    rng.random_range(lo..hi)
}

/// How cluttered the environment is.
#[derive(Clone, Copy, Debug, PartialEq, Eq, Structural)]
pub enum Clutter {
    Low,
    Mid,
    High,
    Nah,
}

/// The range `lo..hi` of the number of obstacles at clutter level `c`:
/// 3..4, 8..16, 17..23 and 3..23 times the scale factor 2.5, each bound
/// rounded down.
pub open spec fn obstacle_count_range(c: Clutter) -> (u32, u32) {
    match c {
        Clutter::Low => (7, 10),
        Clutter::Mid => (20, 40),
        Clutter::High => (42, 57),
        Clutter::Nah => (7, 57),
    }
}

/// The bounds within which a random obstacle falls: its corner at least
/// `10 * S32` from the left and bottom edges and inside the grid, each
/// side from `S32` up to, not including, `10 * S32`.
pub open spec fn random_rect_ok(r: Rect) -> bool {
    &&& 10 * S32 <= r.coords.0 < W32
    &&& 10 * S32 <= r.coords.1 < H32
    &&& S32 <= r.width < 10 * S32
    &&& S32 <= r.height < 10 * S32
}

impl Rect {
    /// A random obstacle.
    pub fn random(rng: &mut SmallRng) -> (r: Rect)
        ensures
            random_rect_ok(r),
    {
        let x = random_range_u32(rng, 10 * S32, W32);
        let y = random_range_u32(rng, 10 * S32, H32);
        let width = random_range_u32(rng, S32, 10 * S32);
        let height = random_range_u32(rng, S32, 10 * S32);
        Rect { coords: (x, y), width, height }
    }
}

/// The environment: its generator, its obstacles and its clutter level.
pub struct Env {
    pub rng: SmallRng,
    pub obs: Vec<Rect>,
    pub c: Clutter,
}

impl Env {
    /// An environment with no obstacles yet, whose generator is seeded
    /// from `seed` when one is given and from the operating system
    /// otherwise; only the operating system can fail, with `NoEntropy`.
    pub fn new(c: Clutter, seed: Option<u64>) -> (r: Result<Env, SeedError>)
        ensures
            seed is Some ==> r is Ok,
            r matches Ok(e) ==> e.obs@ == Seq::<Rect>::empty() && e.c == c,
            r matches Err(err) ==> seed is None && err == SeedError::NoEntropy,
    {
        let rng = match seed {
            Some(x) => rng_from_seed(x),
            None => match rng_from_os() {
                Ok(g) => g,
                Err(_) => {
                    return Err(SeedError::NoEntropy);
                },
            },
        };
        Ok(Env { rng, obs: Vec::new(), c })
    }

    /// Adds a random number of random obstacles, the number drawn from the
    /// range of the clutter level.
    pub fn gen_obs(&mut self)
        ensures
            final(self).c == old(self).c,
            final(self).obs@.len() >= old(self).obs@.len(),
            final(self).obs@.subrange(0, old(self).obs@.len() as int) == old(self).obs@,
            obstacle_count_range(old(self).c).0 <= final(self).obs@.len() - old(self).obs@.len()
                < obstacle_count_range(old(self).c).1,
            forall|i: int| old(self).obs@.len() <= i < final(self).obs@.len() ==> #[trigger] random_rect_ok(
                final(self).obs@[i]),
    {
        let (lo, hi): (u32, u32) = match self.c {
            Clutter::Low => (7, 10),
            Clutter::Mid => (20, 40),
            Clutter::High => (42, 57),
            Clutter::Nah => (7, 57),
        };
        let n = random_range_u32(&mut self.rng, lo, hi);
        let ghost old_obs = self.obs@;
        let mut k: u32 = 0;
        while k < n
            invariant
                k <= n,
                self.c == old(self).c,
                self.obs@.len() == old_obs.len() + k,
                self.obs@.subrange(0, old_obs.len() as int) == old_obs,
                forall|i: int| old_obs.len() <= i < self.obs@.len() ==> #[trigger] random_rect_ok(self.obs@[i]),
            decreases n - k,
        {
            let r = Rect::random(&mut self.rng);
            self.obs.push(r);
            k = k + 1;
            proof {
                assert(self.obs@.subrange(0, old_obs.len() as int) =~= old_obs);
            }
        }
    }
}

/// The points of the first `n` obstacles, obstacle after obstacle.
pub open spec fn obstacle_points(obs: Seq<Rect>, n: nat) -> Seq<(u32, u32)>
    decreases n,
{
    if n == 0 {
        Seq::empty()
    } else {
        obstacle_points(obs, (n - 1) as nat) + rect_points(obs[n - 1], obs[n - 1].height as nat)
    }
}

/// The border points of the first `n` obstacles, obstacle after obstacle.
pub open spec fn obstacle_borders(obs: Seq<Rect>, n: nat) -> Seq<(u32, u32)>
    decreases n,
{
    if n == 0 {
        Seq::empty()
    } else {
        obstacle_borders(obs, (n - 1) as nat) + border_points(obs[n - 1])
    }
}

/// The sides of `r`: left, bottom, right, top.
pub open spec fn sides(r: Rect) -> Seq<((u32, u32), (u32, u32))> {
    let (x, y) = r.coords;
    let x1 = (x + r.width) as u32;
    let y1 = (y + r.height) as u32;
    seq![((x, y), (x, y1)), ((x, y), (x1, y)), ((x1, y), (x1, y1)), ((x, y1), (x1, y1))]
}

/// The sides of the first `n` obstacles, obstacle after obstacle.
pub open spec fn obstacle_sides(obs: Seq<Rect>, n: nat) -> Seq<((u32, u32), (u32, u32))>
    decreases n,
{
    if n == 0 {
        Seq::empty()
    } else {
        obstacle_sides(obs, (n - 1) as nat) + sides(obs[n - 1])
    }
}

impl Env {
    /// The points of all obstacles.
    pub fn obs_coord(&self) -> (ans: Vec<(u32, u32)>)
        requires
            forall|i: int| 0 <= i < self.obs@.len() ==> #[trigger] rect_fits(self.obs@[i]),
        ensures
            ans@ == obstacle_points(self.obs@, self.obs@.len()),
    {
        let mut ans: Vec<(u32, u32)> = Vec::new();
        let mut i: usize = 0;
        while i < self.obs.len()
            invariant
                i <= self.obs.len(),
                forall|i: int| 0 <= i < self.obs@.len() ==> #[trigger] rect_fits(self.obs@[i]),
                ans@ == obstacle_points(self.obs@, i as nat),
            decreases self.obs.len() - i,
        {
            assert(rect_fits(self.obs@[i as int]));
            let mut pts = self.obs[i].to_coords();
            ans.append(&mut pts);
            i = i + 1;
        }
        ans
    }

    /// The border points of all obstacles.
    pub fn obs_bord(&self) -> (ans: Vec<(u32, u32)>)
        requires
            forall|i: int| 0 <= i < self.obs@.len() ==> #[trigger] rect_fits(self.obs@[i]),
        ensures
            ans@ == obstacle_borders(self.obs@, self.obs@.len()),
    {
        let mut ans: Vec<(u32, u32)> = Vec::new();
        let mut i: usize = 0;
        while i < self.obs.len()
            invariant
                i <= self.obs.len(),
                forall|i: int| 0 <= i < self.obs@.len() ==> #[trigger] rect_fits(self.obs@[i]),
                ans@ == obstacle_borders(self.obs@, i as nat),
            decreases self.obs.len() - i,
        {
            assert(rect_fits(self.obs@[i as int]));
            let mut pts = self.obs[i].to_border_coords();
            ans.append(&mut pts);
            i = i + 1;
        }
        ans
    }

    /// The sides of all obstacles.
    pub fn obs_bord_lines(&self) -> (ans: Vec<((u32, u32), (u32, u32))>)
        requires
            forall|i: int| 0 <= i < self.obs@.len() ==> #[trigger] rect_fits(self.obs@[i]),
        ensures
            ans@ == obstacle_sides(self.obs@, self.obs@.len()),
    {
        let mut ans: Vec<((u32, u32), (u32, u32))> = Vec::new();
        let mut i: usize = 0;
        while i < self.obs.len()
            invariant
                i <= self.obs.len(),
                forall|i: int| 0 <= i < self.obs@.len() ==> #[trigger] rect_fits(self.obs@[i]),
                ans@ == obstacle_sides(self.obs@, i as nat),
            decreases self.obs.len() - i,
        {
            assert(rect_fits(self.obs@[i as int]));
            let mut l = self.obs[i].to_border_lines();
            ans.append(&mut l);
            i = i + 1;
        }
        ans
    }
}

/// A random obstacle's far corner fits in a `u32`.
pub proof fn lemma_random_rect_fits(r: Rect)
    requires
        random_rect_ok(r),
    ensures
        rect_fits(r),
{
}

/// Each obstacle whose corner lies within the grid lies in exactly one of
/// the 10 x 10 square cells, `WIDTH / 10` pixels wide, that tile it; the
/// number of such obstacles measures how spread out the clutter is.
pub open spec fn in_some_cell(r: Rect) -> bool {
    r.coords.0 < W32 && r.coords.1 < W32
}

/// How many of the first `n` obstacles lie in a cell.
pub open spec fn count_in_cells(obs: Seq<Rect>, n: int) -> nat
    decreases n,
{
    if n <= 0 {
        0
    } else {
        count_in_cells(obs, n - 1) + if in_some_cell(obs[n - 1]) { 1nat } else { 0nat }
    }
}

/// The number of (cell, obstacle) pairs whose obstacle corner lies in the
/// cell, counted cell by cell.
pub fn obs_regions(obs: &Vec<Rect>) -> (r: usize)
    ensures
        r == count_in_cells(obs@, obs@.len() as int),
{
    let mut total: usize = 0;
    let mut i: usize = 0;
    while i < obs.len()
        invariant
            i <= obs.len(),
            total == count_in_cells(obs@, i as int),
            total <= i,
        decreases obs.len() - i,
    {
        let o = &obs[i];
        let mut hits: usize = 0;
        let mut y: u32 = 0;
        while y < 10
            invariant
                y <= 10,
                hits == if o.coords.1 < y * 25 && o.coords.0 < W32 { 1usize } else { 0usize },
            decreases 10 - y,
        {
            let mut x: u32 = 0;
            while x < 10
                invariant
                    x <= 10,
                    y < 10,
                    hits == if o.coords.1 < y * 25 && o.coords.0 < W32 { 1usize } else { 0usize }
                        + if y * 25 <= o.coords.1 < (y + 1) * 25 && o.coords.0 < x * 25 { 1usize } else { 0usize },
                decreases 10 - x,
            {
                if o.coords.0 >= x * 25 && o.coords.0 < (x + 1) * 25 && o.coords.1 >= y * 25 && o.coords.1 < (y
                    + 1) * 25 {
                    hits = hits + 1;
                }
                x = x + 1;
            }
            y = y + 1;
        }
        total = total + hits;
        i = i + 1;
    }
    total
}

} // verus!
