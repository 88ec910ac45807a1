//! Bookkeeping of a simulation run: how collisions are counted, and the
//! simulator's test for a robot stuck inside an obstacle.

use vstd::prelude::*;
use crate::colors::{GREEN, DPURPLE};
use crate::grid::{is_agent, spec_is_agent, W32};

verus! {

/// What happened to the robot during one pass of the command loop.
#[derive(Clone, Copy, Debug, PartialEq, Eq, Structural)]
pub enum MoveEvent {
    /// A step forward ran into an obstacle and was undone.
    BumpForward,
    /// A step backward ran into an obstacle and was undone.
    BumpBack,
    /// The robot turned.
    Turn,
    /// The pass ended.
    PassEnd,
}

/// Collision counting: `hit` records a collision not yet counted,
/// `same_move` that the robot keeps pushing forward into the same
/// obstacle, `hits` the collisions counted so far.
#[derive(Clone, Copy, Debug, PartialEq, Eq, Structural)]
pub struct Collisions {
    pub hit: bool,
    pub same_move: bool,
    pub hits: u32,
}

/// The collision state after event `e`: a bump records a collision (a
/// forward one keeps `same_move` set, a backward one clears it), a turn
/// clears `same_move`, and at the end of a pass a recorded collision is
/// counted unless the robot is still pushing forward.
pub open spec fn spec_collisions_next(c: Collisions, e: MoveEvent) -> Collisions {
    match e {
        MoveEvent::BumpForward => Collisions { hit: true, same_move: true, hits: c.hits },
        MoveEvent::BumpBack => Collisions { hit: true, same_move: false, hits: c.hits },
        MoveEvent::Turn => Collisions { same_move: false, ..c },
        MoveEvent::PassEnd => if c.hit && !c.same_move {
            Collisions { hit: false, hits: (c.hits + 1) as u32, ..c }
        } else {
            c
        },
    }
}

impl Collisions {
    /// No collision yet.
    pub fn new() -> (c: Collisions)
        ensures
            c == (Collisions { hit: false, same_move: false, hits: 0 }),
    {
        Collisions { hit: false, same_move: false, hits: 0 }
    }

    /// Applies event `e`.
    pub fn next(self, e: MoveEvent) -> (c: Collisions)
        requires
            e == MoveEvent::PassEnd && self.hit && !self.same_move ==> self.hits < u32::MAX,
        ensures
            c == spec_collisions_next(self, e),
    {
        match e {
            MoveEvent::BumpForward => Collisions { hit: true, same_move: true, hits: self.hits },
            MoveEvent::BumpBack => Collisions { hit: true, same_move: false, hits: self.hits },
            MoveEvent::Turn => Collisions { hit: self.hit, same_move: false, hits: self.hits },
            MoveEvent::PassEnd => if self.hit && !self.same_move {
                Collisions { hit: false, same_move: self.same_move, hits: self.hits + 1 }
            } else {
                self
            },
        }
    }
}

/// A single collision is counted once: after a bump backward, the end of
/// the pass counts it, and a further pass end counts nothing more.
pub proof fn lemma_collision_counted_once(c: Collisions)
    requires
        c.hits + 1 <= u32::MAX,
    ensures
        spec_collisions_next(spec_collisions_next(c, MoveEvent::BumpBack), MoveEvent::PassEnd).hits == c.hits + 1,
        spec_collisions_next(
            spec_collisions_next(spec_collisions_next(c, MoveEvent::BumpBack), MoveEvent::PassEnd),
            MoveEvent::PassEnd,
        ).hits == c.hits + 1,
{
}

/// How many of the pixels `n < len` around pixel `idx` (on its marker of
/// size 1) have an index equal to the obstacle colour's value, among the
/// first `m`. The index is compared, not the pixel's colour.
pub open spec fn dpurple_index_neighbours(len: int, idx: int, m: int) -> nat
    decreases m,
{
    if m <= 0 {
        0
    } else {
        dpurple_index_neighbours(len, idx, m - 1) + if m - 1 < len && spec_is_agent(m - 1, idx, 1) && m - 1
            == DPURPLE as int {
            1nat
        } else {
            0nat
        }
    }
}

/// Some marker pixel (coloured green) has at least five neighbours whose
/// index equals the obstacle colour's value.
pub open spec fn green_with_five_dpurple_indices(buf: Seq<u32>) -> bool {
    exists|idx: int| 0 <= idx < buf.len() && buf[idx] == GREEN && #[trigger] dpurple_index_neighbours(buf.len() as int, idx,
        buf.len() as int) >= 5
}

/// The simulator's test for a robot stuck in an obstacle, as it is run:
/// some green marker pixel has at least five neighbours whose index (not
/// colour) equals the obstacle colour's value. It never fires
/// (`lemma_no_green_with_five_dpurple_indices`).
pub fn has_green_with_five_dpurple_indices(buf: &Vec<u32>) -> (r: bool)
    requires
        buf.len() <= i32::MAX - W32,
    ensures
        r == green_with_five_dpurple_indices(buf@),
{
    let len = buf.len();
    let mut idx: usize = 0;
    while idx < len
        invariant
            idx <= len,
            len == buf.len(),
            len <= i32::MAX - W32,
            forall|j: int| 0 <= j < idx && buf@[j] == GREEN ==> #[trigger] dpurple_index_neighbours(len as int, j, len as int) < 5,
        decreases len - idx,
    {
        if buf[idx] == GREEN {
            let mut purple: usize = 0;
            let mut n: usize = 0;
            while n < len
                invariant
                    n <= len,
                    idx < len,
                    len <= i32::MAX - W32,
                    purple == dpurple_index_neighbours(len as int, idx as int, n as int),
                    purple <= n,
                decreases len - n,
            {
                if is_agent(n as i32, idx as i32, 1) && n == DPURPLE as usize {
                    purple = purple + 1;
                }
                n = n + 1;
            }
            if purple >= 5 {
                return true;
            }
        }
        idx = idx + 1;
    }
    false
}

/// The stuck test never fires: the marker of size 1 around a pixel is
/// the pixel alone, so at most one neighbour is counted.
pub proof fn lemma_no_green_with_five_dpurple_indices(buf: Seq<u32>)
    ensures
        !green_with_five_dpurple_indices(buf),
{
    assert forall|idx: int| 0 <= idx < buf.len() && buf[idx] == GREEN implies #[trigger] dpurple_index_neighbours(
        buf.len() as int, idx, buf.len() as int) < 5 by {
        lemma_dpurple_index_at_most_one(buf.len() as int, idx, buf.len() as int);
    }
}

/// At most one pixel is counted around `idx`: the pixel itself.
proof fn lemma_dpurple_index_at_most_one(len: int, idx: int, m: int)
    ensures
        dpurple_index_neighbours(len, idx, m) <= if idx < m { 1nat } else { 0nat },
    decreases m,
{
    if m > 0 {
        lemma_dpurple_index_at_most_one(len, idx, m - 1);
        if spec_is_agent(m - 1, idx, 1) {
            let i = choose|i: int| 0 <= i < 1 && #[trigger] crate::grid::on_agent_arm(m - 1, idx, i);
            assert(i == 0);
        }
    }
}

} // verus!
