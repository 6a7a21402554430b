//! The four cardinal movement directions and their coordinate offsets.

use vstd::prelude::*;

verus! {

/// One of the four cardinal movement directions.
#[derive(Copy, Clone, PartialEq, Eq, Structural, Debug)]
pub enum Direction {
    North,
    South,
    East,
    West,
}

/// The fixed coordinate offset of a direction: north is up (negative y),
/// south is down, east is right (positive x), west is left.
pub open spec fn diff_spec(d: Direction) -> (int, int) {
    match d {
        Direction::North => (0int, -1int),
        Direction::South => (0int, 1int),
        Direction::East => (1int, 0int),
        Direction::West => (-1int, 0int),
    }
}

/// Draws one uniformly distributed value below `n` from the thread's
/// random source.
///
/// Relies on `rand::random_range` over the range `0..n`: it returns a
/// value of that range, and panics only when the range is empty, which
/// the precondition rules out.
#[verifier::external_body]
pub(crate) fn rand_below(n: u32) -> (r: u32)
    requires
        n >= 1,
    ensures
        r < n,
{
    rand::random_range(0..n)
}

impl Direction {
    /// Returns one of the four directions, each with probability 1/4.
    pub fn pick() -> (d: Direction) {
        let side = rand_below(4);
        match side {
            0 => Direction::North,
            1 => Direction::South,
            2 => Direction::East,
            _ => Direction::West,
        }
    }

    /// The direction's fixed integer offset as `(dx, dy)`.
    pub fn diff(&self) -> (r: (i32, i32))
        ensures
            (r.0 as int, r.1 as int) == diff_spec(*self),
    {
        match *self {
            Direction::North => (0, -1),
            Direction::South => (0, 1),
            Direction::East => (1, 0),
            Direction::West => (-1, 0),
        }
    }
}

} // verus!
