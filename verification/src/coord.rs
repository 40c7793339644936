//! Small signed coordinates for the region-based finite-slice model.
use vstd::prelude::*;

use crate::board::coord::{abs_int, max_int};

verus! {

/// A square on the infinite board, with 16-bit components.
#[derive(Copy, Clone, Debug, Eq, PartialEq, Hash, Structural)]
pub struct Coord {
    pub x: i16,
    pub y: i16,
}

impl Coord {
    pub fn new(x: i16, y: i16) -> (c: Coord)
        ensures
            c.x == x && c.y == y,
    {
        Coord { x, y }
    }

    /// `max(|x|, |y|)` in mathematical integers.
    pub open spec fn l_inf_spec(self) -> int {
        max_int(abs_int(self.x as int), abs_int(self.y as int))
    }

    /// `|x| + |y|` in mathematical integers.
    pub open spec fn l1_spec(self) -> int {
        abs_int(self.x as int) + abs_int(self.y as int)
    }

    /// Chebyshev norm `max(|x|, |y|)`; the components must not be `i16::MIN`.
    pub fn l_inf(self) -> (n: i16)
        requires
            self.x > i16::MIN,
            self.y > i16::MIN,
        ensures
            n as int == self.l_inf_spec(),
    {
        let ax = if self.x < 0 { -self.x } else { self.x };
        let ay = if self.y < 0 { -self.y } else { self.y };
        if ax >= ay { ax } else { ay }
    }

    /// Manhattan norm `|x| + |y|`; it must fit in an `i16`.
    pub fn l1(self) -> (n: i16)
        requires
            self.l1_spec() <= i16::MAX,
        ensures
            n as int == self.l1_spec(),
    {
        let ax = if self.x < 0 { -self.x } else { self.x };
        let ay = if self.y < 0 { -self.y } else { self.y };
        ax + ay
    }
}

/// The sign of `v` as `-1`, `0` or `1`.
pub open spec fn signum_spec(v: int) -> int {
    if v > 0 {
        1
    } else if v < 0 {
        -1
    } else {
        0
    }
}

/// The sign of `v`: `1`, `-1` or `0`.
pub fn signum_i16(v: i16) -> (s: i16)
    ensures
        s as int == signum_spec(v as int),
{
    if v > 0 {
        1
    } else if v < 0 {
        -1
    } else {
        0
    }
}

} // verus!
