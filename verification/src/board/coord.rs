use vstd::prelude::*;

verus! {

/// Absolute value of a mathematical integer.
pub open spec fn abs_int(v: int) -> int {
    if v < 0 { -v } else { v }
}

/// Maximum of two mathematical integers.
pub open spec fn max_int(a: int, b: int) -> int {
    if a >= b { a } else { b }
}

/// True iff `v` fits in an `i32`.
pub open spec fn in_i32(v: int) -> bool {
    i32::MIN <= v <= i32::MAX
}

/// An integer board coordinate.
#[derive(Debug, Clone, Copy, PartialEq, Eq, Hash, Structural)]
pub struct Coord {
    pub x: i32,
    pub y: i32,
}

impl Coord {
    /// Chebyshev (L∞) norm `max(|x|, |y|)` in mathematical integers.
    pub open spec fn norm_spec(self) -> int {
        max_int(abs_int(self.x as int), abs_int(self.y as int))
    }

    /// Neither component is `i32::MIN`, so the absolute values fit in an `i32`.
    pub open spec fn abs_fits(self) -> bool {
        self.x > i32::MIN && self.y > i32::MIN
    }

    /// `self + d` fits in `i32` on both components.
    pub open spec fn add_fits(self, d: Coord) -> bool {
        in_i32(self.x + d.x) && in_i32(self.y + d.y)
    }

    /// `self - d` fits in `i32` on both components.
    pub open spec fn sub_fits(self, d: Coord) -> bool {
        in_i32(self.x - d.x) && in_i32(self.y - d.y)
    }

    /// The origin `(0, 0)`.
    pub fn origin() -> (c: Coord)
        ensures
            c.x == 0 && c.y == 0,
    {
        Coord { x: 0, y: 0 }
    }

    pub fn new(x: i32, y: i32) -> (c: Coord)
        ensures
            c.x == x && c.y == y,
    {
        Coord { x, y }
    }

    /// `max(|x|, |y|)`.
    pub fn chebyshev_norm(self) -> (n: i32)
        requires
            self.abs_fits(),
        ensures
            n as int == self.norm_spec(),
    {
        let ax = if self.x < 0 { -self.x } else { self.x };
        let ay = if self.y < 0 { -self.y } else { self.y };
        if ax >= ay { ax } else { ay }
    }

    /// `|x| <= bound && |y| <= bound`.
    pub fn in_box(self, bound: i32) -> (b: bool)
        ensures
            b == (abs_int(self.x as int) <= bound && abs_int(self.y as int) <= bound),
    {
        let ax = if self.x < 0 { -(self.x as i64) } else { self.x as i64 };
        let ay = if self.y < 0 { -(self.y as i64) } else { self.y as i64 };
        ax <= bound as i64 && ay <= bound as i64
    }

    /// Same test as [`Coord::in_box`]: the coordinate lies in the L∞ ball of radius `bound`.
    pub fn in_linf_bound(self, bound: i32) -> (b: bool)
        ensures
            b == (abs_int(self.x as int) <= bound && abs_int(self.y as int) <= bound),
    {
        self.in_box(bound)
    }

    /// Component-wise sum.
    pub fn plus(self, rhs: Coord) -> (c: Coord)
        requires
            self.add_fits(rhs),
        ensures
            c.x == self.x + rhs.x && c.y == self.y + rhs.y,
    {
        Coord { x: self.x + rhs.x, y: self.y + rhs.y }
    }

    /// Component-wise difference.
    pub fn minus(self, rhs: Coord) -> (c: Coord)
        requires
            self.sub_fits(rhs),
        ensures
            c.x == self.x - rhs.x && c.y == self.y - rhs.y,
    {
        Coord { x: self.x - rhs.x, y: self.y - rhs.y }
    }

    /// Component-wise negation.
    pub fn negated(self) -> (c: Coord)
        requires
            self.abs_fits(),
        ensures
            c.x == -self.x && c.y == -self.y,
    {
        Coord { x: -self.x, y: -self.y }
    }

    /// Multiplication of both components by `k`.
    pub fn scaled(self, k: i32) -> (c: Coord)
        requires
            in_i32(self.x * k) && in_i32(self.y * k),
        ensures
            c.x == self.x * k && c.y == self.y * k,
    {
        Coord { x: self.x * k, y: self.y * k }
    }
}

/// The eight king steps, in the order used for move generation.
pub open spec fn king_step_spec(i: int) -> Coord {
    if i == 0 { Coord { x: -1i32, y: -1i32 } }
    else if i == 1 { Coord { x: -1i32, y: 0 } }
    else if i == 2 { Coord { x: -1i32, y: 1 } }
    else if i == 3 { Coord { x: 0, y: -1i32 } }
    else if i == 4 { Coord { x: 0, y: 1 } }
    else if i == 5 { Coord { x: 1, y: -1i32 } }
    else if i == 6 { Coord { x: 1, y: 0 } }
    else { Coord { x: 1, y: 1 } }
}

/// The `i`-th of the eight king steps.
pub fn king_step(i: usize) -> (c: Coord)
    requires
        i < 8,
    ensures
        c == king_step_spec(i as int),
{
    if i == 0 { Coord { x: -1i32, y: -1i32 } }
    else if i == 1 { Coord { x: -1i32, y: 0 } }
    else if i == 2 { Coord { x: -1i32, y: 1 } }
    else if i == 3 { Coord { x: 0, y: -1i32 } }
    else if i == 4 { Coord { x: 0, y: 1 } }
    else if i == 5 { Coord { x: 1, y: -1i32 } }
    else if i == 6 { Coord { x: 1, y: 0 } }
    else { Coord { x: 1, y: 1 } }
}

/// The king steps are exactly the non-zero coordinates of norm 1.
pub proof fn lemma_king_steps_are_unit_moves(c: Coord)
    ensures
        (c.norm_spec() == 1) <==> (exists|i: int| 0 <= i < 8 && king_step_spec(i) == c),
{
    if c.norm_spec() == 1 {
        if c.x == -1 && c.y == -1 { assert(king_step_spec(0) == c); }
        else if c.x == -1 && c.y == 0 { assert(king_step_spec(1) == c); }
        else if c.x == -1 && c.y == 1 { assert(king_step_spec(2) == c); }
        else if c.x == 0 && c.y == -1 { assert(king_step_spec(3) == c); }
        else if c.x == 0 && c.y == 1 { assert(king_step_spec(4) == c); }
        else if c.x == 1 && c.y == -1 { assert(king_step_spec(5) == c); }
        else if c.x == 1 && c.y == 0 { assert(king_step_spec(6) == c); }
        else { assert(king_step_spec(7) == c); }
    }
}

} // verus!
