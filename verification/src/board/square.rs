use vstd::prelude::*;

use crate::board::coord::{in_i32, Coord};

verus! {

/// The packed encoding of a coordinate: high 32 bits hold `x`, low 32 bits hold `y`.
pub open spec fn pack_spec(c: Coord) -> i64 {
    ((c.x as i64) << 32u64) | (c.y as u32 as i64)
}

/// Decoding and then encoding a packed value gives it back.
pub proof fn lemma_pack_unpack(x: i32, y: i32)
    ensures
        ((((x as i64) << 32u64) | (y as u32 as i64)) >> 32u64) as i32 == x,
        ((((x as i64) << 32u64) | (y as u32 as i64))) as i32 == y,
{
    assert(((((x as i64) << 32u64) | (y as u32 as i64)) >> 32u64) as i32 == x) by (bit_vector);
    assert(((((x as i64) << 32u64) | (y as u32 as i64))) as i32 == y) by (bit_vector);
}

/// Every `i64` is the encoding of the coordinate that it decodes to.
pub proof fn lemma_unpack_pack(r: i64)
    ensures
        ((((r >> 32u64) as i32) as i64) << 32u64) | ((r as i32) as u32 as i64) == r,
{
    assert(((((r >> 32u64) as i32) as i64) << 32u64) | ((r as i32) as u32 as i64) == r)
        by (bit_vector);
}

/// A board square packed into a single `i64`; `i64::MIN` stands for a captured piece.
#[derive(Debug, Clone, Copy, PartialEq, Eq, Hash, Structural)]
pub struct Square(pub i64);

impl Square {
    /// This square stands for a captured piece.
    pub open spec fn is_none_spec(self) -> bool {
        self.0 == i64::MIN
    }

    /// The coordinate encoded in this square.
    pub open spec fn coord_spec(self) -> Coord {
        Coord { x: (self.0 >> 32u64) as i32, y: self.0 as i32 }
    }

    /// The square of coordinate `c`.
    pub open spec fn from_coord_spec(c: Coord) -> Square {
        Square(pack_spec(c))
    }

    /// Order used to canonicalise runs of identical pieces: captured pieces first, then
    /// squares by `x`, then by `y`.
    pub open spec fn le_spec(self, other: Square) -> bool {
        if self.is_none_spec() {
            true
        } else if other.is_none_spec() {
            false
        } else {
            let a = self.coord_spec();
            let b = other.coord_spec();
            a.x < b.x || (a.x == b.x && a.y <= b.y)
        }
    }

    /// The captured-piece marker.
    pub fn none() -> (s: Square)
        ensures
            s.is_none_spec(),
            s.0 == i64::MIN,
    {
        Square(i64::MIN)
    }

    pub fn is_none(self) -> (b: bool)
        ensures
            b == self.is_none_spec(),
    {
        self.0 == i64::MIN
    }

    /// Raw packed representation (`i64::MIN` for a captured piece).
    pub fn raw(self) -> (r: i64)
        ensures
            r == self.0,
    {
        self.0
    }

    /// Square from a raw packed representation.
    pub fn from_raw(raw: i64) -> (s: Square)
        ensures
            s.0 == raw,
    {
        Square(raw)
    }

    pub fn from_coord(c: Coord) -> (s: Square)
        ensures
            s == Square::from_coord_spec(c),
            s.coord_spec() == c,
    {
        proof {
            lemma_pack_unpack(c.x, c.y);
        }
        Square(((c.x as i64) << 32u64) | (c.y as u32 as i64))
    }

    pub fn coord(self) -> (c: Coord)
        ensures
            c == self.coord_spec(),
            Square::from_coord_spec(c) == self,
    {
        proof {
            lemma_unpack_pack(self.0);
        }
        Coord { x: (self.0 >> 32u64) as i32, y: self.0 as i32 }
    }

    /// The square moved by `delta`; a captured piece stays captured.
    pub fn shifted(self, delta: Coord) -> (s: Square)
        requires
            self.is_none_spec() || self.coord_spec().add_fits(delta),
        ensures
            self.is_none_spec() ==> s == self,
            !self.is_none_spec() ==> s == Square::from_coord_spec(
                Coord { x: (self.coord_spec().x + delta.x) as i32, y: (self.coord_spec().y + delta.y) as i32 },
            ),
    {
        if self.is_none() {
            self
        } else {
            let c = self.coord();
            Square::from_coord(Coord { x: c.x + delta.x, y: c.y + delta.y })
        }
    }

    /// The square moved by `-delta`; a captured piece stays captured.
    pub fn shifted_neg(self, delta: Coord) -> (s: Square)
        requires
            delta.abs_fits(),
            self.is_none_spec() || self.coord_spec().sub_fits(delta),
        ensures
            self.is_none_spec() ==> s == self,
            !self.is_none_spec() ==> s == Square::from_coord_spec(
                Coord { x: (self.coord_spec().x - delta.x) as i32, y: (self.coord_spec().y - delta.y) as i32 },
            ),
    {
        self.shifted(Coord { x: -delta.x, y: -delta.y })
    }

    /// `self` sorts no later than `other` (captured first, then by `x`, then by `y`).
    pub fn sorts_before_or_eq(self, other: Square) -> (b: bool)
        ensures
            b == self.le_spec(other),
    {
        if self.is_none() {
            true
        } else if other.is_none() {
            false
        } else {
            let a = self.coord();
            let b = other.coord();
            a.x < b.x || (a.x == b.x && a.y <= b.y)
        }
    }
}

/// Two squares are equal exactly when they encode the same coordinate.
pub proof fn lemma_square_coord_injective(a: Square, b: Square)
    ensures
        (a.coord_spec() == b.coord_spec()) ==> a == b,
{
    lemma_unpack_pack(a.0);
    lemma_unpack_pack(b.0);
}

/// Encoding is injective, and the only coordinate that encodes to the captured marker is
/// `(i32::MIN, 0)`.
pub proof fn lemma_from_coord_injective(c: Coord, d: Coord)
    ensures
        (Square::from_coord_spec(c) == Square::from_coord_spec(d)) <==> (c == d),
        Square::from_coord_spec(c).is_none_spec() <==> (c.x == i32::MIN && c.y == 0),
{
    lemma_pack_unpack(c.x, c.y);
    lemma_pack_unpack(d.x, d.y);
    let x = c.x;
    let y = c.y;
    assert(((((x as i64) << 32u64) | (y as u32 as i64)) == i64::MIN) <==> (x == i32::MIN && y == 0))
        by (bit_vector);
}

/// `le_spec` is a total order on squares.
pub proof fn lemma_square_le_total()
    ensures
        vstd::relations::total_ordering(|a: Square, b: Square| a.le_spec(b)),
{
    let leq = |a: Square, b: Square| a.le_spec(b);
    assert forall|a: Square, b: Square| #[trigger] leq(a, b) && #[trigger] leq(b, a) implies a == b by {
        lemma_square_coord_injective(a, b);
    }
}

} // verus!
