//! Occupancy bitsets and attack detection for White's pieces.
use vstd::prelude::*;

use crate::board::coord::abs_int;
use crate::coord::{signum_i16, signum_spec, Coord};
use crate::pieces::{Layout, PieceKind};
use crate::region::{in_box, sq_index, Region, BOX};

verus! {

/// Bit `i` of `w` is set.
pub open spec fn word_bit(w: u64, i: u64) -> bool {
    (w >> i) & 1u64 == 1u64
}

proof fn lemma_bit_zero(i: u64)
    requires
        i < 64,
    ensures
        !word_bit(0u64, i),
{
    assert((0u64 >> i) & 1u64 == 0u64) by (bit_vector)
        requires
            i < 64,
    ;
}

proof fn lemma_bit_set(w: u64, i: u64, j: u64)
    requires
        i < 64,
        j < 64,
    ensures
        word_bit(w | (1u64 << i), j) == (j == i || word_bit(w, j)),
{
    assert((((w | (1u64 << i)) >> j) & 1u64 == 1u64) == (j == i || (w >> j) & 1u64 == 1u64)) by (bit_vector)
        requires
            i < 64,
            j < 64,
    ;
}

proof fn lemma_bit_clear(w: u64, i: u64, j: u64)
    requires
        i < 64,
        j < 64,
    ensures
        word_bit(w & !(1u64 << i), j) == (j != i && word_bit(w, j)),
{
    assert((((w & !(1u64 << i)) >> j) & 1u64 == 1u64) == (j != i && (w >> j) & 1u64 == 1u64)) by (bit_vector)
        requires
            i < 64,
            j < 64,
    ;
}

proof fn lemma_index_bits(i: usize)
    ensures
        i >> 6usize == i / 64,
        i & 63usize == i % 64,
{
    assert(i >> 6usize == i / 64) by (bit_vector);
    assert(i & 63usize == i % 64) by (bit_vector);
}

/// A set of square numbers, one bit per square.
#[derive(Clone, Debug)]
pub struct Occ {
    data: Vec<u64>,
}

impl View for Occ {
    type V = Set<int>;

    /// The squares in the set.
    closed spec fn view(&self) -> Set<int> {
        Set::new(|sq: int| 0 <= sq < self.capacity() && self.has(sq))
    }
}

impl Occ {
    /// The number of squares the set can hold.
    pub closed spec fn capacity(&self) -> nat {
        self.data@.len() * 64
    }

    /// Whether square `sq` is in the set.
    pub closed spec fn has(&self, sq: int) -> bool {
        word_bit(self.data@[sq / 64], (sq % 64) as u64)
    }

    /// An empty set for squares `0..num_squares`.
    pub fn new(num_squares: usize) -> (o: Occ)
        requires
            num_squares + 63 <= usize::MAX,
        ensures
            o.capacity() >= num_squares,
            o@ == Set::<int>::empty(),
    {
        let words = (num_squares + 63) / 64;
        let mut data: Vec<u64> = Vec::new();
        let mut i: usize = 0;
        while i < words
            invariant
                i <= words,
                data@.len() == i,
                forall|k: int| 0 <= k < i ==> #[trigger] data@[k] == 0u64,
            decreases words - i,
        {
            data.push(0u64);
            i += 1;
        }
        let o = Occ { data };
        proof {
            assert forall|sq: int| 0 <= sq < o.capacity() implies !#[trigger] o.has(sq) by {
                assert(0 <= sq / 64 < data@.len());
                lemma_bit_zero((sq % 64) as u64);
            }
            assert(o@ =~= Set::<int>::empty());
        }
        o
    }

    /// Adds `sq`.
    pub fn set(&mut self, sq: u16)
        requires
            sq < old(self).capacity(),
        ensures
            final(self).capacity() == old(self).capacity(),
            final(self)@ == old(self)@.insert(sq as int),
    {
        let i = sq as usize;
        proof {
            lemma_index_bits(i);
        }
        let w = self.data[i >> 6];
        self.data.set(i >> 6, w | (1u64 << ((i & 63) as u64)));
        proof {
            assert forall|j: int| 0 <= j < self.capacity() implies #[trigger] self.has(j) == (j == sq || old(self).has(j)) by {
                lemma_bit_set(w, (i % 64) as u64, (j % 64) as u64);
                if j / 64 != i / 64 {
                    assert(self.data@[j / 64] == old(self).data@[j / 64]);
                    assert(j != sq);
                }
            }
            assert(self@ =~= old(self)@.insert(sq as int));
        }
    }

    /// Removes `sq`.
    pub fn clear(&mut self, sq: u16)
        requires
            sq < old(self).capacity(),
        ensures
            final(self).capacity() == old(self).capacity(),
            final(self)@ == old(self)@.remove(sq as int),
    {
        let i = sq as usize;
        proof {
            lemma_index_bits(i);
        }
        let w = self.data[i >> 6];
        self.data.set(i >> 6, w & !(1u64 << ((i & 63) as u64)));
        proof {
            assert forall|j: int| 0 <= j < self.capacity() implies #[trigger] self.has(j) == (j != sq && old(self).has(j)) by {
                lemma_bit_clear(w, (i % 64) as u64, (j % 64) as u64);
                if j / 64 != i / 64 {
                    assert(self.data@[j / 64] == old(self).data@[j / 64]);
                    assert(j != sq);
                }
            }
            assert(self@ =~= old(self)@.remove(sq as int));
        }
    }

    /// A copy of the set.
    pub fn copy(&self) -> (o: Occ)
        ensures
            o.capacity() == self.capacity(),
            o@ == self@,
    {
        let data = self.data.clone();
        assert(data@ =~= self.data@);
        Occ { data }
    }

    /// Whether `sq` is in the set.
    pub fn get(&self, sq: u16) -> (b: bool)
        requires
            sq < self.capacity(),
        ensures
            b == self@.contains(sq as int),
    {
        let i = sq as usize;
        proof {
            lemma_index_bits(i);
        }
        (self.data[i >> 6] >> ((i & 63) as u64)) & 1u64 == 1u64
    }
}

/// Some live white piece stands on square `sq`.
pub open spec fn white_on(whites: Seq<u16>, sq: int, captured_code: u16) -> bool {
    exists|i: int| 0 <= i < whites.len() && whites[i] != captured_code && #[trigger] whites[i] == sq
}

/// The squares of the live white pieces.
pub open spec fn white_set(whites: Seq<u16>, captured_code: u16) -> Set<int> {
    Set::new(|sq: int| white_on(whites, sq, captured_code))
}

/// Every code is a square of the region or the captured code.
pub open spec fn codes_ok(whites: Seq<u16>, size: nat, captured_code: u16) -> bool {
    forall|i: int| 0 <= i < whites.len() ==> #[trigger] whites[i] == captured_code || whites[i] < size
}

/// The squares of the live white pieces.
pub fn build_white_occupancy(region: &Region, whites: &[u16], captured_code: u16) -> (occ: Occ)
    requires
        region.wf(),
        codes_ok(whites@, region@.len(), captured_code),
    ensures
        occ.capacity() >= region@.len(),
        occ@ == white_set(whites@, captured_code),
{
    let mut occ = Occ::new(region.size());
    let mut i: usize = 0;
    while i < whites.len()
        invariant
            region.wf(),
            codes_ok(whites@, region@.len(), captured_code),
            i <= whites@.len(),
            occ.capacity() >= region@.len(),
            forall|sq: int| #[trigger] occ@.contains(sq) == exists|k: int|
                0 <= k < i && whites@[k] != captured_code && #[trigger] whites@[k] == sq,
        decreases whites@.len() - i,
    {
        let c = whites[i];
        let ghost before = occ;
        if c != captured_code {
            occ.set(c);
        }
        assert forall|sq: int| #[trigger] occ@.contains(sq) == exists|k: int|
            0 <= k < i + 1 && whites@[k] != captured_code && #[trigger] whites@[k] == sq by {
            if exists|k: int| 0 <= k < i + 1 && whites@[k] != captured_code && #[trigger] whites@[k] == sq {
                let k = choose|k: int| 0 <= k < i + 1 && whites@[k] != captured_code && #[trigger] whites@[k] == sq;
                if k < i {
                    assert(before@.contains(sq));
                }
            }
            if before@.contains(sq) {
                let k = choose|k: int| 0 <= k < i && whites@[k] != captured_code && #[trigger] whites@[k] == sq;
            }
        }
        i += 1;
    }
    assert(occ@ =~= white_set(whites@, captured_code));
    occ
}

/// `k` times the sign `s`.
pub open spec fn mul_sign(k: int, s: int) -> int {
    if s > 0 {
        k
    } else if s < 0 {
        -k
    } else {
        0
    }
}

/// The square `k` steps from `from` along `step`.
pub open spec fn ray_point(from: Coord, step: (int, int), k: int) -> (int, int) {
    (from.x + mul_sign(k, step.0), from.y + mul_sign(k, step.1))
}

/// The square `c` is a region square that holds a piece of `occ`.
pub open spec fn blocked(squares: Seq<Coord>, occ: Set<int>, c: Coord) -> bool {
    squares.contains(c) && occ.contains(sq_index(squares, c))
}

/// The coordinate with the given components.
pub open spec fn coord_at(p: (int, int)) -> Coord {
    Coord { x: p.0 as i16, y: p.1 as i16 }
}

/// The squares strictly between `from` and `target`, which lie on one line, are all free.
pub open spec fn ray_clear_spec(squares: Seq<Coord>, occ: Set<int>, from: Coord, target: Coord) -> bool {
    let dx = target.x - from.x;
    let dy = target.y - from.y;
    let step = (signum_spec(dx), signum_spec(dy));
    let n = if abs_int(dx) >= abs_int(dy) { abs_int(dx) } else { abs_int(dy) };
    &&& !(step.0 == 0 && step.1 == 0)
    &&& forall|k: int| 1 <= k < n ==> !blocked(squares, occ, coord_at(#[trigger] ray_point(from, step, k)))
}

/// A piece of `kind` on `from` attacks `target`, with `occ` blocking the sliders.
pub open spec fn piece_attacks_spec(kind: PieceKind, from: Coord, target: Coord, squares: Seq<Coord>, occ: Set<int>) -> bool {
    let dx = target.x - from.x;
    let dy = target.y - from.y;
    match kind {
        PieceKind::King => abs_int(dx) <= 1 && abs_int(dy) <= 1 && !(dx == 0 && dy == 0),
        PieceKind::Knight => (abs_int(dx) == 1 && abs_int(dy) == 2) || (abs_int(dx) == 2 && abs_int(dy) == 1),
        PieceKind::Rook => (dx == 0 || dy == 0) && ray_clear_spec(squares, occ, from, target),
        PieceKind::Bishop => abs_int(dx) == abs_int(dy) && ray_clear_spec(squares, occ, from, target),
        PieceKind::Queen => (dx == 0 || dy == 0 || abs_int(dx) == abs_int(dy)) && ray_clear_spec(squares, occ, from, target),
    }
}

/// Some live white piece, not standing on `target`, attacks it.
pub open spec fn attacked_spec(
    target: Coord,
    squares: Seq<Coord>,
    slots: Seq<PieceKind>,
    whites: Seq<u16>,
    captured_code: u16,
    occ: Set<int>,
) -> bool {
    exists|i: int|
        0 <= i < whites.len() && whites[i] != captured_code && squares[whites[i] as int] != target
            && piece_attacks_spec(slots[i], #[trigger] squares[whites[i] as int], target, squares, occ)
}

/// A target within one step of the box.
pub open spec fn near_box(c: Coord) -> bool {
    -BOX - 1 <= c.x <= BOX + 1 && -BOX - 1 <= c.y <= BOX + 1
}

/// True iff `target` is attacked by a live white piece; `occ_white` gives the blockers of the
/// sliding pieces.
pub fn is_attacked_by_white(
    target: Coord,
    region: &Region,
    layout: &Layout,
    whites: &[u16],
    captured_code: u16,
    occ_white: &Occ,
) -> (b: bool)
    requires
        region.wf(),
        near_box(target),
        whites@.len() == layout.slots@.len(),
        codes_ok(whites@, region@.len(), captured_code),
        occ_white.capacity() >= region@.len(),
    ensures
        b == attacked_spec(target, region@, layout.slots@, whites@, captured_code, occ_white@),
{
    let mut i: usize = 0;
    while i < layout.slots.len()
        invariant
            region.wf(),
            near_box(target),
            whites@.len() == layout.slots@.len(),
            codes_ok(whites@, region@.len(), captured_code),
            occ_white.capacity() >= region@.len(),
            i <= whites@.len(),
            forall|k: int|
                0 <= k < i && whites@[k] != captured_code && region@[whites@[k] as int] != target ==> !piece_attacks_spec(
                    layout.slots@[k],
                    #[trigger] region@[whites@[k] as int],
                    target,
                    region@,
                    occ_white@,
                ),
        decreases whites@.len() - i,
    {
        let code = whites[i];
        if code != captured_code {
            let from = region.coord_of(code);
            if from != target {
                proof {
                    assert(in_box(region@[code as int]));
                }
                if piece_attacks(layout.slots[i], from, target, region, occ_white) {
                    return true;
                }
            }
        }
        i += 1;
    }
    false
}

/// Whether a piece of `kind` on `from` attacks `target`.
fn piece_attacks(kind: PieceKind, from: Coord, target: Coord, region: &Region, occ_white: &Occ) -> (b: bool)
    requires
        region.wf(),
        in_box(from),
        near_box(target),
        occ_white.capacity() >= region@.len(),
    ensures
        b == piece_attacks_spec(kind, from, target, region@, occ_white@),
{
    let dx = target.x - from.x;
    let dy = target.y - from.y;
    let ax = if dx < 0 { -dx } else { dx };
    let ay = if dy < 0 { -dy } else { dy };
    match kind {
        PieceKind::King => ax <= 1 && ay <= 1 && !(dx == 0 && dy == 0),
        PieceKind::Knight => (ax == 1 && ay == 2) || (ax == 2 && ay == 1),
        PieceKind::Rook => {
            if dx != 0 && dy != 0 {
                return false;
            }
            ray_clear(from, target, region, occ_white)
        },
        PieceKind::Bishop => {
            if ax != ay {
                return false;
            }
            ray_clear(from, target, region, occ_white)
        },
        PieceKind::Queen => {
            if dx == 0 || dy == 0 || ax == ay {
                ray_clear(from, target, region, occ_white)
            } else {
                false
            }
        },
    }
}

/// Whether every square strictly between `from` and `target` (on one line) is free.
fn ray_clear(from: Coord, target: Coord, region: &Region, occ_white: &Occ) -> (b: bool)
    requires
        region.wf(),
        in_box(from),
        near_box(target),
        occ_white.capacity() >= region@.len(),
        target.x == from.x || target.y == from.y || abs_int(target.x - from.x) == abs_int(target.y - from.y),
    ensures
        b == ray_clear_spec(region@, occ_white@, from, target),
{
    let dx = target.x - from.x;
    let dy = target.y - from.y;
    let sx = signum_i16(dx);
    let sy = signum_i16(dy);
    if sx == 0 && sy == 0 {
        return false;
    }
    let ghost step = (sx as int, sy as int);
    let ghost n = if abs_int(dx as int) >= abs_int(dy as int) { abs_int(dx as int) } else { abs_int(dy as int) };
    let mut cur = Coord::new(from.x + sx, from.y + sy);
    let ghost mut k: int = 1;
    proof {
        assert(ray_point(target, (0, 0), 0) == (target.x as int, target.y as int));
        assert(ray_point(from, step, n) == (target.x as int, target.y as int));
    }
    while cur != target
        invariant
            region.wf(),
            in_box(from),
            near_box(target),
            occ_white.capacity() >= region@.len(),
            step == (signum_spec(dx as int), signum_spec(dy as int)),
            sx == step.0 && sy == step.1,
            dx == target.x - from.x && dy == target.y - from.y,
            n == (if abs_int(dx as int) >= abs_int(dy as int) { abs_int(dx as int) } else { abs_int(dy as int) }),
            ray_point(from, step, n) == (target.x as int, target.y as int),
            1 <= k <= n,
            (cur.x as int, cur.y as int) == ray_point(from, step, k),
            forall|j: int| 1 <= j < k ==> !blocked(region@, occ_white@, coord_at(#[trigger] ray_point(from, step, j))),
        decreases n - k,
    {
        proof {
            if k == n {
                assert(cur == target);
            }
            assert(coord_at(ray_point(from, step, k)) == cur);
        }
        match region.sq_of(cur) {
            Some(sq) => {
                if occ_white.get(sq) {
                    proof {
                        assert(blocked(region@, occ_white@, coord_at(ray_point(from, step, k))));
                    }
                    return false;
                }
            },
            None => {},
        }
        cur = Coord::new(cur.x + sx, cur.y + sy);
        proof {
            k = k + 1;
        }
    }
    proof {
        assert(k == n) by {
            if k < n {
                assert(ray_point(from, step, k) != ray_point(from, step, n));
            }
        }
    }
    true
}

} // verus!
