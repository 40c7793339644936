use vstd::prelude::*;

use crate::board::coord::{abs_int, king_step, king_step_spec, Coord};
use crate::board::position::{canonical_slots, lemma_canonical_elements, Position, MAX_PIECES};
use crate::board::square::Square;
use crate::chess::layout::PieceLayout;
use crate::chess::piece::{
    bishop_dirs_spec, knight_delta, knight_deltas_spec, queen_dirs_spec, rook_dirs_spec, PieceKind,
};

verus! {

/// Largest absolute coordinate that the rules accept; all differences of such coordinates
/// and all slides of at most this length fit in an `i32`.
pub open spec fn coord_limit() -> int {
    0x2000_0000
}

/// Both components of `c` are within [`coord_limit`].
pub open spec fn within_limit(c: Coord) -> bool {
    abs_int(c.x as int) <= coord_limit() && abs_int(c.y as int) <= coord_limit()
}

/// Both components of `c` have absolute value at most `lim`.
pub open spec fn within(c: Coord, lim: int) -> bool {
    abs_int(c.x as int) <= lim && abs_int(c.y as int) <= lim
}

/// The square holds a piece (it is not the captured marker).
pub open spec fn present(s: Square) -> bool {
    !s.is_none_spec()
}

/// Every piece in `sq` stands within `lim`.
pub open spec fn squares_within(sq: Seq<Square>, lim: int) -> bool {
    forall|i: int| 0 <= i < sq.len() && present(sq[i]) ==> within(#[trigger] sq[i].coord_spec(), lim)
}

/// Every piece in `sq` stands within [`coord_limit`].
pub open spec fn squares_within_limit(sq: Seq<Square>) -> bool {
    forall|i: int| 0 <= i < sq.len() && present(sq[i]) ==> within_limit(#[trigger] sq[i].coord_spec())
}

/// Sign of an integer.
pub open spec fn sign(v: int) -> int {
    if v > 0 { 1 } else if v < 0 { -1 } else { 0 }
}

impl Clone for Rules {
    fn clone(&self) -> (r: Rules)
        ensures
            r.layout.kinds_spec() == self.layout.kinds_spec(),
            r.layout.runs_spec() == self.layout.runs_spec(),
            r.layout.king_index_spec() == self.layout.king_index_spec(),
            r.move_bound == self.move_bound,
    {
        Rules { layout: self.layout.clone(), move_bound: self.move_bound }
    }
}

/// For a non-zero vector on a rank, file or diagonal: its unit direction and its length.
pub open spec fn dir_and_distance_spec(dx: int, dy: int) -> Option<(int, int, int)> {
    if dx == 0 && dy != 0 {
        Some((0, sign(dy), abs_int(dy)))
    } else if dy == 0 && dx != 0 {
        Some((sign(dx), 0, abs_int(dx)))
    } else if dx != 0 && dy != 0 && abs_int(dx) == abs_int(dy) {
        Some((sign(dx), sign(dy), abs_int(dx)))
    } else {
        None
    }
}

/// The step count `s` with `(wx, wy) == s * (ux, uy)`, if there is one, for a unit direction
/// `(ux, uy)`.
pub open spec fn scalar_along_spec(wx: int, wy: int, ux: int, uy: int) -> Option<int> {
    let s = if ux != 0 { wx * ux } else { wy * uy };
    if wx == s * ux && wy == s * uy { Some(s) } else { None }
}

/// `dirs` holds the direction `(ux, uy)`.
pub open spec fn dirs_contain(dirs: Seq<Coord>, ux: int, uy: int) -> bool {
    exists|k: int| 0 <= k < dirs.len() && dirs[k].x == ux && dirs[k].y == uy
}

/// The piece at `other` stands strictly between `from` and `from + dist * (ux, uy)`.
pub open spec fn blocks_ray(from: Coord, ux: int, uy: int, dist: int, other: Coord) -> bool {
    other != from && match scalar_along_spec(other.x - from.x, other.y - from.y, ux, uy) {
        Some(s) => 0 < s < dist,
        None => false,
    }
}

/// A slider at `from` moving along `dirs` attacks `target`, given the pieces `sq` as
/// blockers.
pub open spec fn rider_attacks_spec(dirs: Seq<Coord>, from: Coord, target: Coord, sq: Seq<Square>) -> bool {
    match dir_and_distance_spec(target.x - from.x, target.y - from.y) {
        None => false,
        Some((ux, uy, dist)) => {
            &&& dirs_contain(dirs, ux, uy)
            &&& forall|j: int|
                0 <= j < sq.len() && present(sq[j]) ==> !blocks_ray(from, ux, uy, dist, #[trigger] sq[j].coord_spec())
        },
    }
}

/// A white piece of `kind` at `from` attacks `target`, given the pieces `sq` as blockers.
pub open spec fn piece_attacks_spec(kind: PieceKind, from: Coord, target: Coord, sq: Seq<Square>) -> bool {
    let dx = target.x - from.x;
    let dy = target.y - from.y;
    match kind {
        PieceKind::King => (Coord { x: dx as i32, y: dy as i32 }).norm_spec() == 1,
        PieceKind::Knight => (abs_int(dx) == 2 && abs_int(dy) == 1) || (abs_int(dx) == 1 && abs_int(dy) == 2),
        PieceKind::Rook => rider_attacks_spec(rook_dirs_spec(), from, target, sq),
        PieceKind::Bishop => rider_attacks_spec(bishop_dirs_spec(), from, target, sq),
        PieceKind::Queen => rider_attacks_spec(queen_dirs_spec(), from, target, sq),
    }
}

/// `dirs` holds the direction `(ux, uy)` exactly when it holds that coordinate.
proof fn lemma_dirs_contain(dirs: Seq<Coord>, ux: int, uy: int)
    requires
        -1 <= ux <= 1,
        -1 <= uy <= 1,
    ensures
        dirs_contain(dirs, ux, uy) <==> dirs.contains(Coord { x: ux as i32, y: uy as i32 }),
{
    let c = Coord { x: ux as i32, y: uy as i32 };
    if dirs_contain(dirs, ux, uy) {
        let k = choose|k: int| 0 <= k < dirs.len() && dirs[k].x == ux && dirs[k].y == uy;
        assert(dirs[k] == c);
    }
    if dirs.contains(c) {
        let k = choose|k: int| 0 <= k < dirs.len() && dirs[k] == c;
        assert(dirs[k].x == ux && dirs[k].y == uy);
    }
}

/// No piece of `sq` stands strictly between `from` and `target` on the line joining them.
pub open spec fn ray_clear(from: Coord, target: Coord, sq: Seq<Square>) -> bool {
    let dx = target.x - from.x;
    let dy = target.y - from.y;
    let dist = if abs_int(dx) >= abs_int(dy) { abs_int(dx) } else { abs_int(dy) };
    forall|j: int| 0 <= j < sq.len() && present(sq[j]) ==> !blocks_ray(from, sign(dx), sign(dy), dist, #[trigger] sq[j].coord_spec())
}

/// A bishop attacks exactly the squares on its diagonals with nothing in between, a rook the
/// squares on its rank and file with nothing in between, and a queen both.
pub proof fn lemma_slider_attacks_geometry(kind: PieceKind, from: Coord, target: Coord, sq: Seq<Square>)
    ensures
        ({
            let dx = target.x - from.x;
            let dy = target.y - from.y;
            let diagonal = dx != 0 && abs_int(dx) == abs_int(dy);
            let straight = (dx == 0) != (dy == 0);
            &&& kind == PieceKind::Bishop ==> (piece_attacks_spec(kind, from, target, sq) <==> diagonal && ray_clear(from, target, sq))
            &&& kind == PieceKind::Rook ==> (piece_attacks_spec(kind, from, target, sq) <==> straight && ray_clear(from, target, sq))
            &&& kind == PieceKind::Queen ==> (piece_attacks_spec(kind, from, target, sq)
                <==> (diagonal || straight) && ray_clear(from, target, sq))
        }),
{
    crate::chess::piece::lemma_rook_dirs_are_orthogonal();
    crate::chess::piece::lemma_bishop_dirs_are_diagonal();
    crate::chess::piece::lemma_queen_dirs_are_king_steps();
    let dx = target.x - from.x;
    let dy = target.y - from.y;
    let ux = sign(dx);
    let uy = sign(dy);
    lemma_dirs_contain(rook_dirs_spec(), ux, uy);
    lemma_dirs_contain(bishop_dirs_spec(), ux, uy);
    lemma_dirs_contain(queen_dirs_spec(), ux, uy);
    let c = Coord { x: ux as i32, y: uy as i32 };
    assert(c.x as int == ux && c.y as int == uy);
}

/// Some white piece attacks `target`.
pub open spec fn attacked_spec(kinds: Seq<PieceKind>, sq: Seq<Square>, target: Coord) -> bool {
    exists|i: int|
        0 <= i < sq.len() && present(sq[i]) && #[trigger] piece_attacks_spec(
            kinds[i],
            sq[i].coord_spec(),
            target,
            sq,
        )
}

/// Structural legality: no piece on the black king's square, no two pieces on one square,
/// and the white king (if present) not next to the black king.
pub open spec fn legal_spec(king: Option<usize>, sq: Seq<Square>) -> bool {
    &&& forall|i: int| 0 <= i < sq.len() && present(sq[i]) ==> #[trigger] sq[i].coord_spec() != (Coord { x: 0, y: 0 })
    &&& forall|i: int, j: int|
        0 <= i < j < sq.len() && present(sq[i]) && present(sq[j]) ==> #[trigger] sq[i] != #[trigger] sq[j]
    &&& match king {
        Some(k) => k < sq.len() && present(sq[k as int]) ==> sq[k as int].coord_spec().norm_spec() > 1,
        None => true,
    }
}

/// The captured marker.
pub open spec fn none_square() -> Square {
    Square(i64::MIN)
}

/// Slots after the black king steps by `delta` and the board is re-centred on it: the piece
/// on `delta` (if any) is captured, every other piece in use moves by `-delta`.
pub open spec fn recenter_slots(slots: Seq<Square>, count: nat, delta: Coord) -> Seq<Square> {
    Seq::new(
        slots.len(),
        |i: int|
            if i < count && present(slots[i]) {
                if slots[i].coord_spec() == delta {
                    none_square()
                } else {
                    Square::from_coord_spec(
                        Coord {
                            x: (slots[i].coord_spec().x - delta.x) as i32,
                            y: (slots[i].coord_spec().y - delta.y) as i32,
                        },
                    )
                }
            } else {
                slots[i]
            },
    )
}

/// Moves of the black king as step and resulting slots, compared with the outputs of move
/// generation.
pub open spec fn black_moves_match(
    out: Seq<(Coord, Position)>,
    expected: Seq<(Coord, Seq<Square>)>,
    count: nat,
) -> bool {
    &&& out.len() == expected.len()
    &&& forall|i: int|
        0 <= i < out.len() ==> {
            &&& (#[trigger] out[i]).0 == expected[i].0
            &&& out[i].1.slots() == expected[i].1
            &&& out[i].1.len_spec() == count
        }
}

/// The outputs of move generation are, in order, positions with the expected slots.
pub open spec fn positions_match(out: Seq<Position>, expected: Seq<Seq<Square>>, count: nat) -> bool {
    &&& out.len() == expected.len()
    &&& forall|i: int|
        0 <= i < out.len() ==> (#[trigger] out[i]).slots() == expected[i] && out[i].len_spec() == count
}

/// `new` is `old` followed by positions with the slots in `added`.
pub open spec fn extends_with(old: Seq<Position>, new: Seq<Position>, added: Seq<Seq<Square>>, count: nat) -> bool {
    &&& new.len() == old.len() + added.len()
    &&& forall|j: int| 0 <= j < old.len() ==> #[trigger] new[j] == old[j]
    &&& forall|j: int|
        0 <= j < added.len() ==> (#[trigger] new[old.len() + j]).slots() == added[j]
            && new[old.len() + j].len_spec() == count
}

/// Matching outputs followed by an extension match the concatenated expectation.
pub proof fn lemma_extend_match(
    old: Seq<Position>,
    new: Seq<Position>,
    expected: Seq<Seq<Square>>,
    added: Seq<Seq<Square>>,
    count: nat,
)
    requires
        positions_match(old, expected, count),
        extends_with(old, new, added, count),
    ensures
        positions_match(new, expected + added, count),
{
    assert forall|i: int| 0 <= i < new.len() implies (#[trigger] new[i]).slots() == (expected + added)[i]
        && new[i].len_spec() == count by {
        if i < old.len() {
            assert(new[i] == old[i]);
        } else {
            assert(new[old.len() + (i - old.len())] == new[i]);
        }
    }
}

/// Extensions compose.
pub proof fn lemma_extend_trans(
    a: Seq<Position>,
    b: Seq<Position>,
    c: Seq<Position>,
    x: Seq<Seq<Square>>,
    y: Seq<Seq<Square>>,
    count: nat,
)
    requires
        extends_with(a, b, x, count),
        extends_with(b, c, y, count),
    ensures
        extends_with(a, c, x + y, count),
{
    assert forall|j: int| 0 <= j < (x + y).len() implies (#[trigger] c[a.len() + j]).slots() == (x + y)[j]
        && c[a.len() + j].len_spec() == count by {
        if j < x.len() {
            assert(c[a.len() + j] == b[a.len() + j]);
        } else {
            assert(c[b.len() + (j - x.len())] == c[a.len() + j]);
        }
    }
}

/// The eight king steps as a sequence.
pub open spec fn king_steps_seq() -> Seq<Coord> {
    Seq::new(8, |i: int| king_step_spec(i))
}

/// Rules for "white pieces against a lone black king", relative to the black king.
#[derive(Debug)]
pub struct Rules {
    pub layout: PieceLayout,
    pub move_bound: i32,
}

/// For a non-zero vector on a rank, file or diagonal: its unit direction and its length.
fn normalized_dir_and_distance(v: Coord) -> (r: Option<(Coord, i32)>)
    requires
        within(v, 2 * coord_limit()),
    ensures
        match dir_and_distance_spec(v.x as int, v.y as int) {
            None => r is None,
            Some((ux, uy, d)) => r matches Some((u, dd)) && u.x == ux && u.y == uy && dd == d,
        },
{
    let dx = v.x;
    let dy = v.y;
    let sx: i32 = if dx > 0 { 1 } else if dx < 0 { -1 } else { 0 };
    let sy: i32 = if dy > 0 { 1 } else if dy < 0 { -1 } else { 0 };
    let ax = if dx < 0 { -dx } else { dx };
    let ay = if dy < 0 { -dy } else { dy };
    if dx == 0 && dy != 0 {
        return Some((Coord::new(0, sy), ay));
    }
    if dy == 0 && dx != 0 {
        return Some((Coord::new(sx, 0), ax));
    }
    if dx != 0 && dy != 0 && ax == ay {
        return Some((Coord::new(sx, sy), ax));
    }
    None
}

/// The step count `s` with `v == s * dir`, for a unit direction `dir`.
fn scalar_along_dir_if_aligned(v: Coord, dir: Coord) -> (r: Option<i32>)
    requires
        within(v, 2 * coord_limit()),
        -1 <= dir.x <= 1,
        -1 <= dir.y <= 1,
    ensures
        match r {
            None => scalar_along_spec(v.x as int, v.y as int, dir.x as int, dir.y as int) is None,
            Some(s) => scalar_along_spec(v.x as int, v.y as int, dir.x as int, dir.y as int) == Some(s as int),
        },
{
    proof {
        let lim = 2 * coord_limit();
        assert(-lim <= v.x * dir.x <= lim) by (nonlinear_arith)
            requires
                -1 <= dir.x <= 1,
                abs_int(v.x as int) <= lim,
        ;
        assert(-lim <= v.y * dir.y <= lim) by (nonlinear_arith)
            requires
                -1 <= dir.y <= 1,
                abs_int(v.y as int) <= lim,
        ;
    }
    let s: i32 = if dir.x != 0 { v.x * dir.x } else { v.y * dir.y };
    proof {
        let lim = 2 * coord_limit();
        assert(-lim <= s * dir.x <= lim) by (nonlinear_arith)
            requires
                -lim <= s <= lim,
                -1 <= dir.x <= 1,
        ;
        assert(-lim <= s * dir.y <= lim) by (nonlinear_arith)
            requires
                -lim <= s <= lim,
                -1 <= dir.y <= 1,
        ;
    }
    if v.x == s * dir.x && v.y == s * dir.y {
        Some(s)
    } else {
        None
    }
}

/// `dirs` holds `dir`.
fn contains_dir(dirs: &Vec<Coord>, dir: Coord) -> (b: bool)
    ensures
        b == dirs_contain(dirs@, dir.x as int, dir.y as int),
{
    let mut k: usize = 0;
    while k < dirs.len()
        invariant
            k <= dirs@.len(),
            forall|j: int| 0 <= j < k ==> !(dirs@[j].x == dir.x && dirs@[j].y == dir.y),
        decreases dirs@.len() - k,
    {
        if dirs[k].x == dir.x && dirs[k].y == dir.y {
            return true;
        }
        k += 1;
    }
    false
}

impl Rules {
    /// Slots after the black king takes step `k`, re-centred and canonicalised.
    pub open spec fn black_step_slots(&self, pos: Position, k: int) -> Seq<Square> {
        canonical_slots(
            recenter_slots(pos.slots(), pos.len_spec(), king_step_spec(k)),
            self.layout.runs_spec(),
            self.layout.runs_spec().len(),
        )
    }

    /// Step `k` would capture the white king.
    pub open spec fn black_step_hits_king(&self, pos: Position, k: int) -> bool {
        match self.layout.king_index_spec() {
            Some(ki) => present(pos@[ki as int]) && pos@[ki as int].coord_spec() == king_step_spec(k),
            None => false,
        }
    }

    /// Step `k` is a legal black king move.
    pub open spec fn black_step_ok(&self, pos: Position, k: int) -> bool {
        let next = self.black_step_slots(pos, k).take(pos.len_spec() as int);
        &&& !self.black_step_hits_king(pos, k)
        &&& legal_spec(self.layout.king_index_spec(), next)
        &&& !attacked_spec(self.layout.kinds_spec(), next, Coord { x: 0, y: 0 })
    }

    /// The legal black king moves among the first `k` steps, in step order.
    pub open spec fn black_moves_upto(&self, pos: Position, k: nat) -> Seq<(Coord, Seq<Square>)>
        decreases k,
    {
        if k == 0 {
            Seq::empty()
        } else {
            let prev = self.black_moves_upto(pos, (k - 1) as nat);
            if self.black_step_ok(pos, k - 1) {
                prev.push((king_step_spec(k - 1), self.black_step_slots(pos, k - 1)))
            } else {
                prev
            }
        }
    }

    /// All legal black king moves, in step order.
    pub open spec fn black_moves_spec(&self, pos: Position) -> Seq<(Coord, Seq<Square>)> {
        self.black_moves_upto(pos, 8)
    }

    /// `pos` holds one slot per piece of the layout, with every piece within `lim`.
    pub open spec fn matches_layout(&self, pos: Position, lim: int) -> bool {
        &&& pos.len_spec() == self.layout.kinds_spec().len()
        &&& self.layout.kinds_spec().len() <= MAX_PIECES
        &&& squares_within(pos@, lim)
    }

    /// Slots after piece `i` moves to `to`, canonicalised.
    pub open spec fn moved_slots(&self, pos: Position, i: int, to: Coord) -> Seq<Square> {
        canonical_slots(
            pos.slots().update(i, Square::from_coord_spec(to)),
            self.layout.runs_spec(),
            self.layout.runs_spec().len(),
        )
    }

    /// `to` is not the black king's square and no other piece stands there.
    pub open spec fn target_free(&self, pos: Position, i: int, to: Coord) -> bool {
        &&& to != (Coord { x: 0, y: 0 })
        &&& !(exists|j: int|
            0 <= j < pos@.len() && j != i && present(pos@[j]) && pos@[j] == Square::from_coord_spec(to))
    }

    /// Moving piece `i` to `to` gives a structurally legal position.
    pub open spec fn move_legal(&self, pos: Position, i: int, to: Coord) -> bool {
        legal_spec(self.layout.king_index_spec(), self.moved_slots(pos, i, to).take(pos.len_spec() as int))
    }

    /// The square `from + d`.
    pub open spec fn offset(from: Coord, d: Coord) -> Coord {
        Coord { x: (from.x + d.x) as i32, y: (from.y + d.y) as i32 }
    }

    /// Moves of piece `i` by the first `j` of the jumps `deltas` (a king when `is_king`), in order.
    pub open spec fn jumps_upto(&self, pos: Position, i: int, deltas: Seq<Coord>, is_king: bool, j: nat) -> Seq<Seq<Square>>
        decreases j,
    {
        if j == 0 {
            Seq::empty()
        } else {
            let prev = self.jumps_upto(pos, i, deltas, is_king, (j - 1) as nat);
            let to = Self::offset(pos@[i].coord_spec(), deltas[j - 1]);
            if self.target_free(pos, i, to) && (!is_king || to.norm_spec() > 1) && self.move_legal(pos, i, to) {
                prev.push(self.moved_slots(pos, i, to))
            } else {
                prev
            }
        }
    }

    /// The square `s` steps from piece `i` along `dir`.
    pub open spec fn ray_square(pos: Position, i: int, dir: Coord, s: int) -> Coord {
        Coord { x: (pos@[i].coord_spec().x + dir.x * s) as i32, y: (pos@[i].coord_spec().y + dir.y * s) as i32 }
    }

    /// Slides of piece `i` along `dir` of `s` squares and more, stopping at the first square
    /// that is occupied or is the black king's.
    pub open spec fn ray_from(&self, pos: Position, i: int, dir: Coord, s: int) -> Seq<Seq<Square>>
        decreases self.move_bound + 1 - s,
    {
        if s < 1 || s > self.move_bound {
            Seq::empty()
        } else {
            let to = Self::ray_square(pos, i, dir, s);
            if !self.target_free(pos, i, to) {
                Seq::empty()
            } else {
                let here = if self.move_legal(pos, i, to) { seq![self.moved_slots(pos, i, to)] } else { Seq::empty() };
                here + self.ray_from(pos, i, dir, s + 1)
            }
        }
    }

    /// Slides of piece `i` along the first `d` of `dirs`, direction by direction.
    pub open spec fn rays_upto(&self, pos: Position, i: int, dirs: Seq<Coord>, d: nat) -> Seq<Seq<Square>>
        decreases d,
    {
        if d == 0 {
            Seq::empty()
        } else {
            self.rays_upto(pos, i, dirs, (d - 1) as nat) + self.ray_from(pos, i, dirs[d - 1], 1)
        }
    }

    /// All moves of piece `i`, in generation order.
    pub open spec fn piece_moves(&self, pos: Position, i: int) -> Seq<Seq<Square>> {
        if !present(pos@[i]) {
            Seq::empty()
        } else {
            let kind = self.layout.kinds_spec()[i];
            match kind {
                PieceKind::King => self.jumps_upto(pos, i, king_steps_seq(), true, 8),
                PieceKind::Knight => self.jumps_upto(pos, i, knight_deltas_spec(), false, 8),
                _ => self.rays_upto(pos, i, kind.slide_dirs_spec(), kind.slide_dirs_spec().len()),
            }
        }
    }

    /// Moves of the first `k` pieces, piece by piece.
    pub open spec fn pieces_moves_upto(&self, pos: Position, k: nat) -> Seq<Seq<Square>>
        decreases k,
    {
        if k == 0 {
            Seq::empty()
        } else {
            self.pieces_moves_upto(pos, (k - 1) as nat) + self.piece_moves(pos, k - 1)
        }
    }

    /// All white moves, as resulting slots, in generation order; passing (when allowed)
    /// comes first.
    pub open spec fn white_moves_spec(&self, pos: Position, allow_pass: bool) -> Seq<Seq<Square>> {
        (if allow_pass { seq![pos.slots()] } else { Seq::empty() }) + self.pieces_moves_upto(pos, pos.len_spec())
    }

    /// The layout has at most `MAX_PIECES` slots and sliders move at least one square.
    pub open spec fn wf(&self) -> bool {
        self.layout.kinds_spec().len() <= MAX_PIECES && self.move_bound >= 1
    }

    /// `pos` fits the layout and its pieces stand within [`coord_limit`].
    pub open spec fn fits(&self, pos: Position) -> bool {
        &&& pos.len_spec() <= self.layout.kinds_spec().len()
        &&& self.layout.kinds_spec().len() <= MAX_PIECES
        &&& squares_within_limit(pos@)
    }

    pub fn new(layout: PieceLayout, move_bound: i32) -> (r: Rules)
        requires
            move_bound >= 1,
        ensures
            r.layout == layout,
            r.move_bound == move_bound,
    {
        Rules { layout, move_bound }
    }

    /// True iff no piece stands on the black king's square, no two pieces share a square,
    /// and the white king (if present) is not next to the black king.
    pub fn is_legal_position(&self, pos: &Position) -> (b: bool)
        requires
            squares_within(pos@, 2 * coord_limit()),
            match self.layout.king_index_spec() {
                Some(k) => k < pos.len_spec(),
                None => true,
            },
        ensures
            b == legal_spec(self.layout.king_index_spec(), pos@),
    {
        let sq = pos.squares();
        let n = sq.len();
        let mut i: usize = 0;
        while i < n
            invariant
                i <= n,
                n == sq@.len(),
                sq@ == pos@,
                forall|a: int| 0 <= a < i && present(sq@[a]) ==> #[trigger] sq@[a].coord_spec() != (Coord { x: 0, y: 0 }),
                forall|a: int, b: int|
                    0 <= a < b < i && present(sq@[a]) && present(sq@[b]) ==> #[trigger] sq@[a] != #[trigger] sq@[b],
            decreases n - i,
        {
            let s = sq[i];
            if !s.is_none() {
                let c = s.coord();
                if c.x == 0 && c.y == 0 {
                    proof {
                        assert(present(sq@[i as int]) && sq@[i as int].coord_spec() == Coord { x: 0, y: 0 });
                    }
                    return false;
                }
                let mut j: usize = 0;
                while j < i
                    invariant
                        j <= i < n,
                        n == sq@.len(),
                        s == sq@[i as int],
                        sq@ == pos@,
                        forall|a: int| 0 <= a < j && present(sq@[a]) ==> sq@[a] != s,
                    decreases i - j,
                {
                    let t = sq[j];
                    if !t.is_none() && t == s {
                        proof {
                            assert(present(pos@[j as int]) && present(pos@[i as int]) && pos@[j as int] == pos@[i as int]);
                            assert(!legal_spec(self.layout.king_index_spec(), pos@));
                        }
                        return false;
                    }
                    j += 1;
                }
            }
            i += 1;
        }
        if let Some(k_idx) = self.layout.white_king_index() {
            let ks = pos.square(k_idx);
            proof {
                if present(ks) {
                    assert(within(pos@[k_idx as int].coord_spec(), 2 * coord_limit()));
                }
            }
            if !ks.is_none() && ks.coord().chebyshev_norm() <= 1 {
                return false;
            }
        }
        true
    }

    /// Does any white piece attack `target`?
    pub fn is_attacked(&self, target: Coord, pos: &Position) -> (b: bool)
        requires
            within_limit(target),
            squares_within_limit(pos@),
            pos.len_spec() <= self.layout.kinds_spec().len(),
        ensures
            b == attacked_spec(self.layout.kinds_spec(), pos@, target),
    {
        let n = pos.count();
        let mut i: usize = 0;
        while i < n
            invariant
                i <= n,
                n == pos@.len(),
                n == pos.len_spec(),
                n <= self.layout.kinds_spec().len(),
                within_limit(target),
                squares_within_limit(pos@),
                forall|a: int|
                    0 <= a < i && present(pos@[a]) ==> !#[trigger] piece_attacks_spec(
                        self.layout.kinds_spec()[a],
                        pos@[a].coord_spec(),
                        target,
                        pos@,
                    ),
            decreases n - i,
        {
            let sq = pos.square(i);
            if !sq.is_none() {
                assert(within_limit(pos@[i as int].coord_spec()));
                let kind = self.layout.kind(i);
                if self.piece_attacks(kind, sq.coord(), target, pos) {
                    return true;
                }
            }
            i += 1;
        }
        false
    }

    /// Does a piece of `kind` at `from` attack `target`?
    fn piece_attacks(&self, kind: PieceKind, from: Coord, target: Coord, pos: &Position) -> (b: bool)
        requires
            within_limit(from),
            within_limit(target),
            squares_within_limit(pos@),
        ensures
            b == piece_attacks_spec(kind, from, target, pos@),
    {
        match kind {
            PieceKind::King => {
                let d = target.minus(from);
                d.chebyshev_norm() == 1
            },
            PieceKind::Knight => {
                let d = target.minus(from);
                let ax = if d.x < 0 { -d.x } else { d.x };
                let ay = if d.y < 0 { -d.y } else { d.y };
                (ax == 2 && ay == 1) || (ax == 1 && ay == 2)
            },
            PieceKind::Rook | PieceKind::Bishop | PieceKind::Queen => {
                let dirs = kind.slide_dirs();
                self.rider_attacks(from, target, &dirs, pos)
            },
        }
    }

    /// Does a slider at `from` moving along `dirs` attack `target`?
    fn rider_attacks(&self, from: Coord, target: Coord, dirs: &Vec<Coord>, pos: &Position) -> (b: bool)
        requires
            within_limit(from),
            within_limit(target),
            squares_within_limit(pos@),
        ensures
            b == rider_attacks_spec(dirs@, from, target, pos@),
    {
        let v = target.minus(from);
        if v.x == 0 && v.y == 0 {
            return false;
        }
        let (dir, dist) = match normalized_dir_and_distance(v) {
            None => return false,
            Some(x) => x,
        };
        if !contains_dir(dirs, dir) {
            return false;
        }
        assert(dir_and_distance_spec(target.x - from.x, target.y - from.y) == Some((dir.x as int, dir.y as int, dist as int)));
        let sq = pos.squares();
        let n = sq.len();
        let mut j: usize = 0;
        while j < n
            invariant
                j <= n,
                n == sq@.len(),
                sq@ == pos@,
                within_limit(from),
                squares_within_limit(pos@),
                -1 <= dir.x <= 1,
                -1 <= dir.y <= 1,
                dir_and_distance_spec(target.x - from.x, target.y - from.y) == Some((dir.x as int, dir.y as int, dist as int)),
                forall|a: int|
                    0 <= a < j && present(sq@[a]) ==> !blocks_ray(
                        from,
                        dir.x as int,
                        dir.y as int,
                        dist as int,
                        #[trigger] sq@[a].coord_spec(),
                    ),
            decreases n - j,
        {
            let other_sq = sq[j];
            if !other_sq.is_none() {
                let other = other_sq.coord();
                assert(within_limit(sq@[j as int].coord_spec()));
                if !(other.x == from.x && other.y == from.y) {
                    let w = other.minus(from);
                    if let Some(s) = scalar_along_dir_if_aligned(w, dir) {
                        if s > 0 && s < dist {
                            assert(other == pos@[j as int].coord_spec());
                            assert(other != from);
                            assert(scalar_along_spec(other.x - from.x, other.y - from.y, dir.x as int, dir.y as int) == Some(s as int));
                            assert(blocks_ray(from, dir.x as int, dir.y as int, dist as int, pos@[j as int].coord_spec()));
                            assert(present(pos@[j as int]));
                            assert(dir_and_distance_spec(target.x - from.x, target.y - from.y) == Some((dir.x as int, dir.y as int, dist as int)));
                            assert(!rider_attacks_spec(dirs@, from, target, pos@));
                            return false;
                        }
                    }
                }
            }
            j += 1;
        }
        true
    }

    /// All legal black king moves, each paired with the step taken, in step order.
    pub fn black_moves_with_delta(&self, pos: &Position) -> (out: Vec<(Coord, Position)>)
        requires
            self.matches_layout(*pos, coord_limit() - 1),
        ensures
            black_moves_match(out@, self.black_moves_spec(*pos), pos.len_spec()),
            forall|j: int| 0 <= j < out@.len() ==> squares_within_limit((#[trigger] out@[j]).1@)
                && -1 <= out@[j].0.x <= 1 && -1 <= out@[j].0.y <= 1,
    {
        proof {
            use_type_invariant(&self.layout);
        }
        let mut out: Vec<(Coord, Position)> = Vec::new();
        let n = pos.count();
        let mut k: usize = 0;
        while k < 8
            invariant
                k <= 8,
                n == pos.len_spec(),
                self.layout.wf(),
                self.matches_layout(*pos, coord_limit() - 1),
                black_moves_match(out@, self.black_moves_upto(*pos, k as nat), pos.len_spec()),
                forall|j: int| 0 <= j < out@.len() ==> squares_within_limit((#[trigger] out@[j]).1@)
                    && -1 <= out@[j].0.x <= 1 && -1 <= out@[j].0.y <= 1,
            decreases 8 - k,
        {
            let delta = king_step(k);
            let mut blocked = false;
            if let Some(k_idx) = self.layout.white_king_index() {
                let ks = pos.square(k_idx);
                if !ks.is_none() && ks.coord() == delta {
                    blocked = true;
                }
            }
            if !blocked {
                let next = self.black_step(pos, delta, k);
                if self.is_legal_position(&next) && !self.is_attacked(Coord::origin(), &next) {
                    let ghost old_out = out@;
                    out.push((delta, next));
                    proof {
                        assert(self.black_step_ok(*pos, k as int));
                        let e = self.black_moves_upto(*pos, (k + 1) as nat);
                        assert forall|i: int| 0 <= i < out@.len() implies {
                            &&& (#[trigger] out@[i]).0 == e[i].0
                            &&& out@[i].1.slots() == e[i].1
                            &&& out@[i].1.len_spec() == pos.len_spec()
                        } by {
                            if i < old_out.len() {
                                assert(out@[i] == old_out[i]);
                            }
                        }
                    }
                } else {
                    proof {
                        assert(!self.black_step_ok(*pos, k as int));
                    }
                }
            } else {
                proof {
                    assert(self.black_step_hits_king(*pos, k as int));
                }
            }
            k += 1;
        }
        out
    }

    /// The position after the black king takes step `k` (which is `delta`), re-centred and
    /// canonicalised, without any legality check.
    fn black_step(&self, pos: &Position, delta: Coord, k: usize) -> (next: Position)
        requires
            k < 8,
            delta == king_step_spec(k as int),
            self.matches_layout(*pos, coord_limit() - 1),
        ensures
            next.slots() == self.black_step_slots(*pos, k as int),
            next.len_spec() == pos.len_spec(),
            squares_within_limit(next@),
            match self.layout.king_index_spec() {
                Some(ki) => ki < next.len_spec(),
                None => true,
            },
    {
        proof {
            use_type_invariant(&self.layout);
        }
        let n = pos.count();
        let mut next = *pos;
        let mut i: usize = 0;
        while i < n
            invariant
                i <= n,
                n == pos.len_spec(),
                n <= MAX_PIECES,
                pos.slots().len() == MAX_PIECES,
                next.len_spec() == pos.len_spec(),
                delta == king_step_spec(k as int),
                squares_within(pos@, coord_limit() - 1),
                next.slots().len() == MAX_PIECES,
                forall|j: int| 0 <= j < i ==> #[trigger] next.slots()[j] == recenter_slots(pos.slots(), pos.len_spec(), delta)[j],
                forall|j: int| i <= j < MAX_PIECES ==> #[trigger] next.slots()[j] == pos.slots()[j],
            decreases n - i,
        {
            let sq = next.square(i);
            assert(sq == pos@[i as int]);
            if !sq.is_none() {
                assert(within(pos@[i as int].coord_spec(), coord_limit() - 1));
                if sq.coord() == delta {
                    next.set_square(i, Square::none());
                } else {
                    next.set_square(i, sq.shifted_neg(delta));
                }
            }
            i += 1;
        }
        let ghost rec = recenter_slots(pos.slots(), pos.len_spec(), delta);
        assert(next.slots() =~= rec);
        next.canonicalize(&self.layout);
        proof {
            let lim_p = |s: Square| present(s) ==> within(s.coord_spec(), coord_limit());
            assert forall|j: int| 0 <= j < n implies #[trigger] lim_p(rec[j]) by {
                if j < n && present(pos.slots()[j]) {
                    assert(pos@[j] == pos.slots()[j]);
                    assert(within(pos@[j].coord_spec(), coord_limit() - 1));
                    let c = pos.slots()[j].coord_spec();
                    if c != delta {
                        let x = (c.x - delta.x) as i32;
                        let y = (c.y - delta.y) as i32;
                        crate::board::square::lemma_pack_unpack(x, y);
                        assert(rec[j].coord_spec() == Coord { x, y });
                    }
                }
            }
            assert forall|r: int| 0 <= r < self.layout.runs_spec().len() implies #[trigger] self.layout.runs_spec()[r].start
                <= self.layout.runs_spec()[r].end <= n by {
                let runs = self.layout.runs_spec();
                assert(runs[r].start < runs[r].end);
                if r < runs.len() - 1 {
                    assert(runs[r].end <= runs[runs.len() - 1].start);
                }
            }
            lemma_canonical_elements(rec, self.layout.runs_spec(), self.layout.runs_spec().len(), n as int, lim_p);
            assert forall|j: int| 0 <= j < next@.len() && present(next@[j]) implies within_limit(#[trigger] next@[j].coord_spec()) by {
                assert(next@[j] == next.slots()[j]);
                assert(lim_p(next.slots()[j]));
            }
        }
        next
    }

    /// All legal black king moves (after re-centring on the king), in step order.
    pub fn black_moves(&self, pos: &Position) -> (out: Vec<Position>)
        requires
            self.matches_layout(*pos, coord_limit() - 1),
        ensures
            out@.len() == self.black_moves_spec(*pos).len(),
            forall|i: int|
                0 <= i < out@.len() ==> (#[trigger] out@[i]).slots() == self.black_moves_spec(*pos)[i].1
                    && out@[i].len_spec() == pos.len_spec(),
    {
        let with_delta = self.black_moves_with_delta(pos);
        let mut out: Vec<Position> = Vec::new();
        let mut i: usize = 0;
        while i < with_delta.len()
            invariant
                i <= with_delta@.len(),
                black_moves_match(with_delta@, self.black_moves_spec(*pos), pos.len_spec()),
                out@.len() == i,
                forall|j: int| 0 <= j < i ==> #[trigger] out@[j] == with_delta@[j].1,
            decreases with_delta@.len() - i,
        {
            out.push(with_delta[i].1);
            i += 1;
        }
        proof {
            assert forall|j: int| 0 <= j < out@.len() implies (#[trigger] out@[j]).slots()
                == self.black_moves_spec(*pos)[j].1 && out@[j].len_spec() == pos.len_spec() by {
                assert(out@[j] == with_delta@[j].1);
            }
        }
        out
    }

    /// Black is in check and has no legal king move.
    pub fn is_checkmate(&self, pos: &Position) -> (b: bool)
        requires
            self.matches_layout(*pos, coord_limit() - 1),
        ensures
            b == (attacked_spec(self.layout.kinds_spec(), pos@, Coord { x: 0, y: 0 })
                && self.black_moves_spec(*pos).len() == 0),
    {
        if !self.is_attacked(Coord::origin(), pos) {
            return false;
        }
        self.black_moves(pos).len() == 0
    }

    /// Black is not in check and has no legal king move.
    pub fn is_stalemate(&self, pos: &Position) -> (b: bool)
        requires
            self.matches_layout(*pos, coord_limit() - 1),
        ensures
            b == (!attacked_spec(self.layout.kinds_spec(), pos@, Coord { x: 0, y: 0 })
                && self.black_moves_spec(*pos).len() == 0),
    {
        if self.is_attacked(Coord::origin(), pos) {
            return false;
        }
        self.black_moves(pos).len() == 0
    }

    /// The position after piece `i` moves to `to`, canonicalised.
    fn moved(&self, pos: &Position, i: usize, to: Coord) -> (next: Position)
        requires
            self.matches_layout(*pos, coord_limit()),
            i < pos.len_spec(),
            within(to, 2 * coord_limit()),
        ensures
            next.slots() == self.moved_slots(*pos, i as int, to),
            next.len_spec() == pos.len_spec(),
            squares_within(next@, 2 * coord_limit()),
            match self.layout.king_index_spec() {
                Some(ki) => ki < next.len_spec(),
                None => true,
            },
    {
        proof {
            use_type_invariant(&self.layout);
        }
        let n = pos.count();
        let mut next = *pos;
        let to_sq = Square::from_coord(to);
        next.set_square(i, to_sq);
        let ghost upd = next.slots();
        next.canonicalize(&self.layout);
        proof {
            let lim_p = |s: Square| present(s) ==> within(s.coord_spec(), 2 * coord_limit());
            assert forall|j: int| 0 <= j < n implies #[trigger] lim_p(upd[j]) by {
                if j != i && present(upd[j]) {
                    assert(pos@[j] == pos.slots()[j]);
                    assert(within(pos@[j].coord_spec(), coord_limit()));
                }
            }
            assert forall|r: int| 0 <= r < self.layout.runs_spec().len() implies #[trigger] self.layout.runs_spec()[r].start
                <= self.layout.runs_spec()[r].end <= n by {
                let runs = self.layout.runs_spec();
                assert(runs[r].start < runs[r].end);
                if r < runs.len() - 1 {
                    assert(runs[r].end <= runs[runs.len() - 1].start);
                }
            }
            lemma_canonical_elements(upd, self.layout.runs_spec(), self.layout.runs_spec().len(), n as int, lim_p);
            assert forall|j: int| 0 <= j < next@.len() && present(next@[j]) implies within(#[trigger] next@[j].coord_spec(), 2 * coord_limit()) by {
                assert(next@[j] == next.slots()[j]);
                assert(lim_p(next.slots()[j]));
            }
        }
        next
    }

    /// Appends the moves of piece `i` (a king when `is_king`, else a knight) by the jumps `deltas`.
    fn push_jumps(&self, pos: &Position, i: usize, deltas: &Vec<Coord>, is_king: bool, out: &mut Vec<Position>)
        requires
            self.matches_layout(*pos, coord_limit()),
            i < pos.len_spec(),
            present(pos@[i as int]),
            deltas@.len() == 8,
            forall|k: int| 0 <= k < 8 ==> within(#[trigger] deltas@[k], 2),
        ensures
            extends_with(old(out)@, final(out)@, self.jumps_upto(*pos, i as int, deltas@, is_king, 8), pos.len_spec()),
    {
        let n = pos.count();
        let from = pos.square(i).coord();
        proof {
            assert(within(pos@[i as int].coord_spec(), coord_limit()));
        }
        let mut k: usize = 0;
        while k < 8
            invariant
                k <= 8,
                deltas@.len() == 8,
                forall|k: int| 0 <= k < 8 ==> within(#[trigger] deltas@[k], 2),
                self.matches_layout(*pos, coord_limit()),
                i < pos.len_spec(),
                from == pos@[i as int].coord_spec(),
                within(from, coord_limit()),
                extends_with(old(out)@, out@, self.jumps_upto(*pos, i as int, deltas@, is_king, k as nat), pos.len_spec()),
            decreases 8 - k,
        {
            let d = deltas[k];
            assert(within(deltas@[k as int], 2));
            let to = from.plus(d);
            assert(to == Self::offset(from, deltas@[k as int]));
            let ghost before = out@;
            if !(to.x == 0 && to.y == 0) {
                let to_sq = Square::from_coord(to);
                if !pos.is_occupied_except(to_sq, i) {
                    if !is_king || to.chebyshev_norm() > 1 {
                        let next = self.moved(pos, i, to);
                        if self.is_legal_position(&next) {
                            out.push(next);
                            proof {
                                assert(self.move_legal(*pos, i as int, to));
                                let e = self.jumps_upto(*pos, i as int, deltas@, is_king, (k + 1) as nat);
                                assert forall|j: int| 0 <= j < e.len() implies (#[trigger] out@[old(out)@.len() + j]).slots() == e[j]
                                    && out@[old(out)@.len() + j].len_spec() == pos.len_spec() by {
                                    if j < e.len() - 1 {
                                        assert(out@[old(out)@.len() + j] == before[old(out)@.len() + j]);
                                    }
                                }
                                assert forall|j: int| 0 <= j < old(out)@.len() implies #[trigger] out@[j] == old(out)@[j] by {
                                    assert(out@[j] == before[j]);
                                }
                            }
                        }
                    }
                }
            }
            k += 1;
        }
    }

    /// Appends the slides of piece `i` along `dir`.
    fn push_ray(&self, pos: &Position, i: usize, dir: Coord, out: &mut Vec<Position>)
        requires
            self.matches_layout(*pos, coord_limit()),
            1 <= self.move_bound <= coord_limit(),
            i < pos.len_spec(),
            present(pos@[i as int]),
            -1 <= dir.x <= 1,
            -1 <= dir.y <= 1,
        ensures
            extends_with(old(out)@, final(out)@, self.ray_from(*pos, i as int, dir, 1), pos.len_spec()),
    {
        let n = pos.count();
        let from = pos.square(i).coord();
        proof {
            assert(within(pos@[i as int].coord_spec(), coord_limit()));
        }
        let ghost total = self.ray_from(*pos, i as int, dir, 1);
        proof {
            assert(Seq::<Seq<Square>>::empty() + self.ray_from(*pos, i as int, dir, 1) =~= total);
            assert(extends_with(old(out)@, out@, Seq::<Seq<Square>>::empty(), pos.len_spec()));
        }
        let mut step: i32 = 1;
        let mut stopped = false;
        while step <= self.move_bound && !stopped
            invariant
                1 <= step,
                step <= self.move_bound + 1,
                1 <= self.move_bound <= coord_limit(),
                -1 <= dir.x <= 1,
                -1 <= dir.y <= 1,
                self.matches_layout(*pos, coord_limit()),
                i < pos.len_spec(),
                from == pos@[i as int].coord_spec(),
                within(from, coord_limit()),
                stopped ==> self.ray_from(*pos, i as int, dir, step as int) =~= Seq::<Seq<Square>>::empty(),
                exists|done: Seq<Seq<Square>>|
                    extends_with(old(out)@, out@, done, pos.len_spec())
                        && #[trigger] (done + self.ray_from(*pos, i as int, dir, step as int)) == total,
            decreases self.move_bound + 1 - step, if stopped { 0int } else { 1int },
        {
            let ghost done = choose|done: Seq<Seq<Square>>|
                extends_with(old(out)@, out@, done, pos.len_spec())
                    && #[trigger] (done + self.ray_from(*pos, i as int, dir, step as int)) == total;
            proof {
                assert(-coord_limit() <= dir.x * step <= coord_limit()) by (nonlinear_arith)
                    requires -1 <= dir.x <= 1, 1 <= step <= coord_limit();
                assert(-coord_limit() <= dir.y * step <= coord_limit()) by (nonlinear_arith)
                    requires -1 <= dir.y <= 1, 1 <= step <= coord_limit();
            }
            let to = from.plus(dir.scaled(step));
            assert(to == Self::ray_square(*pos, i as int, dir, step as int));
            let to_sq = Square::from_coord(to);
            if (to.x == 0 && to.y == 0) || pos.is_occupied_except(to_sq, i) {
                stopped = true;
            } else {
                let ghost before = out@;
                let next = self.moved(pos, i, to);
                let legal = self.is_legal_position(&next);
                if legal {
                    out.push(next);
                }
                proof {
                    let here = if self.move_legal(*pos, i as int, to) { seq![self.moved_slots(*pos, i as int, to)] } else { Seq::empty() };
                    assert(self.ray_from(*pos, i as int, dir, step as int) == here + self.ray_from(*pos, i as int, dir, step + 1));
                    let done2 = done + here;
                    assert((done2 + self.ray_from(*pos, i as int, dir, step + 1)) =~= total);
                    assert forall|j: int| 0 <= j < old(out)@.len() implies #[trigger] out@[j] == old(out)@[j] by {
                        assert(out@[j] == before[j]);
                    }
                    assert forall|j: int| 0 <= j < done2.len() implies (#[trigger] out@[old(out)@.len() + j]).slots() == done2[j]
                        && out@[old(out)@.len() + j].len_spec() == pos.len_spec() by {
                        if j < done.len() {
                            assert(out@[old(out)@.len() + j] == before[old(out)@.len() + j]);
                        }
                    }
                    assert(extends_with(old(out)@, out@, done2, pos.len_spec()));
                }
                step += 1;
            }
        }
        proof {
            let done = choose|done: Seq<Seq<Square>>|
                extends_with(old(out)@, out@, done, pos.len_spec())
                    && #[trigger] (done + self.ray_from(*pos, i as int, dir, step as int)) == total;
            assert(self.ray_from(*pos, i as int, dir, step as int) =~= Seq::<Seq<Square>>::empty());
            assert(done =~= total);
            assert(extends_with(old(out)@, out@, done, pos.len_spec()));
        }
    }

    /// All legal white moves from `pos`, in generation order; `allow_pass` adds the
    /// "do nothing" move first.
    pub fn white_moves(&self, pos: &Position, allow_pass: bool) -> (out: Vec<Position>)
        requires
            self.matches_layout(*pos, coord_limit()),
            1 <= self.move_bound <= coord_limit(),
        ensures
            positions_match(out@, self.white_moves_spec(*pos, allow_pass), pos.len_spec()),
    {
        let mut out: Vec<Position> = Vec::new();
        if allow_pass {
            out.push(*pos);
        }
        let ghost first = if allow_pass { seq![pos.slots()] } else { Seq::<Seq<Square>>::empty() };
        proof {
            assert(positions_match(out@, first + self.pieces_moves_upto(*pos, 0), pos.len_spec())) by {
                assert(first + self.pieces_moves_upto(*pos, 0) =~= first);
            }
        }
        let n = pos.count();
        let mut king_steps: Vec<Coord> = Vec::new();
        let mut knight_jumps: Vec<Coord> = Vec::new();
        let mut k: usize = 0;
        while k < 8
            invariant
                k <= 8,
                king_steps@ =~= king_steps_seq().take(k as int),
                knight_jumps@ =~= knight_deltas_spec().take(k as int),
            decreases 8 - k,
        {
            king_steps.push(king_step(k));
            knight_jumps.push(knight_delta(k));
            k += 1;
        }
        proof {
            assert(king_steps@ =~= king_steps_seq());
            assert(knight_jumps@ =~= knight_deltas_spec());
            assert forall|k: int| 0 <= k < 8 implies within(#[trigger] king_steps@[k], 2) by {}
            assert forall|k: int| 0 <= k < 8 implies within(#[trigger] knight_jumps@[k], 2) by {}
        }
        let mut i: usize = 0;
        while i < n
            invariant
                i <= n,
                n == pos.len_spec(),
                n == pos@.len(),
                self.matches_layout(*pos, coord_limit()),
                1 <= self.move_bound <= coord_limit(),
                king_steps@ == king_steps_seq(),
                knight_jumps@ == knight_deltas_spec(),
                forall|k: int| 0 <= k < 8 ==> within(#[trigger] king_steps@[k], 2),
                forall|k: int| 0 <= k < 8 ==> within(#[trigger] knight_jumps@[k], 2),
                positions_match(out@, first + self.pieces_moves_upto(*pos, i as nat), pos.len_spec()),
            decreases n - i,
        {
            let ghost before = out@;
            let sq = pos.square(i);
            if !sq.is_none() {
                let kind = self.layout.kind(i);
                match kind {
                    PieceKind::King => {
                        self.push_jumps(pos, i, &king_steps, true, &mut out);
                    },
                    PieceKind::Knight => {
                        self.push_jumps(pos, i, &knight_jumps, false, &mut out);
                    },
                    _ => {
                        let dirs = kind.slide_dirs();
                        let ghost start = out@;
                        proof {
                            assert(extends_with(start, out@, self.rays_upto(*pos, i as int, dirs@, 0), pos.len_spec())) by {
                                assert(self.rays_upto(*pos, i as int, dirs@, 0) =~= Seq::<Seq<Square>>::empty());
                            }
                        }
                        let mut d: usize = 0;
                        while d < dirs.len()
                            invariant
                                d <= dirs@.len(),
                                dirs@ == kind.slide_dirs_spec(),
                                kind.is_slider(),
                                self.matches_layout(*pos, coord_limit()),
                                1 <= self.move_bound <= coord_limit(),
                                i < pos.len_spec(),
                                present(pos@[i as int]),
                                extends_with(start, out@, self.rays_upto(*pos, i as int, dirs@, d as nat), pos.len_spec()),
                            decreases dirs@.len() - d,
                        {
                            let ghost mid = out@;
                            let dir = dirs[d];
                            proof {
                                assert(-1 <= dir.x <= 1 && -1 <= dir.y <= 1);
                            }
                            self.push_ray(pos, i, dir, &mut out);
                            proof {
                                lemma_extend_trans(start, mid, out@, self.rays_upto(*pos, i as int, dirs@, d as nat),
                                    self.ray_from(*pos, i as int, dirs@[d as int], 1), pos.len_spec());
                            }
                            d += 1;
                        }
                    },
                }
                proof {
                    lemma_extend_match(before, out@, first + self.pieces_moves_upto(*pos, i as nat),
                        self.piece_moves(*pos, i as int), pos.len_spec());
                    assert(first + self.pieces_moves_upto(*pos, (i + 1) as nat) =~= first + self.pieces_moves_upto(*pos, i as nat)
                        + self.piece_moves(*pos, i as int));
                }
            } else {
                proof {
                    assert(self.piece_moves(*pos, i as int) =~= Seq::<Seq<Square>>::empty());
                    assert(first + self.pieces_moves_upto(*pos, (i + 1) as nat) =~= first + self.pieces_moves_upto(*pos, i as nat));
                }
            }
            i += 1;
        }
        out
    }
}

} // verus!
