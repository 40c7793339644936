//! Move generation on a finite region: every successor of a state, plus an escape sink.
use vstd::prelude::*;

use crate::board::coord::abs_int;
use crate::coord::Coord;
use crate::game::Game;
use crate::pieces::{PieceKind, Turn};
use crate::region::{in_box, knight_step, sq_index};
use crate::rules::attacks::{
    attacked_spec, build_white_occupancy, codes_ok, coord_at, is_attacked_by_white, mul_sign, near_box, ray_point,
    white_on, white_set, Occ,
};
use crate::state::{canonical_spec, canonicalize, lemma_canonical_elements, PackedState};

verus! {

/// A successor: a state of the region, or leaving the region (the sink).
#[derive(Copy, Clone, Debug, Eq, PartialEq, Structural)]
pub enum Succ {
    State(PackedState),
    Sink,
}

/// A reusable buffer for the white codes of an unpacked state.
#[derive(Clone, Debug)]
pub struct Scratch {
    whites: Vec<u16>,
}

impl View for Scratch {
    type V = Seq<u16>;

    closed spec fn view(&self) -> Seq<u16> {
        self.whites@
    }
}

impl Scratch {
    /// A buffer for `n_white` codes.
    pub fn new(n_white: usize) -> (s: Scratch)
        ensures
            s@.len() == n_white,
    {
        let mut whites: Vec<u16> = Vec::new();
        let mut i: usize = 0;
        while i < n_white
            invariant
                i <= n_white,
                whites@.len() == i,
            decreases n_white - i,
        {
            whites.push(0);
            i += 1;
        }
        Scratch { whites }
    }

    /// The codes in the buffer.
    pub fn whites(&self) -> (w: &[u16])
        ensures
            w@ == self@,
    {
        self.whites.as_slice()
    }

    /// The codes in the buffer, for writing.
    pub fn whites_mut(&mut self) -> (w: &mut [u16])
        ensures
            w@ == old(self)@,
            final(w)@ == final(self)@,
    {
        self.whites.as_mut_slice()
    }
}

/// The eight king steps, in the order they are tried.
pub open spec fn king_step(k: int) -> (int, int) {
    if k == 0 {
        (-1, -1)
    } else if k == 1 {
        (-1, 0)
    } else if k == 2 {
        (-1, 1)
    } else if k == 3 {
        (0, -1)
    } else if k == 4 {
        (0, 1)
    } else if k == 5 {
        (1, -1)
    } else if k == 6 {
        (1, 0)
    } else {
        (1, 1)
    }
}

/// The steps of a stepping piece: knight jumps for a knight, king steps otherwise.
pub open spec fn step_of(kind: PieceKind, k: int) -> (int, int) {
    if kind == PieceKind::Knight {
        knight_step(k)
    } else {
        king_step(k)
    }
}

/// The number of sliding directions of a piece kind.
pub open spec fn dir_count(kind: PieceKind) -> int {
    match kind {
        PieceKind::Rook => 4,
        PieceKind::Bishop => 4,
        PieceKind::Queen => 8,
        _ => 0,
    }
}

/// Rook directions, in the order they are tried.
pub open spec fn rook_dir(d: int) -> (int, int) {
    if d == 0 {
        (1, 0)
    } else if d == 1 {
        (-1, 0)
    } else if d == 2 {
        (0, 1)
    } else {
        (0, -1)
    }
}

/// Bishop directions, in the order they are tried.
pub open spec fn bishop_dir(d: int) -> (int, int) {
    if d == 0 {
        (1, 1)
    } else if d == 1 {
        (1, -1)
    } else if d == 2 {
        (-1, 1)
    } else {
        (-1, -1)
    }
}

/// Sliding direction `d` of a piece kind: rook directions, then bishop directions for a queen.
pub open spec fn slide_dir(kind: PieceKind, d: int) -> (int, int) {
    match kind {
        PieceKind::Rook => rook_dir(d),
        PieceKind::Bishop => bishop_dir(d),
        _ => if d < 4 {
            rook_dir(d)
        } else {
            bishop_dir(d - 4)
        },
    }
}

/// `(dx, dy)` leads to one of the eight neighbouring squares.
pub open spec fn is_neighbour_step(dx: int, dy: int) -> bool {
    -1 <= dx <= 1 && -1 <= dy <= 1 && !(dx == 0 && dy == 0)
}

/// The king steps are the eight unit steps to a neighbouring square, each once.
pub proof fn lemma_king_steps_are_neighbours()
    ensures
        forall|k: int| 0 <= k < 8 ==> is_neighbour_step((#[trigger] king_step(k)).0, king_step(k).1),
        forall|dx: int, dy: int| #[trigger] is_neighbour_step(dx, dy)
            ==> exists|k: int| 0 <= k < 8 && #[trigger] king_step(k) == (dx, dy),
        forall|k: int, l: int| 0 <= k < l < 8 ==> #[trigger] king_step(k) != #[trigger] king_step(l),
{
    assert forall|dx: int, dy: int| #[trigger] is_neighbour_step(dx, dy)
        implies exists|k: int| 0 <= k < 8 && #[trigger] king_step(k) == (dx, dy) by {
        if dx == -1 && dy == -1 { assert(king_step(0) == (dx, dy)); }
        else if dx == -1 && dy == 0 { assert(king_step(1) == (dx, dy)); }
        else if dx == -1 && dy == 1 { assert(king_step(2) == (dx, dy)); }
        else if dx == 0 && dy == -1 { assert(king_step(3) == (dx, dy)); }
        else if dx == 0 && dy == 1 { assert(king_step(4) == (dx, dy)); }
        else if dx == 1 && dy == -1 { assert(king_step(5) == (dx, dy)); }
        else if dx == 1 && dy == 0 { assert(king_step(6) == (dx, dy)); }
        else { assert(king_step(7) == (dx, dy)); }
    }
}

/// The sliding directions of each slider are its unit steps, each once: along ranks and files
/// for a rook, along diagonals for a bishop, and both for a queen.
pub proof fn lemma_slide_dirs_geometry(kind: PieceKind)
    requires
        kind == PieceKind::Rook || kind == PieceKind::Bishop || kind == PieceKind::Queen,
    ensures
        forall|d: int| 0 <= d < dir_count(kind) ==> {
            let (dx, dy) = #[trigger] slide_dir(kind, d);
            &&& kind == PieceKind::Rook ==> crate::chess::piece::is_orthogonal_unit(dx, dy)
            &&& kind == PieceKind::Bishop ==> crate::chess::piece::is_diagonal_unit(dx, dy)
            &&& kind == PieceKind::Queen ==> crate::chess::piece::is_orthogonal_unit(dx, dy)
                || crate::chess::piece::is_diagonal_unit(dx, dy)
        },
        forall|dx: int, dy: int| ({
            ||| kind == PieceKind::Rook && crate::chess::piece::is_orthogonal_unit(dx, dy)
            ||| kind == PieceKind::Bishop && crate::chess::piece::is_diagonal_unit(dx, dy)
            ||| kind == PieceKind::Queen && (crate::chess::piece::is_orthogonal_unit(dx, dy)
                || crate::chess::piece::is_diagonal_unit(dx, dy))
        }) ==> exists|d: int| 0 <= d < dir_count(kind) && #[trigger] slide_dir(kind, d) == (dx, dy),
        forall|d: int, e: int| 0 <= d < e < dir_count(kind) ==> #[trigger] slide_dir(kind, d) != #[trigger] slide_dir(kind, e),
{
    let off: int = if kind == PieceKind::Queen { 4 } else { 0 };
    assert forall|dx: int, dy: int| ({
        ||| kind == PieceKind::Rook && crate::chess::piece::is_orthogonal_unit(dx, dy)
        ||| kind == PieceKind::Bishop && crate::chess::piece::is_diagonal_unit(dx, dy)
        ||| kind == PieceKind::Queen && (crate::chess::piece::is_orthogonal_unit(dx, dy)
            || crate::chess::piece::is_diagonal_unit(dx, dy))
    }) implies exists|d: int| 0 <= d < dir_count(kind) && #[trigger] slide_dir(kind, d) == (dx, dy) by {
        if kind != PieceKind::Bishop && crate::chess::piece::is_orthogonal_unit(dx, dy) {
            if dx == 1 { assert(slide_dir(kind, 0) == (dx, dy)); }
            else if dx == -1 { assert(slide_dir(kind, 1) == (dx, dy)); }
            else if dy == 1 { assert(slide_dir(kind, 2) == (dx, dy)); }
            else { assert(slide_dir(kind, 3) == (dx, dy)); }
        } else {
            if dx == 1 && dy == 1 { assert(slide_dir(kind, off) == (dx, dy)); }
            else if dx == 1 { assert(slide_dir(kind, off + 1) == (dx, dy)); }
            else if dy == 1 { assert(slide_dir(kind, off + 2) == (dx, dy)); }
            else { assert(slide_dir(kind, off + 3) == (dx, dy)); }
        }
    }
}

/// The square `d` away from `c`.
pub open spec fn offset(c: Coord, d: (int, int)) -> Coord {
    coord_at((c.x + d.0, c.y + d.1))
}

/// The squares are equal or neighbours.
pub open spec fn adjacent(a: Coord, b: Coord) -> bool {
    abs_int(a.x - b.x) <= 1 && abs_int(a.y - b.y) <= 1
}

/// A valid state of the game: the black king on a square, every white code a square or the
/// captured code.
pub open spec fn state_ok(game: Game, state: u128) -> bool {
    &&& game.wf()
    &&& game.packer.field_spec(state, 0) < game.packer.region_size
    &&& forall|i: int| 0 <= i < game.packer.n_white ==> #[trigger] game.packer.whites_spec(state)[i] <= game.packer.region_size
}

/// The occupied squares: the live white pieces and the black king.
pub open spec fn occupied(game: Game, bk: u16, w: Seq<u16>) -> Set<int> {
    white_set(w, game.packer.region_size).insert(bk as int)
}

/// `c` is a square of the region that nobody occupies.
pub open spec fn free_square(game: Game, bk: u16, w: Seq<u16>, c: Coord) -> bool {
    game.region@.contains(c) && !occupied(game, bk, w).contains(sq_index(game.region@, c))
}

/// The move bound admits a slide of `j` squares.
pub open spec fn within_bound(game: Game, j: int) -> bool {
    match game.move_bound {
        Some(b) => j <= b,
        None => true,
    }
}

/// The square of the piece in slot `i`.
pub open spec fn piece_square(game: Game, w: Seq<u16>, i: int) -> Coord {
    game.region@[w[i] as int]
}

/// Step `k` of the stepping piece in slot `i` is allowed (a king never steps next to the
/// black king).
pub open spec fn step_ok(game: Game, bk: u16, w: Seq<u16>, i: int, k: int) -> bool {
    let kind = game.layout.slots@[i];
    &&& 0 <= k < 8
    &&& (kind == PieceKind::King ==> !adjacent(
        offset(piece_square(game, w, i), step_of(kind, k)),
        game.region@[bk as int],
    ))
}

/// The square `j` steps along direction `d` from the piece in slot `i`.
pub open spec fn slide_point(game: Game, w: Seq<u16>, i: int, d: int, j: int) -> Coord {
    coord_at(ray_point(piece_square(game, w, i), slide_dir(game.layout.slots@[i], d), j))
}

/// The piece in slot `i` may slide `j` squares along direction `d`: the bound allows it and
/// every square before the last is free.
pub open spec fn slide_ok(game: Game, bk: u16, w: Seq<u16>, i: int, d: int, j: int) -> bool {
    &&& 0 <= d < dir_count(game.layout.slots@[i])
    &&& 1 <= j
    &&& within_bound(game, j)
    &&& forall|l: int| 1 <= l < j ==> free_square(game, bk, w, #[trigger] slide_point(game, w, i, d, l))
}

/// The piece in slot `i` is a stepping piece (king or knight).
pub open spec fn is_stepper(kind: PieceKind) -> bool {
    kind == PieceKind::King || kind == PieceKind::Knight
}

/// `c` is a destination of the live piece in slot `i`, on the region or off it.
pub open spec fn white_target(game: Game, bk: u16, w: Seq<u16>, i: int, c: Coord) -> bool {
    let kind = game.layout.slots@[i];
    &&& 0 <= i < w.len()
    &&& w[i] != game.packer.region_size
    &&& if is_stepper(kind) {
        exists|k: int| #[trigger] step_ok(game, bk, w, i, k) && c == offset(piece_square(game, w, i), step_of(kind, k))
    } else {
        exists|d: int, j: int| #[trigger] slide_ok(game, bk, w, i, d, j) && c == slide_point(game, w, i, d, j)
    }
}

/// The state after the piece in slot `i` moves to square `sq`.
pub open spec fn moved(game: Game, bk: u16, w: Seq<u16>, i: int, sq: int) -> u128 {
    game.packer.pack_spec(bk, canonical_spec(w.update(i, sq as u16), game.layout))
}

/// The successors of a white-to-move state: passing (when allowed), every move that lands on
/// a free square of the region, and the sink when some move leaves the region.
pub open spec fn white_moves(game: Game, bk: u16, state: u128, w: Seq<u16>) -> Set<Succ> {
    Set::new(
        |s: Succ|
            (game.allow_pass && s == Succ::State(state)) || (s == Succ::Sink && exists|i: int, c: Coord|
                #[trigger] white_target(game, bk, w, i, c) && !game.region@.contains(c)) || exists|i: int, c: Coord|
                #[trigger] white_target(game, bk, w, i, c) && free_square(game, bk, w, c) && s == Succ::State(
                    moved(game, bk, w, i, sq_index(game.region@, c)),
                ),
    )
}

/// The first live slot standing on `sq`.
pub open spec fn first_slot(w: Seq<u16>, sq: int, captured_code: u16) -> int {
    choose|i: int|
        0 <= i < w.len() && w[i] != captured_code && w[i] == sq && forall|k: int|
            0 <= k < i ==> !(#[trigger] w[k] != captured_code && w[k] == sq)
}

/// The result of the black king stepping onto the region square `dst`, if that step is legal.
pub open spec fn black_step_result(game: Game, bk: u16, w: Seq<u16>, dst: Coord, s: Succ) -> bool {
    let squares = game.region@;
    let slots = game.layout.slots@;
    let cap = game.packer.region_size;
    let sq = sq_index(squares, dst);
    if white_on(w, sq, cap) {
        let i = first_slot(w, sq, cap);
        let w2 = canonical_spec(w.update(i, cap), game.layout);
        &&& slots[i] != PieceKind::King
        &&& !attacked_spec(dst, squares, slots, w2, cap, white_set(w, cap).remove(sq))
        &&& s == Succ::State(game.packer.pack_spec(sq as u16, w2))
    } else {
        &&& !attacked_spec(dst, squares, slots, w, cap, white_set(w, cap))
        &&& s == Succ::State(game.packer.pack_spec(sq as u16, w))
    }
}

/// The successors of a black-to-move state: every legal king step inside the region
/// (capturing an unprotected piece other than a king), and the sink when the king can step
/// safely off the region.
pub open spec fn black_moves(game: Game, bk: u16, w: Seq<u16>) -> Set<Succ> {
    let squares = game.region@;
    let bk_c = squares[bk as int];
    Set::new(
        |s: Succ|
            (s == Succ::Sink && exists|k: int|
                0 <= k < 8 && !squares.contains(#[trigger] offset(bk_c, king_step(k))) && !attacked_spec(
                    offset(bk_c, king_step(k)),
                    squares,
                    game.layout.slots@,
                    w,
                    game.packer.region_size,
                    white_set(w, game.packer.region_size),
                )) || exists|k: int|
                0 <= k < 8 && squares.contains(#[trigger] offset(bk_c, king_step(k))) && black_step_result(
                    game,
                    bk,
                    w,
                    offset(bk_c, king_step(k)),
                    s,
                ),
    )
}

/// The successors of a state for the side to move.
pub open spec fn successors_spec(game: Game, turn: Turn, state: u128) -> Set<Succ> {
    let bk = game.packer.field_spec(state, 0);
    let w = game.packer.whites_spec(state);
    match turn {
        Turn::Black => black_moves(game, bk, w),
        Turn::White => white_moves(game, bk, state, w),
    }
}

/// The king steps as an array.
fn king_steps() -> (a: [(i16, i16); 8])
    ensures
        forall|k: int| 0 <= k < 8 ==> (#[trigger] a@[k]).0 == king_step(k).0 && a@[k].1 == king_step(k).1,
{
    [(-1, -1), (-1, 0), (-1, 1), (0, -1), (0, 1), (1, -1), (1, 0), (1, 1)]
}

/// The knight jumps as an array.
fn knight_steps() -> (a: [(i16, i16); 8])
    ensures
        forall|k: int| 0 <= k < 8 ==> (#[trigger] a@[k]).0 == knight_step(k).0 && a@[k].1 == knight_step(k).1,
{
    [(1, 2), (2, 1), (-1, 2), (-2, 1), (1, -2), (2, -1), (-1, -2), (-2, -1)]
}

/// The sliding directions of a piece kind.
fn slide_dirs(kind: PieceKind) -> (v: Vec<(i16, i16)>)
    ensures
        v@.len() == dir_count(kind),
        forall|d: int| 0 <= d < v@.len() ==> (#[trigger] v@[d]).0 == slide_dir(kind, d).0 && v@[d].1 == slide_dir(kind, d).1,
{
    match kind {
        PieceKind::Rook => vec![(1, 0), (-1, 0), (0, 1), (0, -1)],
        PieceKind::Bishop => vec![(1, 1), (1, -1), (-1, 1), (-1, -1)],
        PieceKind::Queen => vec![(1, 0), (-1, 0), (0, 1), (0, -1), (1, 1), (1, -1), (-1, 1), (-1, -1)],
        _ => Vec::new(),
    }
}

/// The unpacked codes are valid for the game.
pub open spec fn unpacked_ok(game: Game, bk: u16, w: Seq<u16>) -> bool {
    &&& game.wf()
    &&& bk < game.packer.region_size
    &&& w.len() == game.layout.slots@.len()
    &&& forall|i: int| 0 <= i < w.len() ==> #[trigger] w[i] <= game.packer.region_size
}

/// The canonical codes after the piece in slot `i` moves to `sq` (or is captured, with the
/// captured code).
fn moved_codes(game: &Game, whites: &[u16], i: usize, sq: u16) -> (v: Vec<u16>)
    requires
        game.wf(),
        whites@.len() == game.layout.slots@.len(),
        forall|k: int| 0 <= k < whites@.len() ==> #[trigger] whites@[k] <= game.packer.region_size,
        i < whites@.len(),
        sq <= game.packer.region_size,
    ensures
        v@ == canonical_spec(whites@.update(i as int, sq), game.layout),
        v@.len() == whites@.len(),
        forall|k: int| 0 <= k < v@.len() ==> #[trigger] v@[k] <= game.packer.region_size,
{
    let mut w2 = vstd::slice::slice_to_vec(whites);
    w2.set(i, sq);
    let ghost raw = w2@;
    proof {
        assert(raw =~= whites@.update(i as int, sq));
    }
    canonicalize(w2.as_mut_slice(), &game.layout);
    proof {
        let cap = game.packer.region_size;
        let bounded = |x: u16| x <= cap;
        assert forall|g: int| 0 <= g < game.layout.groups@.len() implies #[trigger] game.layout.groups@[g].start
            + game.layout.groups@[g].len <= raw.len() by {
            assert(game.layout.groups@[g].len > 0);
        }
        assert forall|j: int| 0 <= j < raw.len() implies #[trigger] bounded(raw[j]) by {}
        lemma_canonical_elements(raw, game.layout.groups@, game.layout.groups@.len(), bounded);
        assert forall|j: int| 0 <= j < w2@.len() implies #[trigger] w2@[j] <= game.packer.region_size by {
            assert(bounded(w2@[j]));
        }
    }
    w2
}

/// The packed state after the piece in slot `i` moves to `sq`.
fn moved_state(game: &Game, bk_sq: u16, whites: &[u16], i: usize, sq: u16) -> (st: PackedState)
    requires
        unpacked_ok(*game, bk_sq, whites@),
        i < whites@.len(),
        sq <= game.packer.region_size,
    ensures
        st == moved(*game, bk_sq, whites@, i as int, sq as int),
{
    let w2 = moved_codes(game, whites, i, sq);
    game.packer.pack(bk_sq, w2.as_slice())
}

/// Adds the moves of the stepping piece in slot `i`.
fn step_moves(
    game: &Game,
    bk_sq: u16,
    whites: &[u16],
    slot_idx: usize,
    occ_all: &Occ,
    out: &mut Vec<Succ>,
    has_sink: &mut bool,
)
    requires
        unpacked_ok(*game, bk_sq, whites@),
        slot_idx < whites@.len(),
        whites@[slot_idx as int] != game.packer.region_size,
        is_stepper(game.layout.slots@[slot_idx as int]),
        occ_all@ == occupied(*game, bk_sq, whites@),
        occ_all.capacity() >= game.region@.len(),
    ensures
        forall|s: Succ| #[trigger] final(out)@.contains(s) <==> (old(out)@.contains(s) || exists|c: Coord|
            white_target(*game, bk_sq, whites@, slot_idx as int, c) && free_square(*game, bk_sq, whites@, c) && s
                == Succ::State(moved(*game, bk_sq, whites@, slot_idx as int, sq_index(game.region@, c)))),
        *final(has_sink) == (*old(has_sink) || exists|c: Coord|
            white_target(*game, bk_sq, whites@, slot_idx as int, c) && !game.region@.contains(c)),
{
    let ghost g = *game;
    let ghost w = whites@;
    let ghost i = slot_idx as int;
    let region = &game.region;
    let kind = game.layout.slots[slot_idx];
    let from = region.coord_of(whites[slot_idx]);
    let bk_c = region.coord_of(bk_sq);
    let steps = if kind == PieceKind::Knight { knight_steps() } else { king_steps() };
    proof {
        assert(in_box(from)) by {
            assert(g.region@.contains(g.region@[w[i] as int]));
        }
        assert(in_box(bk_c));
        assert forall|k: int| 0 <= k < 8 implies (#[trigger] steps@[k]).0 == step_of(kind, k).0 && steps@[k].1 == step_of(kind, k).1 by {}
    }
    let ghost out0 = out@;
    let ghost sink0 = *has_sink;
    let mut k: usize = 0;
    while k < 8
        invariant
            unpacked_ok(g, bk_sq, w),
            g == *game,
            w == whites@,
            i == slot_idx,
            0 <= i < w.len(),
            w[i] != g.packer.region_size,
            kind == g.layout.slots@[i],
            is_stepper(kind),
            from == piece_square(g, w, i),
            bk_c == g.region@[bk_sq as int],
            in_box(from),
            in_box(bk_c),
            region == &game.region,
            occ_all@ == occupied(g, bk_sq, w),
            occ_all.capacity() >= g.region@.len(),
            forall|kk: int| 0 <= kk < 8 ==> (#[trigger] steps@[kk]).0 == step_of(kind, kk).0 && steps@[kk].1 == step_of(kind, kk).1,
            k <= 8,
            forall|s: Succ| #[trigger] out@.contains(s) <==> (out0.contains(s) || exists|kk: int|
                #[trigger] step_ok(g, bk_sq, w, i, kk) && kk < k && free_square(g, bk_sq, w, offset(from, step_of(kind, kk))) && s
                    == Succ::State(moved(g, bk_sq, w, i, sq_index(g.region@, offset(from, step_of(kind, kk)))))),
            *has_sink == (sink0 || exists|kk: int|
                #[trigger] step_ok(g, bk_sq, w, i, kk) && kk < k && !g.region@.contains(offset(from, step_of(kind, kk)))),
        decreases 8 - k,
    {
        let (sx, sy) = steps[k];
        let dst = Coord::new(from.x + sx, from.y + sy);
        let ghost kk = k as int;
        proof {
            assert(dst == offset(from, step_of(kind, kk)));
        }
        let ghost out_before = out@;
        let ghost sink_before = *has_sink;
        let adj_x = if dst.x - bk_c.x < 0 { bk_c.x - dst.x } else { dst.x - bk_c.x };
        let adj_y = if dst.y - bk_c.y < 0 { bk_c.y - dst.y } else { dst.y - bk_c.y };
        if kind == PieceKind::King && adj_x <= 1 && adj_y <= 1 {
            proof {
                assert(!step_ok(g, bk_sq, w, i, kk));
            }
        } else {
            proof {
                assert(step_ok(g, bk_sq, w, i, kk));
            }
            match region.sq_of(dst) {
                Some(dst_sq) => {
                    if !occ_all.get(dst_sq) {
                        let st = moved_state(game, bk_sq, whites, slot_idx, dst_sq);
                        out.push(Succ::State(st));
                    }
                },
                None => {
                    *has_sink = true;
                },
            }
        }
        proof {
            assert forall|s: Succ| #[trigger] out@.contains(s) <==> (out0.contains(s) || exists|k2: int|
                #[trigger] step_ok(g, bk_sq, w, i, k2) && k2 < k + 1 && free_square(g, bk_sq, w, offset(from, step_of(kind, k2))) && s
                    == Succ::State(moved(g, bk_sq, w, i, sq_index(g.region@, offset(from, step_of(kind, k2)))))) by {
                if out@.contains(s) && !out_before.contains(s) {
                    assert(out@ == out_before.push(s) || out@ == out_before);
                    assert(step_ok(g, bk_sq, w, i, kk));
                }
                if out_before.contains(s) {
                    assert(out@.contains(s)) by {
                        let p = choose|p: int| 0 <= p < out_before.len() && out_before[p] == s;
                        assert(out@[p] == s);
                    }
                }
                if exists|k2: int|
                    #[trigger] step_ok(g, bk_sq, w, i, k2) && k2 < k + 1 && free_square(g, bk_sq, w, offset(from, step_of(kind, k2))) && s
                        == Succ::State(moved(g, bk_sq, w, i, sq_index(g.region@, offset(from, step_of(kind, k2))))) {
                    let k2 = choose|k2: int|
                        #[trigger] step_ok(g, bk_sq, w, i, k2) && k2 < k + 1 && free_square(g, bk_sq, w, offset(from, step_of(kind, k2))) && s
                            == Succ::State(moved(g, bk_sq, w, i, sq_index(g.region@, offset(from, step_of(kind, k2)))));
                    if k2 == kk {
                        assert(out@[out@.len() - 1] == s);
                    }
                }
            }
        }
        k += 1;
    }
    proof {
        let kind_i = g.layout.slots@[i];
        assert forall|s: Succ| #[trigger] out@.contains(s) <==> (out0.contains(s) || exists|c: Coord|
            white_target(g, bk_sq, w, i, c) && free_square(g, bk_sq, w, c) && s == Succ::State(
                moved(g, bk_sq, w, i, sq_index(g.region@, c)),
            )) by {
            if exists|c: Coord|
                white_target(g, bk_sq, w, i, c) && free_square(g, bk_sq, w, c) && s == Succ::State(
                    moved(g, bk_sq, w, i, sq_index(g.region@, c)),
                ) {
                let c = choose|c: Coord|
                    white_target(g, bk_sq, w, i, c) && free_square(g, bk_sq, w, c) && s == Succ::State(
                        moved(g, bk_sq, w, i, sq_index(g.region@, c)),
                    );
                let k2 = choose|k2: int| #[trigger] step_ok(g, bk_sq, w, i, k2) && c == offset(piece_square(g, w, i), step_of(kind_i, k2));
                assert(k2 < 8);
            }
            if out@.contains(s) && !out0.contains(s) {
                let k2 = choose|k2: int|
                    #[trigger] step_ok(g, bk_sq, w, i, k2) && k2 < 8 && free_square(g, bk_sq, w, offset(from, step_of(kind, k2))) && s
                        == Succ::State(moved(g, bk_sq, w, i, sq_index(g.region@, offset(from, step_of(kind, k2)))));
                let c = offset(from, step_of(kind, k2));
                assert(white_target(g, bk_sq, w, i, c));
            }
        }
        if exists|c: Coord| white_target(g, bk_sq, w, i, c) && !g.region@.contains(c) {
            let c = choose|c: Coord| white_target(g, bk_sq, w, i, c) && !g.region@.contains(c);
            let k2 = choose|k2: int| #[trigger] step_ok(g, bk_sq, w, i, k2) && c == offset(piece_square(g, w, i), step_of(kind_i, k2));
            assert(k2 < 8);
        }
        if *has_sink && !sink0 {
            let k2 = choose|k2: int|
                #[trigger] step_ok(g, bk_sq, w, i, k2) && k2 < 8 && !g.region@.contains(offset(from, step_of(kind, k2)));
            let c = offset(from, step_of(kind, k2));
            assert(white_target(g, bk_sq, w, i, c));
        }
    }
}

/// The coordinates of `c` as a pair.
pub open spec fn pair(c: Coord) -> (int, int) {
    (c.x as int, c.y as int)
}

/// Adds the moves of the sliding piece in slot `i`: along each direction, every free square
/// up to the first occupied one, the region's edge or the move bound.
#[verifier::rlimit(30)]
fn gen_sliding(
    game: &Game,
    bk_sq: u16,
    whites: &[u16],
    slot_idx: usize,
    occ_all: &Occ,
    out: &mut Vec<Succ>,
    has_sink: &mut bool,
)
    requires
        unpacked_ok(*game, bk_sq, whites@),
        slot_idx < whites@.len(),
        whites@[slot_idx as int] != game.packer.region_size,
        !is_stepper(game.layout.slots@[slot_idx as int]),
        occ_all@ == occupied(*game, bk_sq, whites@),
        occ_all.capacity() >= game.region@.len(),
    ensures
        forall|s: Succ| #[trigger] final(out)@.contains(s) <==> (old(out)@.contains(s) || exists|c: Coord|
            white_target(*game, bk_sq, whites@, slot_idx as int, c) && free_square(*game, bk_sq, whites@, c) && s
                == Succ::State(moved(*game, bk_sq, whites@, slot_idx as int, sq_index(game.region@, c)))),
        *final(has_sink) == (*old(has_sink) || exists|c: Coord|
            white_target(*game, bk_sq, whites@, slot_idx as int, c) && !game.region@.contains(c)),
{
    let ghost g = *game;
    let ghost w = whites@;
    let ghost i = slot_idx as int;
    let region = &game.region;
    let kind = game.layout.slots[slot_idx];
    let from = region.coord_of(whites[slot_idx]);
    let bound = game.move_bound;
    let dirs = slide_dirs(kind);
    proof {
        assert(in_box(from)) by {
            assert(g.region@.contains(g.region@[w[i] as int]));
        }
    }
    let ghost out0 = out@;
    let ghost sink0 = *has_sink;
    let mut d: usize = 0;
    while d < dirs.len()
        invariant
            unpacked_ok(g, bk_sq, w),
            g == *game,
            w == whites@,
            i == slot_idx,
            0 <= i < w.len(),
            w[i] != g.packer.region_size,
            kind == g.layout.slots@[i],
            !is_stepper(kind),
            from == piece_square(g, w, i),
            in_box(from),
            region == &game.region,
            bound == g.move_bound,
            occ_all@ == occupied(g, bk_sq, w),
            occ_all.capacity() >= g.region@.len(),
            dirs@.len() == dir_count(kind),
            forall|dd: int| 0 <= dd < dirs@.len() ==> (#[trigger] dirs@[dd]).0 == slide_dir(kind, dd).0 && dirs@[dd].1 == slide_dir(kind, dd).1,
            d <= dirs@.len(),
            forall|s: Succ| #[trigger] out@.contains(s) <==> (out0.contains(s) || exists|dd: int, j: int|
                #[trigger] slide_ok(g, bk_sq, w, i, dd, j) && dd < d && free_square(g, bk_sq, w, slide_point(g, w, i, dd, j)) && s
                    == Succ::State(moved(g, bk_sq, w, i, sq_index(g.region@, slide_point(g, w, i, dd, j))))),
            *has_sink == (sink0 || exists|dd: int, j: int|
                #[trigger] slide_ok(g, bk_sq, w, i, dd, j) && dd < d && !g.region@.contains(slide_point(g, w, i, dd, j))),
        decreases dirs@.len() - d,
    {
        let (dx, dy) = dirs[d];
        let ghost dd = d as int;
        let ghost dir = slide_dir(kind, dd);
        let ghost out_d = out@;
        let ghost sink_d = *has_sink;
        let mut step_count: u16 = 0;
        let mut cur = Coord::new(from.x + dx, from.y + dy);
        let mut done = false;
        let mut left = false;
        let ghost mut j: int = 1;
        proof {
            assert(dir.0 == dx && dir.1 == dy);
            assert(pair(cur) == ray_point(from, dir, 1));
            assert(dx != 0 || dy != 0);
        }
        while !done
            invariant
                unpacked_ok(g, bk_sq, w),
                g == *game,
                w == whites@,
                i == slot_idx,
                0 <= i < w.len(),
                w[i] != g.packer.region_size,
                kind == g.layout.slots@[i],
                !is_stepper(kind),
                from == piece_square(g, w, i),
                in_box(from),
                region == &game.region,
                bound == g.move_bound,
                occ_all@ == occupied(g, bk_sq, w),
                occ_all.capacity() >= g.region@.len(),
                0 <= dd < dir_count(kind),
                dir == slide_dir(kind, dd),
                dir.0 == dx && dir.1 == dy,
                dx != 0 || dy != 0,
                -1 <= dx <= 1 && -1 <= dy <= 1,
                j == step_count + 1,
                1 <= j <= 256,
                pair(cur) == ray_point(from, dir, j),
                j == 1 || within_bound(g, j - 1),
                forall|l: int| 1 <= l < j ==> free_square(g, bk_sq, w, #[trigger] slide_point(g, w, i, dd, l)),
                forall|s: Succ| #[trigger] out@.contains(s) <==> (out_d.contains(s) || exists|l: int|
                    1 <= l < j && s == Succ::State(moved(g, bk_sq, w, i, sq_index(g.region@, #[trigger] slide_point(g, w, i, dd, l))))),
                !done ==> *has_sink == sink_d,
                done ==> {
                    ||| !within_bound(g, j)
                    ||| (g.region@.contains(slide_point(g, w, i, dd, j)) && !free_square(g, bk_sq, w, slide_point(g, w, i, dd, j)))
                    ||| (!g.region@.contains(slide_point(g, w, i, dd, j)) && *has_sink && left)
                },
                done && !left ==> *has_sink == sink_d,
                left ==> done && !g.region@.contains(slide_point(g, w, i, dd, j)),
                left ==> within_bound(g, j),
            decreases 2 * (256 - j) + (if done { 0int } else { 1int }),
        {
            proof {
                assert(coord_at(pair(cur)) == cur);
                assert(slide_point(g, w, i, dd, j) == cur);
            }
            let over = match bound {
                Some(b) => step_count >= b,
                None => false,
            };
            if over {
                done = true;
            } else {
                match region.sq_of(cur) {
                    Some(cur_sq) => {
                        if occ_all.get(cur_sq) {
                            done = true;
                        } else {
                            let st = moved_state(game, bk_sq, whites, slot_idx, cur_sq);
                            let ghost before = out@;
                            out.push(Succ::State(st));
                            proof {
                                assert(free_square(g, bk_sq, w, slide_point(g, w, i, dd, j)));
                                assert(in_box(cur)) by {
                                    assert(g.region@.contains(g.region@[cur_sq as int]));
                                }
                                assert forall|s: Succ| #[trigger] out@.contains(s) <==> (out_d.contains(s) || exists|l: int|
                                    1 <= l < j + 1 && s == Succ::State(moved(g, bk_sq, w, i, sq_index(g.region@, #[trigger] slide_point(g, w, i, dd, l))))) by {
                                    if before.contains(s) {
                                        let p = choose|p: int| 0 <= p < before.len() && before[p] == s;
                                        assert(out@[p] == s);
                                    }
                                    if exists|l: int|
                                        1 <= l < j + 1 && s == Succ::State(moved(g, bk_sq, w, i, sq_index(g.region@, #[trigger] slide_point(g, w, i, dd, l)))) {
                                        let l = choose|l: int|
                                            1 <= l < j + 1 && s == Succ::State(moved(g, bk_sq, w, i, sq_index(g.region@, #[trigger] slide_point(g, w, i, dd, l))));
                                        if l == j {
                                            assert(out@[out@.len() - 1] == s);
                                        }
                                    }
                                    if out@.contains(s) && !before.contains(s) {
                                        assert(s == Succ::State(st));
                                    }
                                }
                                assert(j <= 255) by {
                                    assert(-127 <= cur.x <= 127 && -127 <= cur.y <= 127);
                                }
                            }
                            step_count += 1;
                            cur = Coord::new(cur.x + dx, cur.y + dy);
                            proof {
                                j = j + 1;
                                assert(pair(cur) == ray_point(from, dir, j));
                            }
                        }
                    },
                    None => {
                        *has_sink = true;
                        left = true;
                        done = true;
                    },
                }
            }
        }
        proof {
            let jj = j;
            assert(slide_point(g, w, i, dd, jj) == cur) by {
                assert(coord_at(pair(cur)) == cur);
            }
            // The states of this direction are exactly the slides shorter than `jj`.
            assert forall|l: int| 1 <= l < jj implies #[trigger] slide_ok(g, bk_sq, w, i, dd, l) by {
                if l > 0 {
                    assert(within_bound(g, l)) by {
                        assert(jj == 1 || within_bound(g, jj - 1));
                    }
                }
            }
            assert forall|l: int| jj <= l && #[trigger] slide_ok(g, bk_sq, w, i, dd, l) implies !free_square(g, bk_sq, w, slide_point(g, w, i, dd, l)) && (l == jj && left || g.region@.contains(slide_point(g, w, i, dd, l))) by {
                if l > jj {
                    assert(free_square(g, bk_sq, w, slide_point(g, w, i, dd, jj)));
                    assert(within_bound(g, l));
                } else {
                    if !within_bound(g, jj) {
                    } else if g.region@.contains(slide_point(g, w, i, dd, jj)) && !free_square(g, bk_sq, w, slide_point(g, w, i, dd, jj)) {
                    } else {
                        assert(left);
                    }
                }
            }
            if left {
                assert(slide_ok(g, bk_sq, w, i, dd, jj));
            }
            assert forall|s: Succ| #[trigger] out@.contains(s) <==> (out0.contains(s) || exists|d2: int, j2: int|
                #[trigger] slide_ok(g, bk_sq, w, i, d2, j2) && d2 < d + 1 && free_square(g, bk_sq, w, slide_point(g, w, i, d2, j2)) && s
                    == Succ::State(moved(g, bk_sq, w, i, sq_index(g.region@, slide_point(g, w, i, d2, j2))))) by {
                if out@.contains(s) && !out_d.contains(s) {
                    let l = choose|l: int|
                        1 <= l < jj && s == Succ::State(moved(g, bk_sq, w, i, sq_index(g.region@, #[trigger] slide_point(g, w, i, dd, l))));
                    assert(slide_ok(g, bk_sq, w, i, dd, l));
                }
                if exists|d2: int, j2: int|
                    #[trigger] slide_ok(g, bk_sq, w, i, d2, j2) && d2 < d + 1 && free_square(g, bk_sq, w, slide_point(g, w, i, d2, j2)) && s
                        == Succ::State(moved(g, bk_sq, w, i, sq_index(g.region@, slide_point(g, w, i, d2, j2)))) {
                    let (d2, j2) = choose|d2: int, j2: int|
                        #[trigger] slide_ok(g, bk_sq, w, i, d2, j2) && d2 < d + 1 && free_square(g, bk_sq, w, slide_point(g, w, i, d2, j2)) && s
                            == Succ::State(moved(g, bk_sq, w, i, sq_index(g.region@, slide_point(g, w, i, d2, j2))));
                    if d2 == dd {
                        if j2 >= jj {
                            assert(false);
                        }
                        assert(out@.contains(s));
                    } else {
                        assert(out_d.contains(s));
                    }
                }
            }
            assert(*has_sink == (sink0 || exists|d2: int, j2: int|
                #[trigger] slide_ok(g, bk_sq, w, i, d2, j2) && d2 < d + 1 && !g.region@.contains(slide_point(g, w, i, d2, j2)))) by {
                if exists|d2: int, j2: int|
                    #[trigger] slide_ok(g, bk_sq, w, i, d2, j2) && d2 < d + 1 && !g.region@.contains(slide_point(g, w, i, d2, j2)) {
                    let (d2, j2) = choose|d2: int, j2: int|
                        #[trigger] slide_ok(g, bk_sq, w, i, d2, j2) && d2 < d + 1 && !g.region@.contains(slide_point(g, w, i, d2, j2));
                    if d2 == dd {
                        if j2 < jj {
                            assert(free_square(g, bk_sq, w, slide_point(g, w, i, dd, j2)));
                        }
                        assert(left);
                    }
                }
                if left {
                    assert(slide_ok(g, bk_sq, w, i, dd, jj));
                }
            }
        }
        d += 1;
    }
    proof {
        let kind_i = g.layout.slots@[i];
        assert forall|s: Succ| #[trigger] out@.contains(s) <==> (out0.contains(s) || exists|c: Coord|
            white_target(g, bk_sq, w, i, c) && free_square(g, bk_sq, w, c) && s == Succ::State(
                moved(g, bk_sq, w, i, sq_index(g.region@, c)),
            )) by {
            if exists|c: Coord|
                white_target(g, bk_sq, w, i, c) && free_square(g, bk_sq, w, c) && s == Succ::State(
                    moved(g, bk_sq, w, i, sq_index(g.region@, c)),
                ) {
                let c = choose|c: Coord|
                    white_target(g, bk_sq, w, i, c) && free_square(g, bk_sq, w, c) && s == Succ::State(
                        moved(g, bk_sq, w, i, sq_index(g.region@, c)),
                    );
                let (d2, j2) = choose|d2: int, j2: int| #[trigger] slide_ok(g, bk_sq, w, i, d2, j2) && c == slide_point(g, w, i, d2, j2);
            }
            if out@.contains(s) && !out0.contains(s) {
                let (d2, j2) = choose|d2: int, j2: int|
                    #[trigger] slide_ok(g, bk_sq, w, i, d2, j2) && d2 < dirs@.len() && free_square(g, bk_sq, w, slide_point(g, w, i, d2, j2)) && s
                        == Succ::State(moved(g, bk_sq, w, i, sq_index(g.region@, slide_point(g, w, i, d2, j2))));
                let c = slide_point(g, w, i, d2, j2);
                assert(white_target(g, bk_sq, w, i, c));
            }
        }
        if exists|c: Coord| white_target(g, bk_sq, w, i, c) && !g.region@.contains(c) {
            let c = choose|c: Coord| white_target(g, bk_sq, w, i, c) && !g.region@.contains(c);
            let (d2, j2) = choose|d2: int, j2: int| #[trigger] slide_ok(g, bk_sq, w, i, d2, j2) && c == slide_point(g, w, i, d2, j2);
        }
        if *has_sink && !sink0 {
            let (d2, j2) = choose|d2: int, j2: int|
                #[trigger] slide_ok(g, bk_sq, w, i, d2, j2) && d2 < dirs@.len() && !g.region@.contains(slide_point(g, w, i, d2, j2));
            let c = slide_point(g, w, i, d2, j2);
            assert(white_target(g, bk_sq, w, i, c));
        }
    }
}

/// The first live slot standing on `sq`.
fn find_slot_at(whites: &[u16], sq: u16, captured_code: u16) -> (r: Option<usize>)
    ensures
        match r {
            Some(i) => i < whites@.len() && i == first_slot(whites@, sq as int, captured_code),
            None => !white_on(whites@, sq as int, captured_code),
        },
{
    let mut i: usize = 0;
    while i < whites.len()
        invariant
            i <= whites@.len(),
            forall|k: int| 0 <= k < i ==> !(#[trigger] whites@[k] != captured_code && whites@[k] == sq),
        decreases whites@.len() - i,
    {
        if whites[i] != captured_code && whites[i] == sq {
            proof {
                let w = whites@;
                let f = first_slot(w, sq as int, captured_code);
                assert(0 <= i < w.len() && w[i as int] != captured_code && w[i as int] == sq && forall|k: int|
                    0 <= k < i ==> !(#[trigger] w[k] != captured_code && w[k] == sq));
                if f < i {
                    assert(!(w[f] != captured_code && w[f] == sq));
                } else if f > i {
                    assert(!(w[i as int] != captured_code && w[i as int] == sq));
                }
            }
            return Some(i);
        }
        i += 1;
    }
    None
}

/// The successors of a black-to-move state.
#[verifier::rlimit(40)]
fn black_succ(game: &Game, bk_sq: u16, whites: &[u16], captured_code: u16) -> (out: Vec<Succ>)
    requires
        unpacked_ok(*game, bk_sq, whites@),
        captured_code == game.packer.region_size,
    ensures
        forall|s: Succ| #[trigger] out@.contains(s) <==> black_moves(*game, bk_sq, whites@).contains(s),
        forall|i: int| 0 <= i < out@.len() && #[trigger] out@[i] == Succ::Sink ==> i == out@.len() - 1,
{
    let ghost g = *game;
    let ghost w = whites@;
    let region = &game.region;
    let layout = &game.layout;
    let bk_c = region.coord_of(bk_sq);
    let occ_white = build_white_occupancy(region, whites, captured_code);
    let steps = king_steps();
    proof {
        assert(in_box(bk_c));
    }
    let ghost sq_all = g.region@;
    let ghost slots = g.layout.slots@;
    let ghost ws = white_set(w, captured_code);
    let mut out: Vec<Succ> = Vec::new();
    let mut has_sink = false;
    let mut k: usize = 0;
    while k < 8
        invariant
            unpacked_ok(g, bk_sq, w),
            g == *game,
            w == whites@,
            captured_code == g.packer.region_size,
            region == &game.region,
            layout == &game.layout,
            sq_all == g.region@,
            slots == g.layout.slots@,
            ws == white_set(w, captured_code),
            bk_c == sq_all[bk_sq as int],
            in_box(bk_c),
            occ_white@ == ws,
            occ_white.capacity() >= sq_all.len(),
            forall|kk: int| 0 <= kk < 8 ==> (#[trigger] steps@[kk]).0 == king_step(kk).0 && steps@[kk].1 == king_step(kk).1,
            k <= 8,
            forall|s: Succ| #[trigger] out@.contains(s) <==> exists|kk: int|
                0 <= kk < k && sq_all.contains(#[trigger] offset(bk_c, king_step(kk))) && black_step_result(g, bk_sq, w, offset(bk_c, king_step(kk)), s),
            has_sink == exists|kk: int|
                0 <= kk < k && !sq_all.contains(#[trigger] offset(bk_c, king_step(kk))) && !attacked_spec(
                    offset(bk_c, king_step(kk)),
                    sq_all,
                    slots,
                    w,
                    captured_code,
                    ws,
                ),
        decreases 8 - k,
    {
        let (sx, sy) = steps[k];
        let dst = Coord::new(bk_c.x + sx, bk_c.y + sy);
        let ghost kk = k as int;
        proof {
            assert(dst == offset(bk_c, king_step(kk)));
            assert(near_box(dst));
            assert(codes_ok(w, sq_all.len(), captured_code)) by {
                assert forall|q: int| 0 <= q < w.len() implies #[trigger] w[q] == captured_code || w[q] < sq_all.len() by {}
            }
        }
        let ghost before = out@;
        let ghost result: Option<Succ> = None;
        match region.sq_of(dst) {
            Some(dst_sq) => {
                if occ_white.get(dst_sq) {
                    match find_slot_at(whites, dst_sq, captured_code) {
                        Some(slot_idx) => {
                            if layout.slots[slot_idx] != PieceKind::King {
                                let whites2 = moved_codes(game, whites, slot_idx, captured_code);
                                let mut occ_after = occ_white.copy();
                                occ_after.clear(dst_sq);
                                proof {
                                    assert(codes_ok(whites2@, sq_all.len(), captured_code)) by {
                                        assert forall|q: int| 0 <= q < whites2@.len() implies #[trigger] whites2@[q] == captured_code
                                            || whites2@[q] < sq_all.len() by {}
                                    }
                                }
                                let attacked = is_attacked_by_white(dst, region, layout, whites2.as_slice(), captured_code, &occ_after);
                                if !attacked {
                                    let st = game.packer.pack(dst_sq, whites2.as_slice());
                                    out.push(Succ::State(st));
                                    proof {
                                        result = Some(Succ::State(st));
                                    }
                                }
                            }
                        },
                        None => {
                            proof {
                                assert(false);
                            }
                        },
                    }
                } else {
                    proof {
                        assert(codes_ok(w, sq_all.len(), captured_code));
                    }
                    let attacked = is_attacked_by_white(dst, region, layout, whites, captured_code, &occ_white);
                    if !attacked {
                        let st = game.packer.pack(dst_sq, whites);
                        out.push(Succ::State(st));
                        proof {
                            result = Some(Succ::State(st));
                        }
                    }
                }
            },
            None => {
                let attacked = is_attacked_by_white(dst, region, layout, whites, captured_code, &occ_white);
                if !attacked {
                    has_sink = true;
                }
            },
        }
        proof {
            assert(forall|s: Succ| (sq_all.contains(dst) && black_step_result(g, bk_sq, w, dst, s)) <==> result == Some(s));
            assert(out@ == before || (result is Some && out@ == before.push(result->Some_0)));
            assert forall|s: Succ| #[trigger] out@.contains(s) <==> exists|k2: int|
                0 <= k2 < k + 1 && sq_all.contains(#[trigger] offset(bk_c, king_step(k2))) && black_step_result(g, bk_sq, w, offset(bk_c, king_step(k2)), s) by {
                if before.contains(s) {
                    let p = choose|p: int| 0 <= p < before.len() && before[p] == s;
                    assert(out@[p] == s);
                }
                if exists|k2: int|
                    0 <= k2 < k + 1 && sq_all.contains(#[trigger] offset(bk_c, king_step(k2))) && black_step_result(g, bk_sq, w, offset(bk_c, king_step(k2)), s) {
                    let k2 = choose|k2: int|
                        0 <= k2 < k + 1 && sq_all.contains(#[trigger] offset(bk_c, king_step(k2))) && black_step_result(g, bk_sq, w, offset(bk_c, king_step(k2)), s);
                    if k2 == kk {
                        assert(out@[out@.len() - 1] == s);
                    }
                }
            }
        }
        k += 1;
    }
    let ghost before_sink = out@;
    if has_sink {
        out.push(Succ::Sink);
    }
    proof {
        assert forall|i: int| 0 <= i < out@.len() && #[trigger] out@[i] == Succ::Sink implies i == out@.len() - 1 by {
            if i < before_sink.len() {
                assert(before_sink[i] == out@[i]);
                assert(before_sink.contains(Succ::Sink));
            }
        }
        assert forall|s: Succ| #[trigger] out@.contains(s) <==> black_moves(g, bk_sq, w).contains(s) by {
            if before_sink.contains(s) {
                let p = choose|p: int| 0 <= p < before_sink.len() && before_sink[p] == s;
                assert(out@[p] == s);
            }
            if s == Succ::Sink && has_sink {
                assert(out@[out@.len() - 1] == s);
            }
            if out@.contains(s) && !before_sink.contains(s) {
                assert(s == Succ::Sink);
            }
            if black_moves(g, bk_sq, w).contains(s) && s != Succ::Sink {
                let k2 = choose|k2: int|
                    0 <= k2 < 8 && sq_all.contains(#[trigger] offset(bk_c, king_step(k2))) && black_step_result(g, bk_sq, w, offset(bk_c, king_step(k2)), s);
            }
            if out@.contains(s) && before_sink.contains(s) {
                let k2 = choose|k2: int|
                    0 <= k2 < 8 && sq_all.contains(#[trigger] offset(bk_c, king_step(k2))) && black_step_result(g, bk_sq, w, offset(bk_c, king_step(k2)), s);
                assert(s != Succ::Sink);
            }
        }
    }
    out
}

/// The successors of a white-to-move state.
fn white_succ(game: &Game, bk_sq: u16, state: PackedState, whites: &[u16], captured_code: u16) -> (out: Vec<Succ>)
    requires
        unpacked_ok(*game, bk_sq, whites@),
        captured_code == game.packer.region_size,
    ensures
        forall|s: Succ| #[trigger] out@.contains(s) <==> white_moves(*game, bk_sq, state, whites@).contains(s),
        forall|i: int| 0 <= i < out@.len() && #[trigger] out@[i] == Succ::Sink ==> i == out@.len() - 1,
{
    let ghost g = *game;
    let ghost w = whites@;
    let region = &game.region;
    let layout = &game.layout;
    proof {
        assert(codes_ok(w, g.region@.len(), captured_code)) by {
            assert forall|q: int| 0 <= q < w.len() implies #[trigger] w[q] == captured_code || w[q] < g.region@.len() by {}
        }
    }
    let occ_white = build_white_occupancy(region, whites, captured_code);
    let mut occ_all = occ_white.copy();
    occ_all.set(bk_sq);
    proof {
        assert(occ_all@ =~= occupied(g, bk_sq, w));
    }
    let mut out: Vec<Succ> = Vec::new();
    let mut has_sink = false;
    if game.allow_pass {
        out.push(Succ::State(state));
    }
    proof {
        assert forall|s: Succ| #[trigger] out@.contains(s) <==> ((g.allow_pass && s == Succ::State(state)) || exists|i: int, c: Coord|
            #[trigger] white_target(g, bk_sq, w, i, c) && i < 0 && free_square(g, bk_sq, w, c) && s == Succ::State(
                moved(g, bk_sq, w, i, sq_index(g.region@, c)),
            )) by {
            if out@.contains(s) {
                assert(out@[0] == s);
            }
            if g.allow_pass && s == Succ::State(state) {
                assert(out@[0] == s);
            }
        }
    }
    let mut slot_idx: usize = 0;
    while slot_idx < layout.slots.len()
        invariant
            unpacked_ok(g, bk_sq, w),
            g == *game,
            w == whites@,
            captured_code == g.packer.region_size,
            layout == &game.layout,
            occ_all@ == occupied(g, bk_sq, w),
            occ_all.capacity() >= g.region@.len(),
            slot_idx <= w.len(),
            forall|s: Succ| #[trigger] out@.contains(s) <==> ((g.allow_pass && s == Succ::State(state)) || exists|i: int, c: Coord|
                #[trigger] white_target(g, bk_sq, w, i, c) && i < slot_idx && free_square(g, bk_sq, w, c) && s == Succ::State(
                    moved(g, bk_sq, w, i, sq_index(g.region@, c)),
                )),
            has_sink == exists|i: int, c: Coord| #[trigger] white_target(g, bk_sq, w, i, c) && i < slot_idx && !g.region@.contains(c),
        decreases w.len() - slot_idx,
    {
        let ghost i = slot_idx as int;
        let ghost before = out@;
        let ghost sink_before = has_sink;
        let code = whites[slot_idx];
        if code != captured_code {
            let kind = layout.slots[slot_idx];
            if kind == PieceKind::King || kind == PieceKind::Knight {
                step_moves(game, bk_sq, whites, slot_idx, &occ_all, &mut out, &mut has_sink);
            } else {
                gen_sliding(game, bk_sq, whites, slot_idx, &occ_all, &mut out, &mut has_sink);
            }
        }
        proof {
            assert forall|s: Succ| #[trigger] out@.contains(s) <==> ((g.allow_pass && s == Succ::State(state)) || exists|i2: int, c: Coord|
                #[trigger] white_target(g, bk_sq, w, i2, c) && i2 < slot_idx + 1 && free_square(g, bk_sq, w, c) && s == Succ::State(
                    moved(g, bk_sq, w, i2, sq_index(g.region@, c)),
                )) by {
                if exists|i2: int, c: Coord|
                    #[trigger] white_target(g, bk_sq, w, i2, c) && i2 < slot_idx + 1 && free_square(g, bk_sq, w, c) && s == Succ::State(
                        moved(g, bk_sq, w, i2, sq_index(g.region@, c)),
                    ) {
                    let (i2, c) = choose|i2: int, c: Coord|
                        #[trigger] white_target(g, bk_sq, w, i2, c) && i2 < slot_idx + 1 && free_square(g, bk_sq, w, c) && s == Succ::State(
                            moved(g, bk_sq, w, i2, sq_index(g.region@, c)),
                        );
                    if i2 < i {
                        assert(before.contains(s));
                    }
                }
            }
            assert(has_sink == exists|i2: int, c: Coord| #[trigger] white_target(g, bk_sq, w, i2, c) && i2 < slot_idx + 1 && !g.region@.contains(c)) by {
                if exists|i2: int, c: Coord| #[trigger] white_target(g, bk_sq, w, i2, c) && i2 < slot_idx + 1 && !g.region@.contains(c) {
                    let (i2, c) = choose|i2: int, c: Coord| #[trigger] white_target(g, bk_sq, w, i2, c) && i2 < slot_idx + 1 && !g.region@.contains(c);
                    if i2 < i {
                        assert(sink_before);
                    }
                }
            }
        }
        slot_idx += 1;
    }
    let ghost before_sink = out@;
    if has_sink {
        out.push(Succ::Sink);
    }
    proof {
        assert forall|i: int| 0 <= i < out@.len() && #[trigger] out@[i] == Succ::Sink implies i == out@.len() - 1 by {
            if i < before_sink.len() {
                assert(before_sink[i] == out@[i]);
                assert(before_sink.contains(Succ::Sink));
            }
        }
        assert forall|s: Succ| #[trigger] out@.contains(s) <==> white_moves(g, bk_sq, state, w).contains(s) by {
            if before_sink.contains(s) {
                let p = choose|p: int| 0 <= p < before_sink.len() && before_sink[p] == s;
                assert(out@[p] == s);
            }
            if s == Succ::Sink && has_sink {
                assert(out@[out@.len() - 1] == s);
            }
            if out@.contains(s) && !before_sink.contains(s) {
                assert(s == Succ::Sink);
            }
            if white_moves(g, bk_sq, state, w).contains(s) && s != Succ::Sink && !(g.allow_pass && s == Succ::State(state)) {
                let (i2, c) = choose|i2: int, c: Coord|
                    #[trigger] white_target(g, bk_sq, w, i2, c) && free_square(g, bk_sq, w, c) && s == Succ::State(
                        moved(g, bk_sq, w, i2, sq_index(g.region@, c)),
                    );
                assert(i2 < w.len());
            }
            if white_moves(g, bk_sq, state, w).contains(s) && s == Succ::Sink {
                let (i2, c) = choose|i2: int, c: Coord| #[trigger] white_target(g, bk_sq, w, i2, c) && !g.region@.contains(c);
                assert(i2 < w.len());
            }
        }
    }
    out
}

/// All successors of `state` with `turn` to move; `scratch` receives the unpacked white codes.
pub fn successors(game: &Game, turn: Turn, state: PackedState, scratch: &mut Scratch) -> (out: Vec<Succ>)
    requires
        state_ok(*game, state),
        old(scratch)@.len() == game.packer.n_white,
    ensures
        final(scratch)@ == game.packer.whites_spec(state),
        forall|s: Succ| #[trigger] out@.contains(s) <==> successors_spec(*game, turn, state).contains(s),
        forall|i: int| 0 <= i < out@.len() && #[trigger] out@[i] == Succ::Sink ==> i == out@.len() - 1,
{
    let cap = game.captured_code();
    let bk_sq = game.packer.unpack(state, scratch.whites.as_mut_slice());
    proof {
        assert(unpacked_ok(*game, bk_sq, scratch@)) by {
            assert forall|i: int| 0 <= i < scratch@.len() implies #[trigger] scratch@[i] <= game.packer.region_size by {
                assert(scratch@[i] == game.packer.whites_spec(state)[i]);
            }
        }
    }
    match turn {
        Turn::Black => black_succ(game, bk_sq, scratch.whites.as_slice(), cap),
        Turn::White => white_succ(game, bk_sq, state, scratch.whites.as_slice(), cap),
    }
}

} // verus!
