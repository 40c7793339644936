//! Bounded universes: every canonical placement inside an absolute box.
//!
//! Positions store the white pieces relative to the black king; here the king itself also
//! ranges over an absolute box `[-bound, bound]²`, and every piece must lie in that box.

use vstd::prelude::*;

use crate::board::coord::{abs_int, Coord};
use crate::board::position::{Position, MAX_PIECES};
use crate::board::square::Square;
use crate::chess::bounds::{before_xy, coord_lt, enumerate_placements, enumerated_in, is_listing};
use crate::chess::layout::PieceLayout;
use crate::chess::rules::within;
use crate::scenario::State;

verus! {

/// Largest box bound for which relative coordinates stay well within the coordinate limit.
pub open spec fn max_box_bound() -> int {
    0x0fff_ffff
}

/// The relative coordinates `c` of the squares of the box `[-bound, bound]²` seen from the
/// black king at `king`, other than the king's own square.
pub open spec fn box_around(king: Coord, bound: int) -> spec_fn(Coord) -> bool {
    |c: Coord| c != (Coord { x: 0, y: 0 }) && abs_int(king.x + c.x) <= bound && abs_int(king.y + c.y) <= bound
}

/// `s` is one of the canonical states of the absolute box: the king is in the box, and the
/// position is a canonical placement of the layout on box squares.
pub open spec fn abs_box_ok(layout: PieceLayout, bound: int, allow_captures: bool, s: State) -> bool {
    &&& within(s.abs_king, bound)
    &&& enumerated_in(layout, box_around(s.abs_king, bound), allow_captures, s.pos)
}

/// The squares of the box other than `king`'s, relative to `king`, in increasing `(x, y)`
/// order.
pub fn box_listing(king: Coord, bound: i32) -> (out: Vec<Square>)
    requires
        0 <= bound <= max_box_bound(),
        within(king, bound as int),
    ensures
        is_listing(out@, box_around(king, bound as int)),
{
    reveal(is_listing);
    let mut out: Vec<Square> = Vec::new();
    let ghost pred = box_around(king, bound as int);
    let mut x: i32 = -bound;
    while x <= bound
        invariant
            0 <= bound <= max_box_bound(),
            within(king, bound as int),
            -bound <= x <= bound + 1,
            pred == box_around(king, bound as int),
            forall|i: int, j: int| 0 <= i < j < out@.len() ==> coord_lt(#[trigger] out@[i].coord_spec(), #[trigger] out@[j].coord_spec()),
            forall|i: int| 0 <= i < out@.len() ==> pred(#[trigger] out@[i].coord_spec())
                && out@[i] == Square::from_coord_spec(out@[i].coord_spec()) && out@[i].coord_spec().abs_fits()
                && king.x + out@[i].coord_spec().x < x,
            forall|c: Coord| #[trigger] pred(c) && king.x + c.x < x ==> exists|i: int|
                0 <= i < out@.len() && out@[i] == Square::from_coord_spec(c),
        decreases bound + 1 - x,
    {
        let mut y: i32 = -bound;
        while y <= bound
            invariant
                0 <= bound <= max_box_bound(),
                within(king, bound as int),
                -bound <= x <= bound,
                -bound <= y <= bound + 1,
                pred == box_around(king, bound as int),
                forall|i: int, j: int| 0 <= i < j < out@.len() ==> coord_lt(#[trigger] out@[i].coord_spec(), #[trigger] out@[j].coord_spec()),
                forall|i: int| 0 <= i < out@.len() ==> pred(#[trigger] out@[i].coord_spec())
                    && out@[i] == Square::from_coord_spec(out@[i].coord_spec()) && out@[i].coord_spec().abs_fits()
                    && before_xy(out@[i].coord_spec(), x - king.x, y - king.y),
                forall|c: Coord| #[trigger] pred(c) && before_xy(c, x - king.x, y - king.y) ==> exists|i: int|
                    0 <= i < out@.len() && out@[i] == Square::from_coord_spec(c),
            decreases bound + 1 - y,
        {
            if !(x == king.x && y == king.y) {
                let c = Coord::new(x - king.x, y - king.y);
                let s = Square::from_coord(c);
                let ghost old_out = out@;
                out.push(s);
                proof {
                    assert(pred(c));
                    assert forall|cc: Coord| #[trigger] pred(cc) && before_xy(cc, x - king.x, y + 1 - king.y) implies exists|i: int|
                        0 <= i < out@.len() && out@[i] == Square::from_coord_spec(cc) by {
                        if cc == c {
                            assert(out@[out@.len() - 1] == Square::from_coord_spec(cc));
                        } else {
                            assert(before_xy(cc, x - king.x, y - king.y));
                            let i = choose|i: int| 0 <= i < old_out.len() && old_out[i] == Square::from_coord_spec(cc);
                            assert(out@[i] == old_out[i]);
                        }
                    }
                }
            } else {
                proof {
                    assert forall|cc: Coord| #[trigger] pred(cc) && before_xy(cc, x - king.x, y + 1 - king.y) implies exists|i: int|
                        0 <= i < out@.len() && out@[i] == Square::from_coord_spec(cc) by {
                        assert(before_xy(cc, x - king.x, y - king.y));
                    }
                }
            }
            y += 1;
        }
        proof {
            assert forall|cc: Coord| #[trigger] pred(cc) && king.x + cc.x < x + 1 implies exists|i: int|
                0 <= i < out@.len() && out@[i] == Square::from_coord_spec(cc) by {
                assert(before_xy(cc, x - king.x, y - king.y));
            }
        }
        x += 1;
    }
    proof {
        assert forall|cc: Coord| #[trigger] pred(cc) implies exists|i: int|
            0 <= i < out@.len() && out@[i] == Square::from_coord_spec(cc) by {
            assert(king.x + cc.x < x);
        }
    }
    out
}

/// Every canonical state of the absolute box `[-bound, bound]²`: for each king square in
/// increasing `(x, y)` order, the canonical placements of the layout on the other box
/// squares (each piece may also be captured when `allow_captures` is set), with the white
/// king not next to the black king.
pub fn states_in_abs_box(layout: &PieceLayout, bound: i32, allow_captures: bool) -> (out: Vec<State>)
    requires
        0 <= bound <= max_box_bound(),
        layout.kinds_spec().len() <= MAX_PIECES,
    ensures
        forall|j: int| 0 <= j < out@.len() ==> abs_box_ok(*layout, bound as int, allow_captures, #[trigger] out@[j]),
        forall|s: State| #[trigger] abs_box_ok(*layout, bound as int, allow_captures, s) ==> out@.contains(s),
{
    let mut out: Vec<State> = Vec::new();
    let mut kx: i32 = -bound;
    while kx <= bound
        invariant
            0 <= bound <= max_box_bound(),
            -bound <= kx <= bound + 1,
            layout.kinds_spec().len() <= MAX_PIECES,
            forall|j: int| 0 <= j < out@.len() ==> abs_box_ok(*layout, bound as int, allow_captures, #[trigger] out@[j]),
            forall|s: State| #[trigger] abs_box_ok(*layout, bound as int, allow_captures, s) && s.abs_king.x < kx
                ==> out@.contains(s),
        decreases bound + 1 - kx,
    {
        let mut ky: i32 = -bound;
        while ky <= bound
            invariant
                0 <= bound <= max_box_bound(),
                -bound <= kx <= bound,
                -bound <= ky <= bound + 1,
                layout.kinds_spec().len() <= MAX_PIECES,
                forall|j: int| 0 <= j < out@.len() ==> abs_box_ok(*layout, bound as int, allow_captures, #[trigger] out@[j]),
                forall|s: State| #[trigger] abs_box_ok(*layout, bound as int, allow_captures, s)
                    && (s.abs_king.x < kx || (s.abs_king.x == kx && s.abs_king.y < ky)) ==> out@.contains(s),
            decreases bound + 1 - ky,
        {
            let king = Coord::new(kx, ky);
            let squares = box_listing(king, bound);
            let placements = enumerate_placements(layout, &squares, Ghost(box_around(king, bound as int)), allow_captures);
            let mut i: usize = 0;
            while i < placements.len()
                invariant
                    i <= placements@.len(),
                    within(king, bound as int),
                    king.x == kx && king.y == ky,
                    forall|j: int| 0 <= j < placements@.len() ==> enumerated_in(*layout, box_around(king, bound as int), allow_captures, #[trigger] placements@[j]),
                    forall|j: int| 0 <= j < out@.len() ==> abs_box_ok(*layout, bound as int, allow_captures, #[trigger] out@[j]),
                    forall|s: State| #[trigger] abs_box_ok(*layout, bound as int, allow_captures, s)
                        && (s.abs_king.x < kx || (s.abs_king.x == kx && s.abs_king.y < ky)) ==> out@.contains(s),
                    forall|j: int| 0 <= j < i ==> out@.contains(State { abs_king: king, pos: #[trigger] placements@[j] }),
                decreases placements@.len() - i,
            {
                let ghost before = out@;
                out.push(State { abs_king: king, pos: placements[i] });
                proof {
                    assert forall|s: State| #[trigger] abs_box_ok(*layout, bound as int, allow_captures, s)
                        && (s.abs_king.x < kx || (s.abs_king.x == kx && s.abs_king.y < ky)) implies out@.contains(s) by {
                        let j = choose|j: int| 0 <= j < before.len() && before[j] == s;
                        assert(out@[j] == s);
                    }
                    assert forall|j: int| 0 <= j < i + 1 implies out@.contains(State { abs_king: king, pos: #[trigger] placements@[j] }) by {
                        if j < i {
                            let t = State { abs_king: king, pos: placements@[j] };
                            let m = choose|m: int| 0 <= m < before.len() && before[m] == t;
                            assert(out@[m] == t);
                        } else {
                            assert(out@[before.len() as int] == State { abs_king: king, pos: placements@[j] });
                        }
                    }
                }
                i += 1;
            }
            proof {
                assert forall|s: State| #[trigger] abs_box_ok(*layout, bound as int, allow_captures, s)
                    && (s.abs_king.x < kx || (s.abs_king.x == kx && s.abs_king.y < ky + 1)) implies out@.contains(s) by {
                    if s.abs_king.x == kx && s.abs_king.y == ky {
                        assert(s.abs_king == king);
                        assert(placements@.contains(s.pos));
                        let j = choose|j: int| 0 <= j < placements@.len() && placements@[j] == s.pos;
                        assert(out@.contains(State { abs_king: king, pos: placements@[j] }));
                    }
                }
            }
            ky += 1;
        }
        kx += 1;
    }
    out
}

/// Calls `f` on every canonical state of the absolute box, in the order of
/// [`states_in_abs_box`], and stops at the first error, which it returns.
pub fn try_for_each_state_in_abs_box<E, F: FnMut(State) -> Result<(), E>>(
    layout: &PieceLayout,
    bound: i32,
    allow_captures: bool,
    f: F,
) -> (r: Result<(), E>)
    requires
        0 <= bound <= max_box_bound(),
        layout.kinds_spec().len() <= MAX_PIECES,
        forall|s: State| abs_box_ok(*layout, bound as int, allow_captures, s) ==> call_requires(f, (s,)),
    ensures
        r is Ok ==> forall|s: State| #[trigger] abs_box_ok(*layout, bound as int, allow_captures, s)
            ==> call_ensures(f, (s,), Ok::<(), E>(())),
        r matches Err(e) ==> exists|s: State| #[trigger] abs_box_ok(*layout, bound as int, allow_captures, s)
            && call_ensures(f, (s,), Err::<(), E>(e)),
{
    let mut call = f;
    let mut kx: i32 = -bound;
    while kx <= bound
        invariant
            0 <= bound <= max_box_bound(),
            -bound <= kx <= bound + 1,
            layout.kinds_spec().len() <= MAX_PIECES,
            call == f,
            forall|s: State| abs_box_ok(*layout, bound as int, allow_captures, s) ==> call_requires(f, (s,)),
            forall|s: State| #[trigger] abs_box_ok(*layout, bound as int, allow_captures, s) && s.abs_king.x < kx
                ==> call_ensures(f, (s,), Ok::<(), E>(())),
        decreases bound + 1 - kx,
    {
        let mut ky: i32 = -bound;
        while ky <= bound
            invariant
                0 <= bound <= max_box_bound(),
                -bound <= kx <= bound,
                -bound <= ky <= bound + 1,
                layout.kinds_spec().len() <= MAX_PIECES,
                call == f,
                forall|s: State| abs_box_ok(*layout, bound as int, allow_captures, s) ==> call_requires(f, (s,)),
                forall|s: State| #[trigger] abs_box_ok(*layout, bound as int, allow_captures, s)
                    && (s.abs_king.x < kx || (s.abs_king.x == kx && s.abs_king.y < ky)) ==> call_ensures(f, (s,), Ok::<(), E>(())),
            decreases bound + 1 - ky,
        {
            let king = Coord::new(kx, ky);
            let squares = box_listing(king, bound);
            let placements = enumerate_placements(layout, &squares, Ghost(box_around(king, bound as int)), allow_captures);
            let mut i: usize = 0;
            while i < placements.len()
                invariant
                    i <= placements@.len(),
                    within(king, bound as int),
                    king.x == kx && king.y == ky,
                    call == f,
                    forall|j: int| 0 <= j < placements@.len() ==> enumerated_in(*layout, box_around(king, bound as int), allow_captures, #[trigger] placements@[j]),
                    forall|s: State| abs_box_ok(*layout, bound as int, allow_captures, s) ==> call_requires(f, (s,)),
                    forall|s: State| #[trigger] abs_box_ok(*layout, bound as int, allow_captures, s)
                        && (s.abs_king.x < kx || (s.abs_king.x == kx && s.abs_king.y < ky)) ==> call_ensures(f, (s,), Ok::<(), E>(())),
                    forall|j: int| 0 <= j < i ==> call_ensures(f, (State { abs_king: king, pos: #[trigger] placements@[j] },), Ok::<(), E>(())),
                decreases placements@.len() - i,
            {
                let s = State { abs_king: king, pos: placements[i] };
                proof {
                    assert(abs_box_ok(*layout, bound as int, allow_captures, s));
                }
                let res = call(s);
                match res {
                    Ok(u) => {
                        assert(call_ensures(f, (s,), Ok::<(), E>(())));
                    },
                    Err(e) => {
                        proof {
                            assert(call_ensures(f, (s,), Err::<(), E>(e)));
                        }
                        return Err(e);
                    },
                }
                i += 1;
            }
            proof {
                assert forall|s: State| #[trigger] abs_box_ok(*layout, bound as int, allow_captures, s)
                    && (s.abs_king.x < kx || (s.abs_king.x == kx && s.abs_king.y < ky + 1)) implies call_ensures(f, (s,), Ok::<(), E>(())) by {
                    if s.abs_king.x == kx && s.abs_king.y == ky {
                        assert(s.abs_king == king);
                        assert(placements@.contains(s.pos));
                        let j = choose|j: int| 0 <= j < placements@.len() && placements@[j] == s.pos;
                        assert(call_ensures(f, (State { abs_king: king, pos: placements@[j] },), Ok::<(), E>(())));
                    }
                }
            }
            ky += 1;
        }
        kx += 1;
    }
    Ok(())
}

/// Calls `f` on every canonical state of the absolute box, in the order of
/// [`states_in_abs_box`].
pub fn for_each_state_in_abs_box<F: FnMut(State)>(
    layout: &PieceLayout,
    bound: i32,
    allow_captures: bool,
    f: F,
)
    requires
        0 <= bound <= max_box_bound(),
        layout.kinds_spec().len() <= MAX_PIECES,
        forall|s: State| abs_box_ok(*layout, bound as int, allow_captures, s) ==> call_requires(f, (s,)),
    ensures
        forall|s: State| #[trigger] abs_box_ok(*layout, bound as int, allow_captures, s) ==> call_ensures(f, (s,), ()),
{
    let mut call = f;
    let states = states_in_abs_box(layout, bound, allow_captures);
    let mut i: usize = 0;
    while i < states.len()
        invariant
            i <= states@.len(),
            call == f,
            forall|j: int| 0 <= j < states@.len() ==> abs_box_ok(*layout, bound as int, allow_captures, #[trigger] states@[j]),
            forall|s: State| abs_box_ok(*layout, bound as int, allow_captures, s) ==> call_requires(call, (s,)),
            forall|j: int| 0 <= j < i ==> call_ensures(f, (#[trigger] states@[j],), ()),
        decreases states@.len() - i,
    {
        call(states[i]);
        i += 1;
    }
    proof {
        assert forall|s: State| #[trigger] abs_box_ok(*layout, bound as int, allow_captures, s) implies call_ensures(f, (s,), ()) by {
            let j = choose|j: int| 0 <= j < states@.len() && states@[j] == s;
            assert(call_ensures(f, (states@[j],), ()));
        }
    }
}

} // verus!
