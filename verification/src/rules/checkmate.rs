//! Check and checkmate for the black king on a finite region.
use vstd::prelude::*;

use crate::game::Game;
use crate::pieces::Turn;
use crate::region::in_box;
use crate::rules::attacks::{attacked_spec, build_white_occupancy, codes_ok, is_attacked_by_white, white_set};
use crate::rules::movegen::{black_moves, state_ok, successors, unpacked_ok, Scratch, Succ};
use crate::state::PackedState;

verus! {

/// The black king on square `bk` is attacked by a live white piece.
pub open spec fn in_check_spec(game: Game, bk: u16, w: Seq<u16>) -> bool {
    attacked_spec(
        game.region@[bk as int],
        game.region@,
        game.layout.slots@,
        w,
        game.packer.region_size,
        white_set(w, game.packer.region_size),
    )
}

/// Whether the black king on `bk_sq` is in check.
pub fn is_in_check(game: &Game, bk_sq: u16, whites: &[u16]) -> (b: bool)
    requires
        unpacked_ok(*game, bk_sq, whites@),
    ensures
        b == in_check_spec(*game, bk_sq, whites@),
{
    let region = &game.region;
    let layout = &game.layout;
    let cap = game.captured_code();
    let bk_c = region.coord_of(bk_sq);
    proof {
        assert(in_box(bk_c));
        assert(codes_ok(whites@, region@.len(), cap)) by {
            assert forall|q: int| 0 <= q < whites@.len() implies #[trigger] whites@[q] == cap || whites@[q] < region@.len() by {}
        }
    }
    let occ_white = build_white_occupancy(region, whites, cap);
    is_attacked_by_white(bk_c, region, layout, whites, cap, &occ_white)
}

/// True if this black-to-move state is checkmate in the finite-slice game: the black king is
/// in check and has no legal move, counting moves that leave the region.
pub fn is_checkmate_black_to_move(game: &Game, state: PackedState, scratch: &mut Scratch) -> (b: bool)
    requires
        state_ok(*game, state),
        old(scratch)@.len() == game.packer.n_white,
    ensures
        final(scratch)@.len() == game.packer.n_white,
        b == (in_check_spec(*game, game.packer.field_spec(state, 0), game.packer.whites_spec(state)) && forall|s: Succ|
            !black_moves(*game, game.packer.field_spec(state, 0), game.packer.whites_spec(state)).contains(s)),
{
    let bk_sq = game.packer.unpack(state, scratch.whites_mut());
    let whites = scratch.whites();
    proof {
        assert(unpacked_ok(*game, bk_sq, whites@)) by {
            assert forall|i: int| 0 <= i < whites@.len() implies #[trigger] whites@[i] <= game.packer.region_size by {
                assert(whites@[i] == game.packer.whites_spec(state)[i]);
            }
        }
    }
    let in_check = is_in_check(game, bk_sq, whites);
    if !in_check {
        return false;
    }
    let mvs = successors(game, Turn::Black, state, scratch);
    proof {
        if mvs@.len() > 0 {
            assert(mvs@.contains(mvs@[0]));
        } else {
            assert forall|s: Succ| !black_moves(*game, game.packer.field_spec(state, 0), game.packer.whites_spec(state)).contains(s) by {
                if black_moves(*game, game.packer.field_spec(state, 0), game.packer.whites_spec(state)).contains(s) {
                    assert(mvs@.contains(s));
                }
            }
        }
    }
    mvs.len() == 0
}

/// Whether Black has any legal move from this state.
pub fn black_has_any_legal_move(game: &Game, state: PackedState, scratch: &mut Scratch) -> (b: bool)
    requires
        state_ok(*game, state),
        old(scratch)@.len() == game.packer.n_white,
    ensures
        final(scratch)@.len() == game.packer.n_white,
        b == exists|s: Succ| black_moves(*game, game.packer.field_spec(state, 0), game.packer.whites_spec(state)).contains(s),
{
    let mvs = successors(game, Turn::Black, state, scratch);
    proof {
        if mvs@.len() > 0 {
            assert(mvs@.contains(mvs@[0]));
        }
        if exists|s: Succ| black_moves(*game, game.packer.field_spec(state, 0), game.packer.whites_spec(state)).contains(s) {
            let s = choose|s: Succ| black_moves(*game, game.packer.field_spec(state, 0), game.packer.whites_spec(state)).contains(s);
            assert(mvs@.contains(s));
        }
    }
    mvs.len() != 0
}

} // verus!
