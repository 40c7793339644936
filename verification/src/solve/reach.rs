//! Forced reachability for White, and checkmate targets.
use vstd::prelude::*;

use crate::arena::Arena;
use crate::pieces::Turn;
use crate::rules::checkmate::{in_check_spec, is_in_check};
use crate::rules::movegen::{state_ok, unpacked_ok, Scratch};
use crate::solve::buchi::{attractor, is_attr};

verus! {

/// `n` copies of `true`.
pub open spec fn all_true(n: nat) -> Seq<bool> {
    Seq::new(n, |i: int| true)
}

/// The nodes from which White can force reaching `target`: the least set containing the
/// targets, every white node with a successor in it, and every black node with successors,
/// all of them in it.
pub fn reachability_white(arena: &Arena, target: &[bool]) -> (r: Vec<bool>)
    requires
        arena.wf(),
        target@.len() == arena.nodes@.len(),
    ensures
        is_attr(*arena, all_true(arena.nodes@.len()), target@, Turn::White, r@),
{
    let n = arena.nodes.len();
    let mut w: Vec<bool> = Vec::new();
    let mut i: usize = 0;
    while i < n
        invariant
            i <= n,
            w@.len() == i,
            forall|j: int| 0 <= j < i ==> #[trigger] w@[j],
        decreases n - i,
    {
        w.push(true);
        i += 1;
    }
    assert(w@ =~= all_true(n as nat));
    let t = vstd::slice::slice_to_vec(target);
    attractor(arena, &w, &t, Turn::White)
}

/// Every node but a sink has a valid state of the arena's game.
pub open spec fn states_ok(a: Arena) -> bool {
    &&& a.game.wf()
    &&& forall|id: int|
        0 <= id < a.nodes@.len() && id != a.sink_black && id != a.sink_white ==> match #[trigger] a.nodes@[id].state {
            Some(st) => state_ok(a.game, st),
            None => false,
        }
}

/// Node `id` is a checkmate: black to move, not a sink, no legal move, and in check.
pub open spec fn is_mate_node(a: Arena, id: int) -> bool {
    &&& a.nodes@[id].turn == Turn::Black
    &&& id != a.sink_black && id != a.sink_white
    &&& a.nodes@[id].succ@.len() == 0
    &&& match a.nodes@[id].state {
        Some(st) => in_check_spec(a.game, a.game.packer.field_spec(st, 0), a.game.packer.whites_spec(st)),
        None => false,
    }
}

/// The checkmates of the arena: black-to-move nodes in check with no legal moves.
pub fn checkmate_targets(arena: &Arena) -> (r: Vec<bool>)
    requires
        arena.wf(),
        states_ok(*arena),
    ensures
        r@.len() == arena.nodes@.len(),
        forall|id: int| 0 <= id < r@.len() ==> #[trigger] r@[id] == is_mate_node(*arena, id),
{
    let n = arena.nodes.len();
    let game = &arena.game;
    let mut scratch = Scratch::new(game.layout.total_white());
    let mut target: Vec<bool> = Vec::new();
    let mut id: usize = 0;
    while id < n
        invariant
            arena.wf(),
            states_ok(*arena),
            game == &arena.game,
            n == arena.nodes@.len(),
            id <= n,
            scratch@.len() == game.packer.n_white,
            target@.len() == id,
            forall|j: int| 0 <= j < id ==> #[trigger] target@[j] == is_mate_node(*arena, j),
        decreases n - id,
    {
        let mut mate = false;
        if arena.nodes[id].turn == Turn::Black && !arena.is_sink(id) && arena.nodes[id].succ.len() == 0 {
            let st = match arena.nodes[id].state {
                Some(x) => x,
                None => {
                    proof {
                        assert(false);
                    }
                    0
                },
            };
            let bk_sq = game.packer.unpack(st, scratch.whites_mut());
            let whites = scratch.whites();
            proof {
                assert(state_ok(*game, st));
                assert(unpacked_ok(*game, bk_sq, whites@)) by {
                    assert forall|i: int| 0 <= i < whites@.len() implies #[trigger] whites@[i] <= game.packer.region_size by {
                        assert(whites@[i] == game.packer.whites_spec(st)[i]);
                    }
                }
            }
            mate = is_in_check(game, bk_sq, whites);
        }
        target.push(mate);
        id += 1;
    }
    target
}

} // verus!
