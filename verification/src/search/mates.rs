//! Mate enumeration.
//!
//! Positions are enumerated within an L∞ bound, but checkmate is always judged on the infinite
//! board: the edge of the enumerated region is never a wall for the black king.

use vstd::prelude::*;

use crate::board::coord::Coord;
use crate::board::position::{Position, MAX_PIECES};
use crate::chess::bounds::{enumerate_positions_in_bound, enumerated_ok};
use crate::chess::rules::{attacked_spec, coord_limit, Rules};

verus! {

/// `pos` is checkmate: Black is in check and has no legal king move.
pub open spec fn checkmate_spec(rules: Rules, pos: Position) -> bool {
    attacked_spec(rules.layout.kinds_spec(), pos@, Coord { x: 0, y: 0 }) && rules.black_moves_spec(pos).len() == 0
}

/// All checkmates among the canonical placements (without captures) whose pieces lie within
/// the L∞ bound, in enumeration order.
pub fn checkmates_in_bound(rules: &Rules, bound: i32) -> (out: Vec<Position>)
    requires
        rules.layout.kinds_spec().len() <= MAX_PIECES,
        bound < coord_limit(),
    ensures
        forall|i: int| 0 <= i < out@.len() ==> enumerated_ok(rules.layout, bound as int, false, #[trigger] out@[i])
            && checkmate_spec(*rules, out@[i]),
        forall|p: Position| #[trigger] enumerated_ok(rules.layout, bound as int, false, p) && checkmate_spec(*rules, p)
            ==> out@.contains(p),
        out@.no_duplicates(),
{
    let positions = enumerate_positions_in_bound(&rules.layout, bound, false);
    let mut out: Vec<Position> = Vec::new();
    let mut i: usize = 0;
    while i < positions.len()
        invariant
            i <= positions@.len(),
            rules.layout.kinds_spec().len() <= MAX_PIECES,
            bound < coord_limit(),
            forall|j: int| 0 <= j < positions@.len() ==> enumerated_ok(rules.layout, bound as int, false, #[trigger] positions@[j]),
            forall|j: int| 0 <= j < out@.len() ==> enumerated_ok(rules.layout, bound as int, false, #[trigger] out@[j])
                && checkmate_spec(*rules, out@[j]),
            forall|j: int| 0 <= j < i && checkmate_spec(*rules, #[trigger] positions@[j]) ==> out@.contains(positions@[j]),
            positions@.no_duplicates(),
            out@.no_duplicates(),
            forall|a: int| 0 <= a < out@.len() ==> exists|j: int| 0 <= j < i && positions@[j] == #[trigger] out@[a],
        decreases positions@.len() - i,
    {
        let ghost before = out@;
        let p = positions[i];
        proof {
            reveal(crate::chess::bounds::enumerated_in);
            assert(enumerated_ok(rules.layout, bound as int, false, p));
            assert forall|k: int| 0 <= k < p@.len() && crate::chess::rules::present(p@[k])
                implies crate::chess::rules::within(#[trigger] p@[k].coord_spec(), coord_limit() - 1) by {
                assert(crate::chess::bounds::slot_ok(rules.layout.kinds_spec()[k], p@[k], crate::chess::bounds::ball(bound as int), false));
            }
        }
        if rules.is_checkmate(&p) {
            proof {
                if before.contains(p) {
                    let a = choose|a: int| 0 <= a < before.len() && before[a] == p;
                    let j = choose|j: int| 0 <= j < i && positions@[j] == #[trigger] before[a];
                    assert(positions@[j] == positions@[i as int]);
                }
            }
            out.push(p);
            proof {
                assert(out@[before.len() as int] == p);
                assert forall|a: int, b: int| 0 <= a < out@.len() && 0 <= b < out@.len() && a != b implies out@[a] != out@[b] by {
                    if a < before.len() && b < before.len() {
                        assert(before[a] != before[b]);
                    } else if a < before.len() {
                        assert(before.contains(before[a]));
                    } else if b < before.len() {
                        assert(before.contains(before[b]));
                    }
                }
            }
        }
        proof {
            assert forall|a: int| 0 <= a < out@.len() implies exists|j: int| 0 <= j < i + 1 && positions@[j] == #[trigger] out@[a] by {
                if a < before.len() {
                    assert(out@[a] == before[a]);
                    let j = choose|j: int| 0 <= j < i && positions@[j] == #[trigger] before[a];
                } else {
                    assert(positions@[i as int] == out@[a]);
                }
            }
        }
        proof {
            assert forall|j: int| 0 <= j < i + 1 && checkmate_spec(*rules, #[trigger] positions@[j]) implies out@.contains(positions@[j]) by {
                if j < i {
                    let m = choose|m: int| 0 <= m < before.len() && before[m] == positions@[j];
                    assert(out@[m] == positions@[j]);
                }
            }
        }
        i += 1;
    }
    proof {
        assert forall|p: Position| #[trigger] enumerated_ok(rules.layout, bound as int, false, p) && checkmate_spec(*rules, p)
            implies out@.contains(p) by {
            let j = choose|j: int| 0 <= j < positions@.len() && positions@[j] == p;
            assert(checkmate_spec(*rules, positions@[j]));
        }
    }
    out
}

/// Number of checkmates among the canonical placements (without captures) whose pieces lie
/// within the L∞ bound.
pub fn count_checkmates_in_bound(rules: &Rules, bound: i32) -> (n: usize)
    requires
        rules.layout.kinds_spec().len() <= MAX_PIECES,
        bound < coord_limit(),
    ensures
        exists|v: Seq<Position>| {
            &&& v.len() == n
            &&& v.no_duplicates()
            &&& forall|i: int| 0 <= i < v.len() ==> enumerated_ok(rules.layout, bound as int, false, #[trigger] v[i])
                && checkmate_spec(*rules, v[i])
            &&& forall|p: Position| #[trigger] enumerated_ok(rules.layout, bound as int, false, p) && checkmate_spec(*rules, p)
                ==> v.contains(p)
        },
{
    let v = checkmates_in_bound(rules, bound);
    proof {
        assert(v@.len() == v.len());
    }
    v.len()
}

} // verus!
