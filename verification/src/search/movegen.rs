//! Move generation under the scenario laws, with edge accounting.

use vstd::prelude::*;

use crate::board::coord::Coord;
use crate::chess::rules::{attacked_spec, positions_match, coord_limit};
use crate::scenario::{legal_moves_black, LawsLike, ResourceCounts, Scenario, SearchError, State};
use crate::search::resources::{bump_outcome, sat_add, ResourceTracker};

verus! {

/// The counters after `n` more edges are counted.
pub open spec fn counts_with_edges(c: ResourceCounts, n: nat) -> ResourceCounts {
    ResourceCounts { edges: sat_add(c.edges, n as u64), ..c }
}

/// The error raised when `n` more edges exceed the edge budget of `t`, if they do.
pub open spec fn edge_failure(t: ResourceTracker, stage: &'static str, n: nat) -> Option<SearchError> {
    let c = counts_with_edges(t.counts_spec(), n);
    if c.edges > t.limits_spec().max_edges as u64 {
        Some(SearchError::LimitExceeded { stage, metric: "edges", limit: t.limits_spec().max_edges as u64, observed: c.edges, counts: c })
    } else {
        None
    }
}

/// `new_t` has counted `n` more edges than `old_t`, and `r` is the outcome of that count
/// with the moves `v` on success.
pub open spec fn edges_counted<T>(old_t: ResourceTracker, new_t: ResourceTracker, stage: &'static str, n: nat, r: Result<T, SearchError>, v: T) -> bool {
    &&& new_t.limits_spec() == old_t.limits_spec()
    &&& new_t.counts_spec() == counts_with_edges(old_t.counts_spec(), n)
    &&& match edge_failure(old_t, stage, n) {
        Some(e) => r == Err::<T, SearchError>(e),
        None => r == Ok::<T, SearchError>(v),
    }
}

/// A list of moves (or an error) with the list taken as a sequence.
pub open spec fn moves_view(r: Result<Vec<State>, SearchError>) -> Result<Seq<State>, SearchError> {
    match r {
        Ok(v) => Ok(v@),
        Err(e) => Err(e),
    }
}

/// The black king moves from `s` that the rules and `laws` allow, in step order; their
/// number is added to the edge counter, and the call fails when that exceeds `max_edges`.
pub fn legal_black_moves<D, L: LawsLike, P>(
    scn: &Scenario<D, L, P>,
    laws: &L,
    s: &State,
    tracker: &mut ResourceTracker,
) -> (r: Result<Vec<State>, SearchError>)
    requires
        scn.rules_ok(),
        scn.state_fits(*s),
    ensures
        edges_counted(*old(tracker), *final(tracker), "movegen_black", scn.legal_black_spec(*laws, *s).len(), moves_view(r), scn.legal_black_spec(*laws, *s)),
        r is Ok ==> forall|i: int| 0 <= i < r->Ok_0@.len() ==> scn.white_state_fits(#[trigger] r->Ok_0@[i]),
{
    let out = legal_moves_black(scn, laws, s);
    let b = tracker.bump_edges("movegen_black", out.len());
    match b {
        Ok(()) => Ok(out),
        Err(e) => Err(e),
    }
}

/// The white moves from `s` that the rules and `laws` allow, in generation order, with a
/// pass first when the scenario and the laws allow it; their number is added to the edge
/// counter, and the call fails when that exceeds `max_edges`.
pub fn legal_white_moves<D, L: LawsLike, P>(
    scn: &Scenario<D, L, P>,
    laws: &L,
    s: &State,
    tracker: &mut ResourceTracker,
) -> (r: Result<Vec<State>, SearchError>)
    requires
        scn.rules_ok(),
        scn.white_state_fits(*s),
    ensures
        edges_counted(*old(tracker), *final(tracker), "movegen_white", scn.legal_white_spec(*laws, *s).len(), moves_view(r), scn.legal_white_spec(*laws, *s)),
{
    let out = legal_moves_white(scn, laws, s);
    let b = tracker.bump_edges("movegen_white", out.len());
    match b {
        Ok(()) => Ok(out),
        Err(e) => Err(e),
    }
}

/// The white moves from `s` under `laws`, without any budget accounting.
pub fn legal_moves_white<D, L: LawsLike, P>(scn: &Scenario<D, L, P>, laws: &L, s: &State) -> (out: Vec<State>)
    requires
        scn.rules_ok(),
        scn.white_state_fits(*s),
    ensures
        out@ == scn.legal_white_spec(*laws, *s),
{
    let mut out: Vec<State> = Vec::new();
    if scn.white_can_pass && laws.allow_pass(s) {
        out.push(*s);
    }
    let ghost first = out@;
    let moves = scn.rules.white_moves(&s.pos, false);
    let ghost spec_moves = scn.rules.white_moves_spec(s.pos, false);
    let mut k: usize = 0;
    while k < moves.len()
        invariant
            k <= moves@.len(),
            positions_match(moves@, spec_moves, s.pos.len_spec()),
            spec_moves == scn.rules.white_moves_spec(s.pos, false),
            first == (if scn.white_can_pass && laws.allows_pass(*s) { seq![*s] } else { Seq::<State>::empty() }),
            out@ == first + scn.white_filter(*laws, *s, spec_moves.take(k as int)),
        decreases moves@.len() - k,
    {
        let pos2 = moves[k];
        let to = State { abs_king: s.abs_king, pos: pos2 };
        proof {
            crate::board::position::lemma_position_of(pos2);
            assert(spec_moves.take(k as int + 1).drop_last() =~= spec_moves.take(k as int));
            assert(spec_moves.take(k as int + 1).last() == spec_moves[k as int]);
            assert(to == scn.white_target(*s, spec_moves[k as int]));
        }
        if laws.allow_white_move(s, &to) && laws.allow_state(&to) {
            out.push(to);
            proof {
                assert(out@ =~= first + scn.white_filter(*laws, *s, spec_moves.take(k as int + 1)));
            }
        }
        k += 1;
    }
    proof {
        assert(spec_moves.take(moves@.len() as int) =~= spec_moves);
    }
    out
}

/// Black is in check and has no legal move under `laws`. The moves are generated (and
/// counted) only when Black is in check.
pub fn is_checkmate_with_laws<D, L: LawsLike, P>(
    scn: &Scenario<D, L, P>,
    laws: &L,
    s: &State,
    tracker: &mut ResourceTracker,
) -> (r: Result<bool, SearchError>)
    requires
        scn.rules_ok(),
        scn.state_fits(*s),
    ensures
        !attacked_spec(scn.rules.layout.kinds_spec(), s.pos@, Coord { x: 0, y: 0 }) ==> r == Ok::<bool, SearchError>(false)
            && *final(tracker) == *old(tracker),
        attacked_spec(scn.rules.layout.kinds_spec(), s.pos@, Coord { x: 0, y: 0 }) ==> edges_counted(*old(tracker), *final(tracker), "movegen_black", scn.legal_black_spec(*laws, *s).len(), r, scn.legal_black_spec(*laws, *s).len() == 0),
{
    if !scn.rules.is_attacked(Coord::origin(), &s.pos) {
        return Ok(false);
    }
    match legal_black_moves(scn, laws, s, tracker) {
        Ok(v) => Ok(v.len() == 0),
        Err(e) => Err(e),
    }
}

/// Black is not in check and has no legal move under `laws`. The moves are generated (and
/// counted) only when Black is not in check.
pub fn is_stalemate_with_laws<D, L: LawsLike, P>(
    scn: &Scenario<D, L, P>,
    laws: &L,
    s: &State,
    tracker: &mut ResourceTracker,
) -> (r: Result<bool, SearchError>)
    requires
        scn.rules_ok(),
        scn.state_fits(*s),
    ensures
        attacked_spec(scn.rules.layout.kinds_spec(), s.pos@, Coord { x: 0, y: 0 }) ==> r == Ok::<bool, SearchError>(false)
            && *final(tracker) == *old(tracker),
        !attacked_spec(scn.rules.layout.kinds_spec(), s.pos@, Coord { x: 0, y: 0 }) ==> edges_counted(*old(tracker), *final(tracker), "movegen_black", scn.legal_black_spec(*laws, *s).len(), r, scn.legal_black_spec(*laws, *s).len() == 0),
{
    if scn.rules.is_attacked(Coord::origin(), &s.pos) {
        return Ok(false);
    }
    match legal_black_moves(scn, laws, s, tracker) {
        Ok(v) => Ok(v.len() == 0),
        Err(e) => Err(e),
    }
}

} // verus!
