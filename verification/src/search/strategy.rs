//! Strategy extraction.
//!
//! Searches compute sets (winning regions, traps). For demos and interactive play a concrete
//! choice is needed: what White does in each position. Preferences only break ties between
//! replies that all stay in the set.

use vstd::prelude::*;

use crate::scenario::{DomainLike, LawsLike, PreferencesLike, Scenario, SearchError, State};
use crate::search::buchi::{black_move_from, buchi_inputs_ok, check_inputs};
use crate::search::movegen::{legal_black_moves, legal_white_moves};
use crate::search::resources::{over_budget, ResourceTracker};
use crate::search::store::{StateMoves, StateSet};

verus! {

/// Every entry of `m` maps a white-to-move state to a legal reply in `t`.
pub open spec fn replies_stay<D, L: LawsLike, P>(scn: Scenario<D, L, P>, t: Set<State>, m: Map<State, State>) -> bool {
    forall|w: State| #[trigger] m.contains_key(w) ==> t.contains(m[w]) && scn.legal_white_spec(scn.laws, w).contains(m[w])
}

/// After every black move from `t` after which White can reply into `t`, `m` has an entry.
pub open spec fn covers_stays<D, L: LawsLike, P>(scn: Scenario<D, L, P>, t: Set<State>, m: Map<State, State>) -> bool {
    forall|b: State, i: int, j: int|
        #![trigger t.contains(b), scn.legal_white_spec(scn.laws, scn.legal_black_spec(scn.laws, b)[i])[j]]
        t.contains(b) && 0 <= i < scn.legal_black_spec(scn.laws, b).len()
            && 0 <= j < scn.legal_white_spec(scn.laws, scn.legal_black_spec(scn.laws, b)[i]).len()
            && t.contains(scn.legal_white_spec(scn.laws, scn.legal_black_spec(scn.laws, b)[i])[j])
            ==> m.contains_key(scn.legal_black_spec(scn.laws, b)[i])
}

/// Extract a memoryless "stay in the trap" strategy for White: for each state after a black
/// move from `btm_trap`, a legal reply that stays in `btm_trap`, when there is one. Among
/// several staying replies, the first one in the order of the scenario's preferences is taken
/// (the first staying reply when the preferences name none).
pub fn extract_white_stay_strategy<D: DomainLike, L: LawsLike, P: PreferencesLike>(
    scn: &Scenario<D, L, P>,
    btm_trap: &StateSet,
) -> (r: Result<StateMoves, SearchError>)
    ensures
        r is Ok ==> replies_stay(*scn, btm_trap.view_set(), r->Ok_0.view_map()),
        r is Ok ==> covers_stays(*scn, btm_trap.view_set(), r->Ok_0.view_map()),
        r is Ok ==> forall|w: State| #[trigger] r->Ok_0.view_map().contains_key(w) ==> black_move_from(*scn, btm_trap.view_set(), w),
        !buchi_inputs_ok(*scn, btm_trap.view_set()) ==> r is Err && r->Err_0 is InvalidScenario,
        r is Err ==> over_budget(scn.limits, r->Err_0)
            || (r->Err_0 is InvalidScenario && !buchi_inputs_ok(*scn, btm_trap.view_set())),
{
    let states = check_inputs(scn, btm_trap)?;
    let mut tracker = ResourceTracker::new(scn.limits);
    let mut out = StateMoves::new();
    let ghost t = btm_trap.view_set();
    let mut bi: usize = 0;
    while bi < states.len()
        invariant
            bi <= states@.len(),
            scn.rules_ok(),
            tracker.limits_spec() == scn.limits,
            buchi_inputs_ok(*scn, btm_trap.view_set()),
            states@.to_set() == t,
            t == btm_trap.view_set(),
            forall|i: int| 0 <= i < states@.len() ==> scn.state_fits(#[trigger] states@[i]),
            replies_stay(*scn, t, out.view_map()),
            forall|w: State| #[trigger] out.view_map().contains_key(w) ==> black_move_from(*scn, t, w),
            forall|b2: int, i: int, j: int|
                #![trigger states@[b2], scn.legal_white_spec(scn.laws, scn.legal_black_spec(scn.laws, states@[b2])[i])[j]]
                0 <= b2 < bi && 0 <= i < scn.legal_black_spec(scn.laws, states@[b2]).len()
                    && 0 <= j < scn.legal_white_spec(scn.laws, scn.legal_black_spec(scn.laws, states@[b2])[i]).len()
                    && t.contains(scn.legal_white_spec(scn.laws, scn.legal_black_spec(scn.laws, states@[b2])[i])[j])
                    ==> out.view_map().contains_key(scn.legal_black_spec(scn.laws, states@[b2])[i]),
        decreases states@.len() - bi,
    {
        tracker.bump_steps("strategy_extract", 1)?;
        let b = states[bi];
        let moves = legal_black_moves(scn, &scn.laws, &b, &mut tracker)?;
        let mut m: usize = 0;
        while m < moves.len()
            invariant
                m <= moves@.len(),
                scn.rules_ok(),
                tracker.limits_spec() == scn.limits,
                buchi_inputs_ok(*scn, btm_trap.view_set()),
                moves@ == scn.legal_black_spec(scn.laws, b),
                forall|i: int| 0 <= i < moves@.len() ==> scn.white_state_fits(#[trigger] moves@[i]),
                t == btm_trap.view_set(),
                replies_stay(*scn, t, out.view_map()),
                forall|w2: State| #[trigger] out.view_map().contains_key(w2) ==> black_move_from(*scn, t, w2),
                states@.to_set() == t,
                bi < states@.len(),
                b == states@[bi as int],
                forall|i: int, j: int|
                    #![trigger scn.legal_white_spec(scn.laws, moves@[i])[j]]
                    0 <= i < m && 0 <= j < scn.legal_white_spec(scn.laws, moves@[i]).len()
                        && t.contains(scn.legal_white_spec(scn.laws, moves@[i])[j])
                        ==> out.view_map().contains_key(moves@[i]),
                forall|b2: int, i: int, j: int|
                    #![trigger states@[b2], scn.legal_white_spec(scn.laws, scn.legal_black_spec(scn.laws, states@[b2])[i])[j]]
                    0 <= b2 < bi && 0 <= i < scn.legal_black_spec(scn.laws, states@[b2]).len()
                        && 0 <= j < scn.legal_white_spec(scn.laws, scn.legal_black_spec(scn.laws, states@[b2])[i]).len()
                        && t.contains(scn.legal_white_spec(scn.laws, scn.legal_black_spec(scn.laws, states@[b2])[i])[j])
                        ==> out.view_map().contains_key(scn.legal_black_spec(scn.laws, states@[b2])[i]),
            decreases moves@.len() - m,
        {
            let w = moves[m];
            if !out.contains_key(&w) {
                let replies = legal_white_moves(scn, &scn.laws, &w, &mut tracker)?;
                let mut stay: Vec<State> = Vec::new();
                let mut j: usize = 0;
                while j < replies.len()
                    invariant
                        j <= replies@.len(),
                        replies@ == scn.legal_white_spec(scn.laws, w),
                        t == btm_trap.view_set(),
                        forall|a: int| 0 <= a < stay@.len() ==> t.contains(#[trigger] stay@[a]) && replies@.contains(stay@[a]),
                        forall|j2: int| 0 <= j2 < j && t.contains(#[trigger] replies@[j2]) ==> stay@.len() > 0,
                    decreases replies@.len() - j,
                {
                    if btm_trap.contains(&replies[j]) {
                        stay.push(replies[j]);
                        proof {
                            assert(replies@.contains(replies@[j as int]));
                        }
                    }
                    j += 1;
                }
                if stay.len() > 0 {
                    let ranking = scn.preferences.rank_white_moves(&w, stay.as_slice());
                    let mut choice = stay[0];
                    let mut k: usize = 0;
                    while k < ranking.len()
                        invariant
                            k <= ranking@.len(),
                            stay@.len() > 0,
                            t.contains(choice) && scn.legal_white_spec(scn.laws, w).contains(choice),
                            forall|a: int| 0 <= a < stay@.len() ==> t.contains(#[trigger] stay@[a]) && replies@.contains(stay@[a]),
                            replies@ == scn.legal_white_spec(scn.laws, w),
                        decreases ranking@.len() - k,
                    {
                        let idx = ranking[k];
                        if idx < stay.len() {
                            choice = stay[idx];
                            break;
                        }
                        k += 1;
                    }
                    let ghost before = out.view_map();
                    out.insert(w, choice);
                    proof {
                        assert(states@.to_set().contains(states@[bi as int]));
                        assert(scn.legal_black_spec(scn.laws, b)[m as int] == w);
                        assert forall|ww: State| #[trigger] out.view_map().contains_key(ww) implies black_move_from(*scn, t, ww) by {
                            if ww != w {
                                assert(before.contains_key(ww));
                            }
                        }
                        assert forall|ww: State| #[trigger] out.view_map().contains_key(ww) implies t.contains(out.view_map()[ww])
                            && scn.legal_white_spec(scn.laws, ww).contains(out.view_map()[ww]) by {
                            if ww != w {
                                assert(before.contains_key(ww));
                            }
                        }
                    }
                }
            }
            m += 1;
        }
        bi += 1;
    }
    proof {
        assert forall|b: State, i: int, j: int|
            #![trigger t.contains(b), scn.legal_white_spec(scn.laws, scn.legal_black_spec(scn.laws, b)[i])[j]]
            t.contains(b) && 0 <= i < scn.legal_black_spec(scn.laws, b).len()
                && 0 <= j < scn.legal_white_spec(scn.laws, scn.legal_black_spec(scn.laws, b)[i]).len()
                && t.contains(scn.legal_white_spec(scn.laws, scn.legal_black_spec(scn.laws, b)[i])[j])
                implies out.view_map().contains_key(scn.legal_black_spec(scn.laws, b)[i]) by {
            assert(states@.to_set().contains(b));
            let b2 = choose|b2: int| 0 <= b2 < states@.len() && states@[b2] == b;
        }
    }
    Ok(out)
}

} // verus!
