//! Forced mate inside a bounded universe.
//!
//! The universe is a finite set of states (for `CandidateGeneration::InAbsBox`, the legal
//! states of the absolute box that the laws and the domain allow). White wins from a
//! black-to-move state when it can force, in finitely many moves, a black-to-move checkmate:
//! - a black-to-move state is winning when Black is checkmated there, or when Black has a
//!   move, every black move stays in the universe and leads to a winning white-to-move state;
//! - a white-to-move state is winning when White has a move into the universe that leads to
//!   a winning black-to-move state.
//! A black move that leaves the universe is an escape, so its origin is never winning; white
//! moves that leave the universe are ignored.

use vstd::prelude::*;

use crate::board::coord::Coord;
use crate::chess::rules::{attacked_spec, legal_spec};
use crate::scenario::{invalid, CandidateGeneration, DomainLike, LawsLike, Scenario, SearchError, State};
use crate::search::buchi::{
    attractor_core, filled, index_states, indexes, is_attractor, no_seeds, region_set, sorted_insert,
    strictly_increasing, succ_in_range, white_edges_ok, some_succ_in, all_succ_in, attr_closed,
};
use crate::search::movegen::{legal_black_moves, legal_white_moves};
use crate::search::resources::{over_budget, ResourceTracker};
use crate::search::store::{StateDepths, StateIndex, StateSet};
use crate::search::trap::passes_static_filters;
use crate::search::universe::{abs_box_ok, max_box_bound, states_in_abs_box};

verus! {

/// The result of [`forced_mate_bounded`].
pub struct ForcedMateResult {
    /// The black-to-move states from which White forces mate.
    pub winning_btm: StateSet,
    /// When requested, the distance to mate (in plies) of each winning black-to-move state.
    pub dtm: Option<StateDepths>,
}

impl<D, L: LawsLike, P> Scenario<D, L, P> {
    /// Black, to move in `s`, is in check.
    pub open spec fn black_in_check(&self, s: State) -> bool {
        attacked_spec(self.rules.layout.kinds_spec(), s.pos@, Coord { x: 0, y: 0 })
    }

    /// Black, to move in `s`, is checkmated: in check and without a legal move.
    pub open spec fn black_mated(&self, s: State) -> bool {
        self.black_in_check(s) && self.legal_black_spec(self.laws, s).len() == 0
    }

    /// White wins from the black-to-move state `b` in one step of the game on `u`, given the
    /// winning white-to-move states `ww`: Black is mated, or Black has a move and every black
    /// move stays in `u` and lands in `ww`.
    pub open spec fn black_forced(&self, u: Set<State>, ww: Set<State>, b: State) -> bool {
        let m = self.legal_black_spec(self.laws, b);
        ||| self.black_mated(b)
        ||| m.len() > 0 && forall|i: int| 0 <= i < m.len() ==> u.contains(#[trigger] m[i]) && ww.contains(m[i])
    }

    /// White wins from the white-to-move state `w` in one step of the game on `u`, given the
    /// winning black-to-move states `wb`: some white move lands in `u ∩ wb`.
    pub open spec fn white_forced(&self, u: Set<State>, wb: Set<State>, w: State) -> bool {
        let m = self.legal_white_spec(self.laws, w);
        exists|j: int| 0 <= j < m.len() && u.contains(#[trigger] m[j]) && wb.contains(m[j])
    }

    /// `(wb, ww)` is closed under the winning rules of the game on `u`.
    pub open spec fn mate_closed(&self, u: Set<State>, wb: Set<State>, ww: Set<State>) -> bool {
        &&& forall|b: State| u.contains(b) && #[trigger] self.black_forced(u, ww, b) ==> wb.contains(b)
        &&& forall|w: State| u.contains(w) && #[trigger] self.white_forced(u, wb, w) ==> ww.contains(w)
    }

    /// `(wb, ww)` are the winning black-to-move and white-to-move states of the forced-mate
    /// game on `u`: the least sets inside `u` closed under the winning rules.
    pub open spec fn mate_region(&self, u: Set<State>, wb: Set<State>, ww: Set<State>) -> bool {
        &&& wb.subset_of(u)
        &&& ww.subset_of(u)
        &&& self.mate_closed(u, wb, ww)
        &&& forall|sb: Set<State>, sw: Set<State>| #[trigger] self.mate_closed(u, sb, sw) ==> wb.subset_of(sb) && ww.subset_of(sw)
    }

    /// `wb` is the set of black-to-move states from which White forces mate in the game on `u`.
    pub open spec fn forced_mate_region(&self, u: Set<State>, wb: Set<State>) -> bool {
        exists|ww: Set<State>| #[trigger] self.mate_region(u, wb, ww)
    }
}

impl<D: DomainLike, L: LawsLike, P> Scenario<D, L, P> {
    /// `s` may belong to the universe of the absolute box `[-bound, bound]²`: a canonical box
    /// state that fits the machine limits, is legal, and that the laws and the domain allow.
    pub open spec fn mate_universe_member(&self, bound: int, allow_captures: bool, s: State) -> bool {
        &&& abs_box_ok(self.rules.layout, bound, allow_captures, s)
        &&& self.state_fits(s)
        &&& legal_spec(self.rules.layout.king_index_spec(), s.pos@)
        &&& self.laws.allows_state(s)
        &&& self.domain.inside_spec(s)
    }
}

impl<D, L: LawsLike, P> Scenario<D, L, P> {
    /// `d` (on the winning black-to-move states `wb`) and `dw` (on white-to-move states) are
    /// distances to mate in plies: a mate is at 0; any other winning black-to-move state is one
    /// more than the largest distance after a black move; a white-to-move state is one more
    /// than the smallest distance of a winning state of `u` that White can move to.
    pub open spec fn dtm_equations(&self, u: Set<State>, wb: Set<State>, d: Map<State, u32>, dw: Map<State, int>) -> bool {
        &&& forall|b: State| #[trigger] wb.contains(b) ==> if self.black_mated(b) {
            d[b] == 0
        } else {
            &&& forall|i: int| 0 <= i < self.legal_black_spec(self.laws, b).len() ==>
                dw.contains_key(#[trigger] self.legal_black_spec(self.laws, b)[i])
                    && dw[self.legal_black_spec(self.laws, b)[i]] < d[b]
            &&& exists|i: int| 0 <= i < self.legal_black_spec(self.laws, b).len()
                && dw[#[trigger] self.legal_black_spec(self.laws, b)[i]] + 1 == d[b]
        }
        &&& forall|w: State| #[trigger] dw.contains_key(w) ==> {
            &&& forall|j: int| 0 <= j < self.legal_white_spec(self.laws, w).len()
                && u.contains(#[trigger] self.legal_white_spec(self.laws, w)[j])
                && wb.contains(self.legal_white_spec(self.laws, w)[j])
                ==> dw[w] <= d[self.legal_white_spec(self.laws, w)[j]] + 1
            &&& exists|j: int| 0 <= j < self.legal_white_spec(self.laws, w).len()
                && u.contains(#[trigger] self.legal_white_spec(self.laws, w)[j])
                && wb.contains(self.legal_white_spec(self.laws, w)[j])
                && dw[w] == d[self.legal_white_spec(self.laws, w)[j]] + 1
        }
    }

    /// `d` gives every winning black-to-move state of `wb` (and nothing else) its distance to
    /// mate in the game on `u`.
    pub open spec fn dtm_ok(&self, u: Set<State>, wb: Set<State>, d: Map<State, u32>) -> bool {
        &&& d.dom() == wb
        &&& exists|dw: Map<State, int>| #[trigger] self.dtm_equations(u, wb, d, dw)
    }
}

/// The value standing for "no distance known".
pub open spec fn unknown_dtm() -> int {
    u32::MAX as int
}

/// One more than `x`, keeping the unknown value.
pub open spec fn step_up(x: int) -> int {
    if x == unknown_dtm() {
        unknown_dtm()
    } else {
        x + 1
    }
}

/// The smallest `db` among the successors in `succ` flagged in `win` (unknown when none).
pub open spec fn wmin(succ: Seq<usize>, win: Seq<bool>, db: Seq<u32>) -> int
    decreases succ.len(),
{
    if succ.len() == 0 {
        unknown_dtm()
    } else {
        let r = wmin(succ.drop_last(), win, db);
        let y = succ.last() as int;
        if win[y] && (db[y] as int) < r {
            db[y] as int
        } else {
            r
        }
    }
}

/// The largest `dw` among the successors in `succ` (unknown as soon as one is unknown; 0 when
/// there is none).
pub open spec fn bmax(succ: Seq<usize>, dw: Seq<u32>) -> int
    decreases succ.len(),
{
    if succ.len() == 0 {
        0
    } else {
        let r = bmax(succ.drop_last(), dw);
        let v = dw[succ.last() as int] as int;
        if v == unknown_dtm() || r == unknown_dtm() {
            unknown_dtm()
        } else if v > r {
            v
        } else {
            r
        }
    }
}

/// Sum of the entries of `s`.
pub open spec fn seq_sum(s: Seq<u32>) -> nat
    decreases s.len(),
{
    if s.len() == 0 {
        0
    } else {
        seq_sum(s.drop_last()) + s.last() as nat
    }
}

/// Replacing one entry changes the sum by the difference.
proof fn lemma_sum_update(s: Seq<u32>, i: int, v: u32)
    requires
        0 <= i < s.len(),
    ensures
        seq_sum(s.update(i, v)) + s[i] == seq_sum(s) + v,
    decreases s.len(),
{
    let t = s.update(i, v);
    if i == s.len() - 1 {
        assert(t.drop_last() =~= s.drop_last());
    } else {
        assert(t.drop_last() =~= s.drop_last().update(i, v));
        lemma_sum_update(s.drop_last(), i, v);
    }
}

/// What [`wmin`] is.
proof fn lemma_wmin(succ: Seq<usize>, win: Seq<bool>, db: Seq<u32>)
    ensures
        0 <= wmin(succ, win, db) <= unknown_dtm(),
        forall|k: int| 0 <= k < succ.len() && win[#[trigger] succ[k] as int] ==> wmin(succ, win, db) <= db[succ[k] as int],
        wmin(succ, win, db) < unknown_dtm() ==> exists|k: int| 0 <= k < succ.len() && win[#[trigger] succ[k] as int]
            && db[succ[k] as int] == wmin(succ, win, db),
    decreases succ.len(),
{
    if succ.len() > 0 {
        let p = succ.drop_last();
        lemma_wmin(p, win, db);
        assert forall|k: int| 0 <= k < succ.len() && win[#[trigger] succ[k] as int] implies wmin(succ, win, db) <= db[succ[k] as int] by {
            if k < succ.len() - 1 {
                assert(p[k] == succ[k]);
            }
        }
        if wmin(succ, win, db) < unknown_dtm() && wmin(succ, win, db) == wmin(p, win, db) {
            let k = choose|k: int| 0 <= k < p.len() && win[#[trigger] p[k] as int] && db[p[k] as int] == wmin(p, win, db);
            assert(succ[k] == p[k]);
        }
        if wmin(succ, win, db) != wmin(p, win, db) {
            assert(succ[succ.len() - 1] == succ.last());
        }
    }
}

/// What [`bmax`] is.
proof fn lemma_bmax(succ: Seq<usize>, dw: Seq<u32>)
    ensures
        0 <= bmax(succ, dw) <= unknown_dtm(),
        bmax(succ, dw) < unknown_dtm() ==> forall|k: int| 0 <= k < succ.len() ==> dw[#[trigger] succ[k] as int] <= bmax(succ, dw),
        bmax(succ, dw) < unknown_dtm() && succ.len() > 0 ==> exists|k: int| 0 <= k < succ.len() && dw[#[trigger] succ[k] as int] == bmax(succ, dw),
        bmax(succ, dw) == unknown_dtm() ==> exists|k: int| 0 <= k < succ.len() && dw[#[trigger] succ[k] as int] == unknown_dtm(),
    decreases succ.len(),
{
    if succ.len() > 0 {
        let p = succ.drop_last();
        lemma_bmax(p, dw);
        let last = succ.len() - 1;
        assert(succ[last] == succ.last());
        assert forall|k: int| 0 <= k < p.len() implies #[trigger] p[k] == succ[k] by {}
        if bmax(succ, dw) < unknown_dtm() {
            assert forall|k: int| 0 <= k < succ.len() implies dw[#[trigger] succ[k] as int] <= bmax(succ, dw) by {
                if k < last {
                    assert(p[k] == succ[k]);
                }
            }
            if p.len() > 0 && bmax(succ, dw) == bmax(p, dw) {
                let k = choose|k: int| 0 <= k < p.len() && dw[#[trigger] p[k] as int] == bmax(p, dw);
                assert(p[k] == succ[k]);
            }
            if p.len() == 0 {
                assert(bmax(p, dw) == 0);
            }
        } else {
            if bmax(p, dw) == unknown_dtm() {
                let k = choose|k: int| 0 <= k < p.len() && dw[#[trigger] p[k] as int] == unknown_dtm();
                assert(p[k] == succ[k]);
            }
        }
    }
}

/// Once a prefix has an unknown value, so has the whole sequence.
proof fn lemma_bmax_prefix(succ: Seq<usize>, dw: Seq<u32>, k: int)
    requires
        0 <= k <= succ.len(),
        bmax(succ.take(k), dw) == unknown_dtm(),
    ensures
        bmax(succ, dw) == unknown_dtm(),
    decreases succ.len() - k,
{
    if k < succ.len() {
        assert(succ.take(k + 1).drop_last() =~= succ.take(k));
        lemma_bmax_prefix(succ, dw, k + 1);
    } else {
        assert(succ.take(k) =~= succ);
    }
}

/// [`wmin`] grows with the distances.
proof fn lemma_wmin_mono(succ: Seq<usize>, win: Seq<bool>, d1: Seq<u32>, d2: Seq<u32>)
    requires
        forall|k: int| 0 <= k < succ.len() ==> (d1[#[trigger] succ[k] as int] as int) <= (d2[succ[k] as int] as int),
    ensures
        wmin(succ, win, d1) <= wmin(succ, win, d2),
{
    lemma_wmin(succ, win, d1);
    lemma_wmin(succ, win, d2);
    if wmin(succ, win, d2) < unknown_dtm() {
        let k = choose|k: int| 0 <= k < succ.len() && win[#[trigger] succ[k] as int] && d2[succ[k] as int] == wmin(succ, win, d2);
        assert(wmin(succ, win, d1) <= d1[succ[k] as int]);
    }
}

/// [`bmax`] grows with the distances.
proof fn lemma_bmax_mono(succ: Seq<usize>, d1: Seq<u32>, d2: Seq<u32>)
    requires
        forall|k: int| 0 <= k < succ.len() ==> (d1[#[trigger] succ[k] as int] as int) <= (d2[succ[k] as int] as int),
    ensures
        bmax(succ, d1) <= bmax(succ, d2),
{
    lemma_bmax(succ, d1);
    lemma_bmax(succ, d2);
    if bmax(succ, d2) < unknown_dtm() {
        if bmax(succ, d1) == unknown_dtm() {
            let k = choose|k: int| 0 <= k < succ.len() && d1[#[trigger] succ[k] as int] == unknown_dtm();
            assert(d2[succ[k] as int] <= bmax(succ, d2));
        } else if succ.len() > 0 {
            let k = choose|k: int| 0 <= k < succ.len() && d1[#[trigger] succ[k] as int] == bmax(succ, d1);
            assert(d2[succ[k] as int] <= bmax(succ, d2));
        }
    }
}

/// The winning region of the game on `u` is closed in both directions: every winning state is
/// winning by one of the rules, with its successors among the winning states.
pub proof fn lemma_mate_region_supported<D, L: LawsLike, P>(scn: Scenario<D, L, P>, u: Set<State>, wb: Set<State>, ww: Set<State>)
    requires
        scn.mate_region(u, wb, ww),
    ensures
        forall|b: State| #[trigger] wb.contains(b) ==> scn.black_forced(u, ww, b),
        forall|w: State| #[trigger] ww.contains(w) ==> scn.white_forced(u, wb, w),
{
    assert forall|b: State| #[trigger] wb.contains(b) implies scn.black_forced(u, ww, b) by {
        if !scn.black_forced(u, ww, b) {
            let sb = wb.remove(b);
            assert forall|w: State| u.contains(w) && #[trigger] scn.white_forced(u, sb, w) implies ww.contains(w) by {
                let m = scn.legal_white_spec(scn.laws, w);
                let j = choose|j: int| 0 <= j < m.len() && u.contains(#[trigger] m[j]) && sb.contains(m[j]);
                assert(scn.white_forced(u, wb, w));
            }
            assert(scn.mate_closed(u, sb, ww));
            assert(wb.subset_of(sb));
            assert(sb.contains(b));
        }
    }
    assert forall|w: State| #[trigger] ww.contains(w) implies scn.white_forced(u, wb, w) by {
        if !scn.white_forced(u, wb, w) {
            let sw = ww.remove(w);
            assert forall|b: State| u.contains(b) && #[trigger] scn.black_forced(u, sw, b) implies wb.contains(b) by {
                let m = scn.legal_black_spec(scn.laws, b);
                if !scn.black_mated(b) {
                    assert forall|i: int| 0 <= i < m.len() implies u.contains(#[trigger] m[i]) && ww.contains(m[i]) by {
                        assert(sw.contains(m[i]));
                    }
                }
                assert(scn.black_forced(u, ww, b));
            }
            assert(scn.mate_closed(u, wb, sw));
            assert(ww.subset_of(sw));
            assert(sw.contains(w));
        }
    }
}

/// The in-universe successors `succ` (indices into `pl`, whose index is `idx`) of the
/// black-to-move state `b`, and whether Black has a move leaving the universe.
pub open spec fn black_succ_ok<D, L: LawsLike, P>(
    scn: Scenario<D, L, P>,
    b: State,
    succ: Seq<usize>,
    escape: bool,
    pl: Seq<State>,
    idx: Map<State, usize>,
) -> bool {
    let m = scn.legal_black_spec(scn.laws, b);
    &&& strictly_increasing(succ)
    &&& forall|y: usize| #[trigger] succ.contains(y) ==> y < pl.len() && m.contains(pl[y as int])
    &&& forall|k: int| 0 <= k < m.len() && idx.contains_key(#[trigger] m[k]) ==> succ.contains(idx[m[k]])
    &&& escape == exists|k: int| 0 <= k < m.len() && !idx.contains_key(#[trigger] m[k])
}

/// The move graph of the universe `pl`: black successors with escape flags, and white
/// successors.
pub open spec fn mate_graph_ok<D, L: LawsLike, P>(
    scn: Scenario<D, L, P>,
    pl: Seq<State>,
    idx: Map<State, usize>,
    bw: Seq<Vec<usize>>,
    esc: Seq<bool>,
    wb: Seq<Vec<usize>>,
) -> bool {
    &&& pl.no_duplicates()
    &&& indexes(idx, pl)
    &&& bw.len() == pl.len()
    &&& esc.len() == pl.len()
    &&& wb.len() == pl.len()
    &&& forall|i: int| 0 <= i < pl.len() ==> #[trigger] black_succ_ok(scn, pl[i], bw[i]@, esc[i], pl, idx)
    &&& forall|i: int| 0 <= i < pl.len() ==> #[trigger] white_edges_ok(scn, pl[i], wb[i]@, pl, idx)
}

/// Every node is a white node of the game.
pub open spec fn all_nodes(n: nat) -> Seq<bool> {
    Seq::new(n, |i: int| true)
}

/// The black nodes without an escape.
pub open spec fn no_escape(esc: Seq<bool>) -> Seq<bool> {
    Seq::new(esc.len(), |i: int| !esc[i])
}

/// The black nodes where Black is mated: in check, without an escape and without a move in
/// the universe.
pub open spec fn mate_seeds<D, L: LawsLike, P>(scn: Scenario<D, L, P>, pl: Seq<State>, bw: Seq<Vec<usize>>, esc: Seq<bool>) -> Seq<bool> {
    Seq::new(pl.len(), |i: int| !esc[i] && bw[i]@.len() == 0 && scn.black_in_check(pl[i]))
}

/// A black node has no legal move exactly when it has neither a successor nor an escape.
proof fn lemma_no_moves<D, L: LawsLike, P>(scn: Scenario<D, L, P>, b: State, succ: Seq<usize>, escape: bool, pl: Seq<State>, idx: Map<State, usize>)
    requires
        black_succ_ok(scn, b, succ, escape, pl, idx),
    ensures
        (scn.legal_black_spec(scn.laws, b).len() == 0) == (!escape && succ.len() == 0),
{
    let m = scn.legal_black_spec(scn.laws, b);
    if m.len() > 0 {
        if idx.contains_key(m[0]) {
            assert(succ.contains(idx[m[0]]));
        }
    } else {
        if succ.len() > 0 {
            assert(succ.contains(succ[0]));
        }
    }
}

/// The index of a state of the universe.
proof fn lemma_index_of(pl: Seq<State>, idx: Map<State, usize>, s: State) -> (i: int)
    requires
        indexes(idx, pl),
        pl.to_set().contains(s),
    ensures
        0 <= i < pl.len(),
        pl[i] == s,
        idx.contains_key(s),
        idx[s] == i,
{
    let i = choose|i: int| 0 <= i < pl.len() && pl[i] == s;
    assert(idx.contains_key(pl[i]));
    i
}

/// The region given by the attractor is closed under the winning rules.
proof fn lemma_attractor_closed<D, L: LawsLike, P>(
    scn: Scenario<D, L, P>,
    pl: Seq<State>,
    idx: Map<State, usize>,
    bw: Seq<Vec<usize>>,
    esc: Seq<bool>,
    wbs: Seq<Vec<usize>>,
    a_w: Seq<bool>,
    a_b: Seq<bool>,
)
    requires
        mate_graph_ok(scn, pl, idx, bw, esc, wbs),
        is_attractor(all_nodes(pl.len()), no_escape(esc), wbs, bw, no_seeds(pl.len()), mate_seeds(scn, pl, bw, esc), a_w, a_b),
    ensures
        scn.mate_closed(pl.to_set(), region_set(pl, a_b), region_set(pl, a_w)),
{
    let u = pl.to_set();
    let wb = region_set(pl, a_b);
    let ww = region_set(pl, a_w);
    let z_w = all_nodes(pl.len());
    let z_b = no_escape(esc);
    assert forall|b: State| u.contains(b) && #[trigger] scn.black_forced(u, ww, b) implies wb.contains(b) by {
        let i = lemma_index_of(pl, idx, b);
        assert(black_succ_ok(scn, pl[i], bw[i]@, esc[i], pl, idx));
        let m = scn.legal_black_spec(scn.laws, b);
        lemma_no_moves(scn, b, bw[i]@, esc[i], pl, idx);
        if scn.black_mated(b) {
            assert(mate_seeds(scn, pl, bw, esc)[i]);
            assert(z_b[i]);
        } else {
            assert(!esc[i]) by {
                if esc[i] {
                    let k = choose|k: int| 0 <= k < m.len() && !idx.contains_key(#[trigger] m[k]);
                    assert(u.contains(m[k]));
                    lemma_index_of(pl, idx, m[k]);
                }
            }
            assert(z_b[i]);
            let succ = bw[i]@;
            assert forall|k: int| 0 <= k < succ.len() && z_w[#[trigger] succ[k] as int] implies a_w[succ[k] as int] by {
                assert(succ.contains(succ[k]));
                let y = succ[k];
                let t = pl[y as int];
                assert(m.contains(t));
                let k2 = choose|k2: int| 0 <= k2 < m.len() && m[k2] == t;
                assert(ww.contains(m[k2]));
                let i2 = choose|i2: int| 0 <= i2 < pl.len() && a_w[i2] && #[trigger] pl[i2] == t;
                assert(i2 == y);
            }
            assert(succ.len() > 0);
            assert(succ.contains(succ[0]));
            assert(z_w[succ[0] as int]);
            assert(all_succ_in(succ, z_w, a_w));
        }
        assert(a_b[i]);
        assert(wb.contains(pl[i]));
    }
    assert forall|w: State| u.contains(w) && #[trigger] scn.white_forced(u, wb, w) implies ww.contains(w) by {
        let i = lemma_index_of(pl, idx, w);
        assert(white_edges_ok(scn, pl[i], wbs[i]@, pl, idx));
        let m = scn.legal_white_spec(scn.laws, w);
        let j = choose|j: int| 0 <= j < m.len() && u.contains(#[trigger] m[j]) && wb.contains(m[j]);
        let k = lemma_index_of(pl, idx, m[j]);
        let k2 = choose|k2: int| 0 <= k2 < pl.len() && a_b[k2] && #[trigger] pl[k2] == m[j];
        assert(k2 == k);
        let succ = wbs[i]@;
        assert(succ.contains(k as usize));
        let p = choose|p: int| 0 <= p < succ.len() && succ[p] == k as usize;
        assert(z_b[k]);
        assert(some_succ_in(succ, z_b, a_b));
        assert(a_w[i]);
        assert(ww.contains(pl[i]));
    }
}

/// The region given by the attractor is below every closed pair of sets.
proof fn lemma_attractor_least<D, L: LawsLike, P>(
    scn: Scenario<D, L, P>,
    pl: Seq<State>,
    idx: Map<State, usize>,
    bw: Seq<Vec<usize>>,
    esc: Seq<bool>,
    wbs: Seq<Vec<usize>>,
    a_w: Seq<bool>,
    a_b: Seq<bool>,
    sb: Set<State>,
    sw: Set<State>,
)
    requires
        mate_graph_ok(scn, pl, idx, bw, esc, wbs),
        is_attractor(all_nodes(pl.len()), no_escape(esc), wbs, bw, no_seeds(pl.len()), mate_seeds(scn, pl, bw, esc), a_w, a_b),
        scn.mate_closed(pl.to_set(), sb, sw),
    ensures
        region_set(pl, a_b).subset_of(sb),
        region_set(pl, a_w).subset_of(sw),
{
    let u = pl.to_set();
    let n = pl.len();
    let z_w = all_nodes(n);
    let z_b = no_escape(esc);
    let seeds = mate_seeds(scn, pl, bw, esc);
    let s_w = Seq::new(n, |i: int| sw.contains(pl[i]));
    let s_b = Seq::new(n, |i: int| sb.contains(pl[i]));
    assert forall|i: int| 0 <= i < z_w.len() && z_w[i] && (no_seeds(n)[i] || some_succ_in(wbs[i]@, z_b, s_b)) implies #[trigger] s_w[i] by {
        let succ = wbs[i]@;
        assert(white_edges_ok(scn, pl[i], succ, pl, idx));
        let k = choose|k: int| 0 <= k < succ.len() && z_b[#[trigger] succ[k] as int] && s_b[succ[k] as int];
        assert(succ.contains(succ[k]));
        let t = pl[succ[k] as int];
        let m = scn.legal_white_spec(scn.laws, pl[i]);
        assert(m.contains(t));
        let j = choose|j: int| 0 <= j < m.len() && m[j] == t;
        assert(u.contains(t));
        assert(scn.white_forced(u, sb, pl[i]));
        assert(u.contains(pl[i]));
    }
    assert forall|j: int| 0 <= j < z_b.len() && z_b[j] && (seeds[j] || all_succ_in(bw[j]@, z_w, s_w)) implies #[trigger] s_b[j] by {
        let b = pl[j];
        let succ = bw[j]@;
        assert(black_succ_ok(scn, b, succ, esc[j], pl, idx));
        lemma_no_moves(scn, b, succ, esc[j], pl, idx);
        let m = scn.legal_black_spec(scn.laws, b);
        if seeds[j] {
            assert(scn.black_mated(b));
        } else {
            let k0 = choose|k: int| 0 <= k < succ.len() && z_w[#[trigger] succ[k] as int];
            assert(succ.contains(succ[k0]));
            assert(m.len() > 0);
            assert forall|i: int| 0 <= i < m.len() implies u.contains(#[trigger] m[i]) && sw.contains(m[i]) by {
                assert(idx.contains_key(m[i]));
                let y = idx[m[i]];
                assert(succ.contains(y));
                let p = choose|p: int| 0 <= p < succ.len() && succ[p] == y;
                assert(z_w[succ[p] as int]);
                assert(s_w[y as int]);
                assert(pl[y as int] == m[i]);
                assert(u.contains(pl[y as int]));
            }
        }
        assert(scn.black_forced(u, sw, b));
        assert(u.contains(b));
    }
    assert(attr_closed(z_w, z_b, wbs, bw, no_seeds(n), seeds, s_w, s_b));
    assert forall|s: State| region_set(pl, a_b).contains(s) implies sb.contains(s) by {
        let i = choose|i: int| 0 <= i < pl.len() && a_b[i] && #[trigger] pl[i] == s;
        assert(s_b[i]);
    }
    assert forall|s: State| region_set(pl, a_w).contains(s) implies sw.contains(s) by {
        let i = choose|i: int| 0 <= i < pl.len() && a_w[i] && #[trigger] pl[i] == s;
        assert(s_w[i]);
    }
}

/// The attractor of the mates, lifted from indices to states, is the forced-mate region of
/// the universe.
proof fn lemma_attractor_region<D, L: LawsLike, P>(
    scn: Scenario<D, L, P>,
    pl: Seq<State>,
    idx: Map<State, usize>,
    bw: Seq<Vec<usize>>,
    esc: Seq<bool>,
    wbs: Seq<Vec<usize>>,
    a_w: Seq<bool>,
    a_b: Seq<bool>,
)
    requires
        mate_graph_ok(scn, pl, idx, bw, esc, wbs),
        is_attractor(all_nodes(pl.len()), no_escape(esc), wbs, bw, no_seeds(pl.len()), mate_seeds(scn, pl, bw, esc), a_w, a_b),
    ensures
        scn.mate_region(pl.to_set(), region_set(pl, a_b), region_set(pl, a_w)),
{
    let u = pl.to_set();
    lemma_attractor_closed(scn, pl, idx, bw, esc, wbs, a_w, a_b);
    assert forall|s: State| region_set(pl, a_b).contains(s) implies u.contains(s) by {
        let i = choose|i: int| 0 <= i < pl.len() && a_b[i] && #[trigger] pl[i] == s;
    }
    assert forall|s: State| region_set(pl, a_w).contains(s) implies u.contains(s) by {
        let i = choose|i: int| 0 <= i < pl.len() && a_w[i] && #[trigger] pl[i] == s;
    }
    assert forall|sb: Set<State>, sw: Set<State>| #[trigger] scn.mate_closed(u, sb, sw) implies
        region_set(pl, a_b).subset_of(sb) && region_set(pl, a_w).subset_of(sw) by {
        lemma_attractor_least(scn, pl, idx, bw, esc, wbs, a_w, a_b, sb, sw);
    }
}

/// A state that fits the machine limits for Black to move also fits them for White to move.
pub(crate) proof fn lemma_fits_white<D, L, P>(scn: Scenario<D, L, P>, s: State)
    requires
        scn.state_fits(s),
    ensures
        scn.white_state_fits(s),
{
    assert forall|i: int| 0 <= i < s.pos@.len() && crate::chess::rules::present(s.pos@[i]) implies
        crate::chess::rules::within(#[trigger] s.pos@[i].coord_spec(), crate::chess::rules::coord_limit()) by {
        assert(crate::chess::rules::within(s.pos@[i].coord_spec(), crate::chess::rules::coord_limit() - 1));
    }
}

/// For each state of the universe `pl` (indexed by `idx`): its black successors in the
/// universe, whether Black has a move leaving the universe, and its white successors in the
/// universe.
fn mate_edges<D: DomainLike, L: LawsLike, P>(
    scn: &Scenario<D, L, P>,
    pl: &Vec<State>,
    idx: &StateIndex,
    tracker: &mut ResourceTracker,
) -> (r: Result<(Vec<Vec<usize>>, Vec<bool>, Vec<Vec<usize>>), SearchError>)
    requires
        scn.rules_ok(),
        pl@.no_duplicates(),
        indexes(idx.view_map(), pl@),
        forall|i: int| 0 <= i < pl@.len() ==> scn.state_fits(#[trigger] pl@[i]),
    ensures
        r is Ok ==> mate_graph_ok(*scn, pl@, idx.view_map(), r->Ok_0.0@, r->Ok_0.1@, r->Ok_0.2@),
        final(tracker).limits_spec() == old(tracker).limits_spec(),
        r is Err ==> over_budget(old(tracker).limits_spec(), r->Err_0),
{
    let mut bw: Vec<Vec<usize>> = Vec::new();
    let mut esc: Vec<bool> = Vec::new();
    let mut wbs: Vec<Vec<usize>> = Vec::new();
    let ghost im = idx.view_map();
    let mut i: usize = 0;
    while i < pl.len()
        invariant
            i <= pl@.len(),
            scn.rules_ok(),
            im == idx.view_map(),
            pl@.no_duplicates(),
            indexes(im, pl@),
            forall|a: int| 0 <= a < pl@.len() ==> scn.state_fits(#[trigger] pl@[a]),
            bw@.len() == i,
            esc@.len() == i,
            wbs@.len() == i,
            forall|a: int| 0 <= a < i ==> #[trigger] black_succ_ok(*scn, pl@[a], bw@[a]@, esc@[a], pl@, im),
            forall|a: int| 0 <= a < i ==> #[trigger] white_edges_ok(*scn, pl@[a], wbs@[a]@, pl@, im),
            tracker.limits_spec() == old(tracker).limits_spec(),
        decreases pl@.len() - i,
    {
        tracker.bump_steps("mate_build_edges", 1)?;
        let p = pl[i];
        let moves = legal_black_moves(scn, &scn.laws, &p, tracker)?;
        let mut succ: Vec<usize> = Vec::new();
        let mut escape = false;
        let mut k: usize = 0;
        while k < moves.len()
            invariant
                k <= moves@.len(),
                moves@ == scn.legal_black_spec(scn.laws, p),
                im == idx.view_map(),
                indexes(im, pl@),
                strictly_increasing(succ@),
                forall|y: usize| #[trigger] succ@.contains(y) ==> y < pl@.len() && moves@.contains(pl@[y as int]),
                forall|k2: int| 0 <= k2 < k && im.contains_key(#[trigger] moves@[k2]) ==> succ@.contains(im[moves@[k2]]),
                escape == exists|k2: int| 0 <= k2 < k && !im.contains_key(#[trigger] moves@[k2]),
            decreases moves@.len() - k,
        {
            let ghost sc = succ@;
            match idx.get(&moves[k]) {
                Some(j) => {
                    sorted_insert(&mut succ, j);
                    proof {
                        assert(moves@.contains(moves@[k as int]));
                        assert forall|y: usize| #[trigger] succ@.contains(y) implies y < pl@.len() && moves@.contains(pl@[y as int]) by {
                            if !sc.contains(y) {
                                assert(y == j);
                            }
                        }
                        assert forall|k2: int| 0 <= k2 < k + 1 && im.contains_key(#[trigger] moves@[k2]) implies succ@.contains(im[moves@[k2]]) by {
                            if k2 < k {
                                assert(sc.contains(im[moves@[k2]]));
                            }
                        }
                    }
                },
                None => {
                    escape = true;
                },
            }
            k += 1;
        }
        proof {
            assert(black_succ_ok(*scn, p, succ@, escape, pl@, im));
            lemma_fits_white(*scn, p);
        }
        let replies = legal_white_moves(scn, &scn.laws, &p, tracker)?;
        let mut succ_b: Vec<usize> = Vec::new();
        let mut j: usize = 0;
        while j < replies.len()
            invariant
                j <= replies@.len(),
                replies@ == scn.legal_white_spec(scn.laws, p),
                im == idx.view_map(),
                indexes(im, pl@),
                strictly_increasing(succ_b@),
                forall|y: usize| #[trigger] succ_b@.contains(y) ==> y < pl@.len() && replies@.contains(pl@[y as int]),
                forall|j2: int| 0 <= j2 < j && im.contains_key(#[trigger] replies@[j2]) ==> succ_b@.contains(im[replies@[j2]]),
            decreases replies@.len() - j,
        {
            let ghost sb = succ_b@;
            if let Some(bi) = idx.get(&replies[j]) {
                sorted_insert(&mut succ_b, bi);
                proof {
                    assert(replies@.contains(replies@[j as int]));
                    assert forall|y: usize| #[trigger] succ_b@.contains(y) implies y < pl@.len() && replies@.contains(pl@[y as int]) by {
                        if !sb.contains(y) {
                            assert(y == bi);
                        }
                    }
                    assert forall|j2: int| 0 <= j2 < j + 1 && im.contains_key(#[trigger] replies@[j2]) implies succ_b@.contains(im[replies@[j2]]) by {
                        if j2 < j {
                            assert(sb.contains(im[replies@[j2]]));
                        }
                    }
                }
            }
            j += 1;
        }
        proof {
            assert(white_edges_ok(*scn, p, succ_b@, pl@, im));
        }
        let ghost bw0 = bw@;
        let ghost esc0 = esc@;
        let ghost wb0 = wbs@;
        bw.push(succ);
        esc.push(escape);
        wbs.push(succ_b);
        proof {
            assert forall|a: int| 0 <= a < i + 1 implies #[trigger] black_succ_ok(*scn, pl@[a], bw@[a]@, esc@[a], pl@, im) by {
                if a < i {
                    assert(bw@[a] == bw0[a] && esc@[a] == esc0[a]);
                }
            }
            assert forall|a: int| 0 <= a < i + 1 implies #[trigger] white_edges_ok(*scn, pl@[a], wbs@[a]@, pl@, im) by {
                if a < i {
                    assert(wbs@[a] == wb0[a]);
                }
            }
        }
        i += 1;
    }
    Ok((bw, esc, wbs))
}

/// Inside the attractor, a black node has no escape, and unless it is a mate it has a
/// successor and all its successors are in the attractor.
proof fn lemma_attractor_supported<D, L: LawsLike, P>(
    scn: Scenario<D, L, P>,
    pl: Seq<State>,
    idx: Map<State, usize>,
    bw: Seq<Vec<usize>>,
    esc: Seq<bool>,
    wbs: Seq<Vec<usize>>,
    a_w: Seq<bool>,
    a_b: Seq<bool>,
)
    requires
        mate_graph_ok(scn, pl, idx, bw, esc, wbs),
        is_attractor(all_nodes(pl.len()), no_escape(esc), wbs, bw, no_seeds(pl.len()), mate_seeds(scn, pl, bw, esc), a_w, a_b),
    ensures
        forall|i: int| 0 <= i < pl.len() && #[trigger] a_b[i] ==> !esc[i],
        forall|i: int| 0 <= i < pl.len() && #[trigger] a_b[i] && !mate_seeds(scn, pl, bw, esc)[i] ==> bw[i]@.len() > 0
            && forall|k: int| 0 <= k < bw[i]@.len() ==> a_w[#[trigger] bw[i]@[k] as int],
{
    let u = pl.to_set();
    let wb = region_set(pl, a_b);
    let ww = region_set(pl, a_w);
    lemma_attractor_region(scn, pl, idx, bw, esc, wbs, a_w, a_b);
    lemma_mate_region_supported(scn, u, wb, ww);
    assert forall|i: int| 0 <= i < pl.len() && #[trigger] a_b[i] implies !esc[i] && (!mate_seeds(scn, pl, bw, esc)[i] ==> bw[i]@.len() > 0
        && forall|k: int| 0 <= k < bw[i]@.len() ==> a_w[#[trigger] bw[i]@[k] as int]) by {
        let b = pl[i];
        assert(wb.contains(b));
        assert(scn.black_forced(u, ww, b));
        assert(black_succ_ok(scn, b, bw[i]@, esc[i], pl, idx));
        lemma_no_moves(scn, b, bw[i]@, esc[i], pl, idx);
        let m = scn.legal_black_spec(scn.laws, b);
        if !scn.black_mated(b) {
            assert(!esc[i]) by {
                if esc[i] {
                    let k = choose|k: int| 0 <= k < m.len() && !idx.contains_key(#[trigger] m[k]);
                    assert(u.contains(m[k]));
                    lemma_index_of(pl, idx, m[k]);
                }
            }
            assert forall|k: int| 0 <= k < bw[i]@.len() implies a_w[#[trigger] bw[i]@[k] as int] by {
                let y = bw[i]@[k];
                assert(bw[i]@.contains(y));
                let t = pl[y as int];
                assert(m.contains(t));
                let k2 = choose|k2: int| 0 <= k2 < m.len() && m[k2] == t;
                assert(ww.contains(m[k2]));
                let i2 = choose|i2: int| 0 <= i2 < pl.len() && a_w[i2] && #[trigger] pl[i2] == t;
                assert(i2 == y);
            }
        }
    }
}

/// The distances computed on indices are distances to mate of the states.
proof fn lemma_dtm_lift<D, L: LawsLike, P>(
    scn: Scenario<D, L, P>,
    pl: Seq<State>,
    idx: Map<State, usize>,
    bw: Seq<Vec<usize>>,
    esc: Seq<bool>,
    wbs: Seq<Vec<usize>>,
    win_w: Seq<bool>,
    win_b: Seq<bool>,
    is_mate: Seq<bool>,
    db: Seq<u32>,
    dw: Seq<u32>,
    d: Map<State, u32>,
)
    requires
        mate_graph_ok(scn, pl, idx, bw, esc, wbs),
        win_w.len() == pl.len(),
        win_b.len() == pl.len(),
        db.len() == pl.len(),
        dw.len() == pl.len(),
        is_mate == mate_seeds(scn, pl, bw, esc),
        forall|i: int| 0 <= i < pl.len() && #[trigger] win_b[i] ==> !esc[i],
        forall|i: int| 0 <= i < pl.len() && #[trigger] win_b[i] && !is_mate[i] ==> bw[i]@.len() > 0
            && forall|k: int| 0 <= k < bw[i]@.len() ==> win_w[#[trigger] bw[i]@[k] as int],
        forall|i: int| 0 <= i < pl.len() && #[trigger] win_b[i] ==> db[i] < unknown_dtm(),
        forall|i: int| 0 <= i < pl.len() && #[trigger] win_b[i] && is_mate[i] ==> db[i] == 0,
        forall|i: int| 0 <= i < pl.len() && #[trigger] win_b[i] && !is_mate[i] ==> db[i] == step_up(bmax(bw[i]@, dw)),
        forall|i: int| 0 <= i < pl.len() && #[trigger] win_w[i] ==> dw[i] == step_up(wmin(wbs[i]@, win_b, db)),
        d.dom() == region_set(pl, win_b),
        forall|i: int| 0 <= i < pl.len() && #[trigger] win_b[i] ==> d[pl[i]] == db[i],
    ensures
        scn.dtm_ok(pl.to_set(), region_set(pl, win_b), d),
{
    let u = pl.to_set();
    let wb = region_set(pl, win_b);
    let n = pl.len();
    let dwm = Map::new(
        |s: State| exists|i: int| 0 <= i < n && win_w[i] && dw[i] < unknown_dtm() && #[trigger] pl[i] == s,
        |s: State| dw[idx[s] as int] as int,
    );
    assert forall|b: State| #[trigger] wb.contains(b) implies if scn.black_mated(b) {
        d[b] == 0
    } else {
        &&& forall|i: int| 0 <= i < scn.legal_black_spec(scn.laws, b).len() ==>
            dwm.contains_key(#[trigger] scn.legal_black_spec(scn.laws, b)[i])
                && dwm[scn.legal_black_spec(scn.laws, b)[i]] < d[b]
        &&& exists|i: int| 0 <= i < scn.legal_black_spec(scn.laws, b).len()
            && dwm[#[trigger] scn.legal_black_spec(scn.laws, b)[i]] + 1 == d[b]
    } by {
        let i = choose|i: int| 0 <= i < pl.len() && win_b[i] && #[trigger] pl[i] == b;
        assert(idx.contains_key(pl[i]));
        let succ = bw[i]@;
        assert(black_succ_ok(scn, b, succ, esc[i], pl, idx));
        lemma_no_moves(scn, b, succ, esc[i], pl, idx);
        let m = scn.legal_black_spec(scn.laws, b);
        if !scn.black_mated(b) {
            assert(!is_mate[i]);
            lemma_bmax(succ, dw);
            assert(bmax(succ, dw) < unknown_dtm());
            assert forall|j: int| 0 <= j < m.len() implies dwm.contains_key(#[trigger] m[j]) && dwm[m[j]] < d[b] by {
                assert(idx.contains_key(m[j]));
                let y = idx[m[j]];
                assert(succ.contains(y));
                let k = choose|k: int| 0 <= k < succ.len() && succ[k] == y;
                assert(win_w[succ[k] as int]);
                assert(dw[succ[k] as int] <= bmax(succ, dw));
                assert(pl[y as int] == m[j]);
            }
            let k = choose|k: int| 0 <= k < succ.len() && dw[#[trigger] succ[k] as int] == bmax(succ, dw);
            let y = succ[k];
            assert(succ.contains(y));
            assert(m.contains(pl[y as int]));
            let j = choose|j: int| 0 <= j < m.len() && m[j] == pl[y as int];
            assert(idx[pl[y as int]] == y);
            assert(dwm[m[j]] + 1 == d[b]);
        }
    }
    assert forall|w: State| #[trigger] dwm.contains_key(w) implies {
        &&& forall|j: int| 0 <= j < scn.legal_white_spec(scn.laws, w).len()
            && u.contains(#[trigger] scn.legal_white_spec(scn.laws, w)[j])
            && wb.contains(scn.legal_white_spec(scn.laws, w)[j])
            ==> dwm[w] <= d[scn.legal_white_spec(scn.laws, w)[j]] + 1
        &&& exists|j: int| 0 <= j < scn.legal_white_spec(scn.laws, w).len()
            && u.contains(#[trigger] scn.legal_white_spec(scn.laws, w)[j])
            && wb.contains(scn.legal_white_spec(scn.laws, w)[j])
            && dwm[w] == d[scn.legal_white_spec(scn.laws, w)[j]] + 1
    } by {
        let i = choose|i: int| 0 <= i < n && win_w[i] && dw[i] < unknown_dtm() && #[trigger] pl[i] == w;
        assert(idx.contains_key(pl[i]));
        let succ = wbs[i]@;
        assert(white_edges_ok(scn, w, succ, pl, idx));
        let m = scn.legal_white_spec(scn.laws, w);
        lemma_wmin(succ, win_b, db);
        assert forall|j: int| 0 <= j < m.len() && u.contains(#[trigger] m[j]) && wb.contains(m[j]) implies dwm[w] <= d[m[j]] + 1 by {
            let y = lemma_index_of(pl, idx, m[j]);
            assert(succ.contains(y as usize));
            let k = choose|k: int| 0 <= k < succ.len() && succ[k] == y as usize;
            let i2 = choose|i2: int| 0 <= i2 < pl.len() && win_b[i2] && #[trigger] pl[i2] == m[j];
            assert(i2 == y);
            assert(win_b[succ[k] as int]);
        }
        let k = choose|k: int| 0 <= k < succ.len() && win_b[#[trigger] succ[k] as int] && db[succ[k] as int] == wmin(succ, win_b, db);
        let y = succ[k];
        assert(succ.contains(y));
        assert(m.contains(pl[y as int]));
        let j = choose|j: int| 0 <= j < m.len() && m[j] == pl[y as int];
        assert(u.contains(pl[y as int]));
        assert(wb.contains(pl[y as int]));
    }
    assert(scn.dtm_equations(u, wb, d, dwm));
}

/// `d_b`, `d_w` solve the distance equations on the winning nodes: a mate is at zero, a white
/// node one more than the least distance of its winning successors, a black node that is not
/// a mate one more than the greatest distance of its successors (unknown stays unknown).
pub open spec fn dtm_fixpoint(
    bw: Seq<Vec<usize>>,
    wb: Seq<Vec<usize>>,
    win_b: Seq<bool>,
    win_w: Seq<bool>,
    is_mate: Seq<bool>,
    d_b: Seq<u32>,
    d_w: Seq<u32>,
) -> bool {
    &&& d_b.len() == win_b.len()
    &&& d_w.len() == win_w.len()
    &&& forall|a: int| 0 <= a < d_b.len() && #[trigger] win_b[a] && is_mate[a] ==> d_b[a] == 0
    &&& forall|a: int| 0 <= a < d_w.len() && #[trigger] win_w[a] ==> step_up(wmin(wb[a]@, win_b, d_b)) == d_w[a]
    &&& forall|a: int| 0 <= a < d_b.len() && #[trigger] win_b[a] && !is_mate[a] ==> step_up(bmax(bw[a]@, d_w)) == d_b[a]
}

/// Distances to mate of the winning black-to-move states, by repeated passes from "unknown"
/// until nothing changes: a white node takes one more than the smallest distance of its
/// winning successors, a black node that is not a mate one more than the largest distance of
/// its successors. Fails when a winning state is left without a distance.
#[verifier::rlimit(40)]
fn compute_dtm_layers<D: DomainLike, L: LawsLike, P>(
    scn: &Scenario<D, L, P>,
    tracker: &mut ResourceTracker,
    placements: &Vec<State>,
    bw_succ: &Vec<Vec<usize>>,
    wb_succ: &Vec<Vec<usize>>,
    win_b: &Vec<bool>,
    win_w: &Vec<bool>,
    is_mate: &Vec<bool>,
    Ghost(idx): Ghost<Map<State, usize>>,
    Ghost(esc): Ghost<Seq<bool>>,
) -> (r: Result<StateDepths, SearchError>)
    requires
        scn.rules_ok(),
        forall|i: int| 0 <= i < placements@.len() ==> scn.state_fits(#[trigger] placements@[i]),
        mate_graph_ok(*scn, placements@, idx, bw_succ@, esc, wb_succ@),
        win_b@.len() == placements@.len(),
        win_w@.len() == placements@.len(),
        is_mate@ == mate_seeds(*scn, placements@, bw_succ@, esc),
        forall|i: int| 0 <= i < placements@.len() && #[trigger] win_b@[i] ==> !esc[i],
        forall|i: int| 0 <= i < placements@.len() && #[trigger] win_b@[i] && !is_mate@[i] ==> bw_succ@[i]@.len() > 0
            && forall|k: int| 0 <= k < bw_succ@[i]@.len() ==> win_w@[#[trigger] bw_succ@[i]@[k] as int],
    ensures
        r is Ok ==> scn.dtm_ok(placements@.to_set(), region_set(placements@, win_b@), r->Ok_0.view_map()),
        final(tracker).limits_spec() == old(tracker).limits_spec(),
        r matches Err(SearchError::LimitExceeded { .. }) ==> final(tracker).counts_spec().runtime_steps
            > final(tracker).limits_spec().max_runtime_steps,
        r matches Err(SearchError::AllocationFailed { stage, structure, .. }) ==> stage == "mate_dtm" && structure == "dtm_map",
        r is Err ==> over_budget(old(tracker).limits_spec(), r->Err_0) || r->Err_0 is AllocationFailed
            || (r->Err_0 is InvalidScenario && exists|d_b: Seq<u32>, d_w: Seq<u32>|
                #[trigger] dtm_fixpoint(bw_succ@, wb_succ@, win_b@, win_w@, is_mate@, d_b, d_w)
                && exists|a: int| 0 <= a < d_b.len() && win_b@[a] && d_b[a] == u32::MAX),
{
    let n = placements.len();
    let ghost pl = placements@;
    let inf: u32 = u32::MAX;
    proof {
        assert forall|a: int, k: int| 0 <= a < n && 0 <= k < wb_succ@[a]@.len() implies #[trigger] wb_succ@[a]@[k] < n by {
            assert(white_edges_ok(*scn, pl[a], wb_succ@[a]@, pl, idx));
            assert(wb_succ@[a]@.contains(wb_succ@[a]@[k]));
        }
        assert forall|a: int, k: int| 0 <= a < n && 0 <= k < bw_succ@[a]@.len() implies #[trigger] bw_succ@[a]@[k] < n by {
            assert(black_succ_ok(*scn, pl[a], bw_succ@[a]@, esc[a], pl, idx));
            assert(bw_succ@[a]@.contains(bw_succ@[a]@[k]));
        }
    }
    let mut dtm_b: Vec<u32> = Vec::new();
    let mut dtm_w: Vec<u32> = Vec::new();
    let mut i: usize = 0;
    while i < n
        invariant
            inf == u32::MAX,
            i <= n,
            n == pl.len(),
            win_b@.len() == n,
            is_mate@.len() == n,
            dtm_b@.len() == i,
            dtm_w@.len() == i,
            forall|a: int| 0 <= a < i ==> #[trigger] dtm_b@[a] == (if win_b@[a] && is_mate@[a] { 0u32 } else { inf }),
            forall|a: int| 0 <= a < i ==> #[trigger] dtm_w@[a] == inf,
        decreases n - i,
    {
        dtm_b.push(if win_b[i] && is_mate[i] { 0u32 } else { inf });
        dtm_w.push(inf);
        i += 1;
    }
    proof {
        assert forall|a: int| 0 <= a < n && #[trigger] win_w@[a] implies step_up(wmin(wb_succ@[a]@, win_b@, dtm_b@)) <= dtm_w@[a] by {
            lemma_wmin(wb_succ@[a]@, win_b@, dtm_b@);
        }
        assert forall|a: int| 0 <= a < n && #[trigger] win_b@[a] && !is_mate@[a] implies step_up(bmax(bw_succ@[a]@, dtm_w@)) <= dtm_b@[a] by {
            lemma_bmax(bw_succ@[a]@, dtm_w@);
        }
    }
    let mut changed = true;
    while changed
        invariant
            inf == u32::MAX,
            n == pl.len(),
            pl == placements@,
            bw_succ@.len() == n,
            wb_succ@.len() == n,
            win_b@.len() == n,
            win_w@.len() == n,
            is_mate@.len() == n,
            dtm_b@.len() == n,
            dtm_w@.len() == n,
            forall|a: int, k: int| 0 <= a < n && 0 <= k < wb_succ@[a]@.len() ==> #[trigger] wb_succ@[a]@[k] < n,
            forall|a: int, k: int| 0 <= a < n && 0 <= k < bw_succ@[a]@.len() ==> #[trigger] bw_succ@[a]@[k] < n,
            forall|a: int| 0 <= a < n && #[trigger] win_b@[a] && is_mate@[a] ==> dtm_b@[a] == 0,
            forall|a: int| 0 <= a < n && #[trigger] win_w@[a] ==> step_up(wmin(wb_succ@[a]@, win_b@, dtm_b@)) <= dtm_w@[a],
            forall|a: int| 0 <= a < n && #[trigger] win_b@[a] && !is_mate@[a] ==> step_up(bmax(bw_succ@[a]@, dtm_w@)) <= dtm_b@[a],
            !changed ==> forall|a: int| 0 <= a < n && #[trigger] win_w@[a] ==> step_up(wmin(wb_succ@[a]@, win_b@, dtm_b@)) == dtm_w@[a],
            !changed ==> forall|a: int| 0 <= a < n && #[trigger] win_b@[a] && !is_mate@[a] ==> step_up(bmax(bw_succ@[a]@, dtm_w@)) == dtm_b@[a],
            tracker.limits_spec() == old(tracker).limits_spec(),
            forall|a: int| 0 <= a < n && #[trigger] win_b@[a] && !is_mate@[a] ==> bw_succ@[a]@.len() > 0
                && forall|k: int| 0 <= k < bw_succ@[a]@.len() ==> win_w@[#[trigger] bw_succ@[a]@[k] as int],
        decreases seq_sum(dtm_b@) + seq_sum(dtm_w@) + if changed { 1nat } else { 0nat },
    {
        tracker.bump_steps("mate_dtm_iter", 1)?;
        changed = false;
        let ghost start_b = dtm_b@;
        let ghost start_w = dtm_w@;
        // White nodes: one more than the smallest distance of a winning successor.
        let mut wi: usize = 0;
        while wi < n
            invariant
                inf == u32::MAX,
                wi <= n,
                n == pl.len(),
                bw_succ@.len() == n,
                wb_succ@.len() == n,
                win_b@.len() == n,
                win_w@.len() == n,
                is_mate@.len() == n,
                dtm_b@.len() == n,
                dtm_w@.len() == n,
                forall|a: int, k: int| 0 <= a < n && 0 <= k < wb_succ@[a]@.len() ==> #[trigger] wb_succ@[a]@[k] < n,
                forall|a: int, k: int| 0 <= a < n && 0 <= k < bw_succ@[a]@.len() ==> #[trigger] bw_succ@[a]@[k] < n,
                dtm_b@ == start_b,
                forall|a: int| 0 <= a < n && #[trigger] win_b@[a] && is_mate@[a] ==> dtm_b@[a] == 0,
                forall|a: int| 0 <= a < n && #[trigger] win_w@[a] ==> step_up(wmin(wb_succ@[a]@, win_b@, dtm_b@)) <= dtm_w@[a],
                forall|a: int| 0 <= a < n && #[trigger] win_b@[a] && !is_mate@[a] ==> step_up(bmax(bw_succ@[a]@, dtm_w@)) <= dtm_b@[a],
                !changed ==> dtm_w@ == start_w,
                changed ==> seq_sum(dtm_w@) < seq_sum(start_w),
                seq_sum(dtm_w@) <= seq_sum(start_w),
                !changed ==> forall|a: int| 0 <= a < wi && #[trigger] win_w@[a] ==> step_up(wmin(wb_succ@[a]@, win_b@, dtm_b@)) >= dtm_w@[a],
            decreases n - wi,
        {
            if win_w[wi] {
                let succ = &wb_succ[wi];
                let mut best = inf;
                let mut k: usize = 0;
                proof {
                    assert(succ@.take(0) =~= Seq::<usize>::empty());
                }
                while k < succ.len()
                    invariant
                        inf == u32::MAX,
                        k <= succ@.len(),
                        wi < n,
                        succ@ == wb_succ@[wi as int]@,
                        forall|a: int, k2: int| 0 <= a < n && 0 <= k2 < wb_succ@[a]@.len() ==> #[trigger] wb_succ@[a]@[k2] < n,
                        wb_succ@.len() == n,
                        win_b@.len() == n,
                        dtm_b@.len() == n,
                        best == wmin(succ@.take(k as int), win_b@, dtm_b@),
                    decreases succ@.len() - k,
                {
                    let bi = succ[k];
                    proof {
                        assert(wb_succ@[wi as int]@[k as int] < n);
                        assert(succ@.take(k as int + 1).drop_last() =~= succ@.take(k as int));
                    }
                    if win_b[bi] && dtm_b[bi] < best {
                        best = dtm_b[bi];
                    }
                    k += 1;
                }
                proof {
                    assert(succ@.take(succ@.len() as int) =~= succ@);
                }
                let cand = if best == inf { inf } else { best + 1 };
                if cand < dtm_w[wi] {
                    let ghost before = dtm_w@;
                    dtm_w.set(wi, cand);
                    changed = true;
                    proof {
                        lemma_sum_update(before, wi as int, cand);
                        assert forall|a: int| 0 <= a < n && #[trigger] win_b@[a] && !is_mate@[a] implies step_up(bmax(bw_succ@[a]@, dtm_w@)) <= dtm_b@[a] by {
                            lemma_bmax_mono(bw_succ@[a]@, dtm_w@, before);
                        }
                    }
                }
            }
            wi += 1;
        }
        let ghost mid_w = dtm_w@;
        let ghost changed_w = changed;
        // Black nodes that are not mates: one more than the largest distance of a successor.
        let mut bi: usize = 0;
        while bi < n
            invariant
                inf == u32::MAX,
                bi <= n,
                n == pl.len(),
                bw_succ@.len() == n,
                wb_succ@.len() == n,
                win_b@.len() == n,
                win_w@.len() == n,
                is_mate@.len() == n,
                dtm_b@.len() == n,
                dtm_w@.len() == n,
                forall|a: int, k: int| 0 <= a < n && 0 <= k < wb_succ@[a]@.len() ==> #[trigger] wb_succ@[a]@[k] < n,
                forall|a: int, k: int| 0 <= a < n && 0 <= k < bw_succ@[a]@.len() ==> #[trigger] bw_succ@[a]@[k] < n,
                dtm_w@ == mid_w,
                forall|a: int| 0 <= a < n && #[trigger] win_b@[a] && is_mate@[a] ==> dtm_b@[a] == 0,
                forall|a: int| 0 <= a < n && #[trigger] win_w@[a] ==> step_up(wmin(wb_succ@[a]@, win_b@, dtm_b@)) <= dtm_w@[a],
                forall|a: int| 0 <= a < n && #[trigger] win_b@[a] && !is_mate@[a] ==> step_up(bmax(bw_succ@[a]@, dtm_w@)) <= dtm_b@[a],
                changed_w ==> changed,
                !changed ==> dtm_b@ == start_b && dtm_w@ == start_w,
                !changed_w ==> dtm_w@ == start_w,
                changed ==> seq_sum(dtm_b@) + seq_sum(dtm_w@) < seq_sum(start_b) + seq_sum(start_w),
                seq_sum(dtm_b@) <= seq_sum(start_b),
                seq_sum(dtm_w@) <= seq_sum(start_w),
                !changed ==> forall|a: int| 0 <= a < n && #[trigger] win_w@[a] ==> step_up(wmin(wb_succ@[a]@, win_b@, dtm_b@)) >= dtm_w@[a],
                !changed ==> forall|a: int| 0 <= a < bi && #[trigger] win_b@[a] && !is_mate@[a] ==> step_up(bmax(bw_succ@[a]@, dtm_w@)) >= dtm_b@[a],
                forall|a: int| 0 <= a < n && #[trigger] win_b@[a] && !is_mate@[a] ==> bw_succ@[a]@.len() > 0
                    && forall|k: int| 0 <= k < bw_succ@[a]@.len() ==> win_w@[#[trigger] bw_succ@[a]@[k] as int],
            decreases n - bi,
        {
            if win_b[bi] && !is_mate[bi] {
                let succ = &bw_succ[bi];
                if succ.len() == 0 {
                    proof {
                        assert(false);
                    }
                    return Err(invalid("DTM requested but found a winning non-mate black node with no moves"));
                }
                let mut max_v: u32 = 0;
                let mut k: usize = 0;
                let mut hit_unknown = false;
                proof {
                    assert(succ@.take(0) =~= Seq::<usize>::empty());
                }
                while k < succ.len() && !hit_unknown
                    invariant
                        inf == u32::MAX,
                        k <= succ@.len(),
                        bi < n,
                        succ@ == bw_succ@[bi as int]@,
                        forall|a: int, k2: int| 0 <= a < n && 0 <= k2 < bw_succ@[a]@.len() ==> #[trigger] bw_succ@[a]@[k2] < n,
                        bw_succ@.len() == n,
                        win_w@.len() == n,
                        dtm_w@.len() == n,
                        hit_unknown ==> max_v == inf && bmax(succ@, dtm_w@) == unknown_dtm(),
                        forall|k2: int| 0 <= k2 < succ@.len() ==> win_w@[#[trigger] succ@[k2] as int],
                        !hit_unknown ==> max_v == bmax(succ@.take(k as int), dtm_w@) && max_v < inf,
                    decreases succ@.len() - k, if hit_unknown { 0int } else { 1int },
                {
                    let wi = succ[k];
                    proof {
                        assert(bw_succ@[bi as int]@[k as int] < n);
                        assert(succ@.take(k as int + 1).drop_last() =~= succ@.take(k as int));
                    }
                    if !win_w[wi] {
                        proof {
                            assert(false);
                        }
                        return Err(invalid("DTM requested but winning black node has non-winning successor"));
                    }
                    let v = dtm_w[wi];
                    if v == inf {
                        max_v = inf;
                        hit_unknown = true;
                        proof {
                            lemma_bmax_prefix(succ@, dtm_w@, k as int + 1);
                        }
                    } else {
                        if v > max_v {
                            max_v = v;
                        }
                        k += 1;
                    }
                }
                proof {
                    if !hit_unknown {
                        assert(succ@.take(succ@.len() as int) =~= succ@);
                    }
                }
                let cand = if max_v == inf { inf } else { max_v + 1 };
                if cand < dtm_b[bi] {
                    let ghost before = dtm_b@;
                    dtm_b.set(bi, cand);
                    changed = true;
                    proof {
                        lemma_sum_update(before, bi as int, cand);
                        assert forall|a: int| 0 <= a < n && #[trigger] win_w@[a] implies step_up(wmin(wb_succ@[a]@, win_b@, dtm_b@)) <= dtm_w@[a] by {
                            lemma_wmin_mono(wb_succ@[a]@, win_b@, dtm_b@, before);
                        }
                    }
                }
            }
            bi += 1;
        }
    }
    // Every winning black node must have a distance.
    proof {
        assert(dtm_fixpoint(bw_succ@, wb_succ@, win_b@, win_w@, is_mate@, dtm_b@, dtm_w@));
    }
    let mut b: usize = 0;
    while b < n
        invariant
            inf == u32::MAX,
            b <= n,
            win_b@.len() == n,
            dtm_b@.len() == n,
            forall|a: int| 0 <= a < b && #[trigger] win_b@[a] ==> dtm_b@[a] < inf,
            tracker.limits_spec() == old(tracker).limits_spec(),
            dtm_fixpoint(bw_succ@, wb_succ@, win_b@, win_w@, is_mate@, dtm_b@, dtm_w@),
        decreases n - b,
    {
        if win_b[b] && dtm_b[b] == inf {
            proof {
                assert(dtm_fixpoint(bw_succ@, wb_succ@, win_b@, win_w@, is_mate@, dtm_b@, dtm_w@));
                assert(0 <= b < dtm_b@.len() && win_b@[b as int] && dtm_b@[b as int] == u32::MAX);
                assert(exists|d_b: Seq<u32>, d_w: Seq<u32>|
                    #[trigger] dtm_fixpoint(bw_succ@, wb_succ@, win_b@, win_w@, is_mate@, d_b, d_w)
                    && exists|a: int| 0 <= a < d_b.len() && win_b@[a] && d_b[a] == u32::MAX) by {
                    assert(exists|a: int| 0 <= a < dtm_b@.len() && win_b@[a] && dtm_b@[a] == u32::MAX);
                }
            }
            return Err(invalid("DTM did not converge for all winning nodes"));
        }
        b += 1;
    }
    let mut out = StateDepths::new();
    if !out.try_reserve(n) {
        return Err(SearchError::AllocationFailed { stage: "mate_dtm", structure: "dtm_map", counts: tracker.counts() });
    }
    let mut j: usize = 0;
    while j < n
        invariant
            inf == u32::MAX,
            j <= n,
            n == pl.len(),
            pl == placements@,
            pl.no_duplicates(),
            win_b@.len() == n,
            dtm_b@.len() == n,
            out.view_map().dom() == region_set(pl.take(j as int), win_b@),
            forall|a: int| 0 <= a < j && #[trigger] win_b@[a] ==> out.view_map()[pl[a]] == dtm_b@[a],
        decreases n - j,
    {
        let ghost before = out.view_map();
        if win_b[j] {
            out.insert(placements[j], dtm_b[j]);
        }
        proof {
            let t0 = pl.take(j as int);
            let t1 = pl.take(j as int + 1);
            assert forall|s: State| out.view_map().dom().contains(s) <==> region_set(t1, win_b@).contains(s) by {
                if region_set(t0, win_b@).contains(s) {
                    let a = choose|a: int| 0 <= a < t0.len() && win_b@[a] && #[trigger] t0[a] == s;
                    assert(t1[a] == s);
                }
                if region_set(t1, win_b@).contains(s) {
                    let a = choose|a: int| 0 <= a < t1.len() && win_b@[a] && #[trigger] t1[a] == s;
                    if a < j {
                        assert(t0[a] == s);
                    }
                }
                if win_b@[j as int] && s == pl[j as int] {
                    assert(t1[j as int] == s);
                }
            }
            assert(out.view_map().dom() =~= region_set(t1, win_b@));
            assert forall|a: int| 0 <= a < j + 1 && #[trigger] win_b@[a] implies out.view_map()[pl[a]] == dtm_b@[a] by {
                if a < j && win_b@[j as int] {
                    assert(pl[a] != pl[j as int]);
                }
            }
        }
        j += 1;
    }
    proof {
        assert(pl.take(n as int) =~= pl);
    }
    // A depth of zero is a mate, so Black is in check there.
    let mut c: usize = 0;
    while c < n
        invariant
            inf == u32::MAX,
            c <= n,
            n == pl.len(),
            pl == placements@,
            scn.rules_ok(),
            forall|a: int| 0 <= a < n ==> scn.state_fits(#[trigger] pl[a]),
            win_b@.len() == n,
            dtm_b@.len() == n,
            dtm_fixpoint(bw_succ@, wb_succ@, win_b@, win_w@, is_mate@, dtm_b@, dtm_w@),
            is_mate@ == mate_seeds(*scn, placements@, bw_succ@, esc),
            tracker.limits_spec() == old(tracker).limits_spec(),
        decreases n - c,
    {
        if win_b[c] && dtm_b[c] == 0 {
            proof {
                use_type_invariant(&scn.rules.layout);
                lemma_bmax(bw_succ@[c as int]@, dtm_w@);
                assert(is_mate@[c as int]);
                assert(scn.black_in_check(pl[c as int]));
            }
            if !scn.rules.is_attacked(Coord::origin(), &placements[c].pos) {
                proof {
                    assert(false);
                }
                return Err(invalid("DTM map contains a depth-0 node that is not in check"));
            }
        }
        c += 1;
    }
    proof {
        lemma_dtm_lift(*scn, pl, idx, bw_succ@, esc, wb_succ@, win_w@, win_b@, is_mate@, dtm_b@, dtm_w@, out.view_map());
    }
    Ok(out)
}

/// The universe of the absolute box: the canonical box states that fit the machine limits,
/// are legal, and that the laws and the domain allow. Each new state is counted.
pub(crate) fn mate_universe<D: DomainLike, L: LawsLike, P>(
    scn: &Scenario<D, L, P>,
    bound: i32,
    allow_captures: bool,
    stage: &'static str,
    tracker: &mut ResourceTracker,
) -> (r: Result<StateSet, SearchError>)
    requires
        scn.valid_spec(),
        0 <= bound <= max_box_bound(),
    ensures
        r is Ok ==> forall|s: State| #[trigger] r->Ok_0.view_set().contains(s) ==> scn.mate_universe_member(bound as int, allow_captures, s),
        r is Ok ==> forall|s: State| #[trigger] scn.mate_universe_member(bound as int, allow_captures, s) ==> r->Ok_0.view_set().contains(s),
        final(tracker).limits_spec() == old(tracker).limits_spec(),
        r is Err ==> over_budget(old(tracker).limits_spec(), r->Err_0),
{
    proof {
        use_type_invariant(&scn.rules.layout);
    }
    let states = states_in_abs_box(&scn.rules.layout, bound, allow_captures);
    let mut universe = StateSet::new();
    let mut i: usize = 0;
    while i < states.len()
        invariant
            i <= states@.len(),
            scn.valid_spec(),
            forall|j: int| 0 <= j < states@.len() ==> abs_box_ok(scn.rules.layout, bound as int, allow_captures, #[trigger] states@[j]),
            forall|s: State| #[trigger] universe.view_set().contains(s) ==> scn.mate_universe_member(bound as int, allow_captures, s),
            forall|t: State| #[trigger] abs_box_ok(scn.rules.layout, bound as int, allow_captures, t) ==> states@.contains(t),
            tracker.limits_spec() == old(tracker).limits_spec(),
            forall|j: int| 0 <= j < i && #[trigger] scn.mate_universe_member(bound as int, allow_captures, states@[j])
                ==> universe.view_set().contains(states@[j]),
        decreases states@.len() - i,
    {
        let s = states[i];
        if passes_static_filters(scn, &s) {
            proof {
                use_type_invariant(&scn.rules.layout);
            }
            if scn.rules.is_legal_position(&s.pos) {
                proof {
                    assert(abs_box_ok(scn.rules.layout, bound as int, allow_captures, states@[i as int]));
                    assert(scn.mate_universe_member(bound as int, allow_captures, s));
                }
                let ghost before = universe.view_set();
                let fresh = universe.insert(s);
                proof {
                    assert forall|t: State| #[trigger] universe.view_set().contains(t) implies scn.mate_universe_member(bound as int, allow_captures, t) by {
                        if t != s {
                            assert(before.contains(t));
                        }
                    }
                }
                if fresh {
                    tracker.bump_states(stage, 1)?;
                }
            }
        }
        i += 1;
    }
    proof {
        assert forall|s: State| #[trigger] scn.mate_universe_member(bound as int, allow_captures, s) implies universe.view_set().contains(s) by {
            let j = choose|j: int| 0 <= j < states@.len() && states@[j] == s;
            assert(scn.mate_universe_member(bound as int, allow_captures, states@[j]));
        }
    }
    Ok(universe)
}

/// The states of `pl` flagged in `flags`.
fn flagged_states(pl: &Vec<State>, flags: &Vec<bool>) -> (out: StateSet)
    requires
        flags@.len() == pl@.len(),
    ensures
        out.view_set() == region_set(pl@, flags@),
{
    let mut out = StateSet::new();
    let mut i: usize = 0;
    while i < pl.len()
        invariant
            i <= pl@.len(),
            flags@.len() == pl@.len(),
            out.view_set() == region_set(pl@.take(i as int), flags@),
        decreases pl@.len() - i,
    {
        if flags[i] {
            out.insert(pl[i]);
        }
        proof {
            let t0 = pl@.take(i as int);
            let t1 = pl@.take(i as int + 1);
            assert forall|s: State| out.view_set().contains(s) <==> region_set(t1, flags@).contains(s) by {
                if region_set(t0, flags@).contains(s) {
                    let a = choose|a: int| 0 <= a < t0.len() && flags@[a] && #[trigger] t0[a] == s;
                    assert(t1[a] == s);
                }
                if region_set(t1, flags@).contains(s) {
                    let a = choose|a: int| 0 <= a < t1.len() && flags@[a] && #[trigger] t1[a] == s;
                    if a < i {
                        assert(t0[a] == s);
                    }
                }
                if flags@[i as int] && s == pl@[i as int] {
                    assert(t1[i as int] == s);
                }
            }
            assert(out.view_set() =~= region_set(t1, flags@));
        }
        i += 1;
    }
    proof {
        assert(pl@.take(pl@.len() as int) =~= pl@);
    }
    out
}

/// The winning region of the forced-mate game in the universe of the scenario's absolute box
/// (`CandidateGeneration::InAbsBox` only): the black-to-move states from which White can force
/// a checkmate, and, when `compute_dtm` is set, their distance to mate.
pub fn forced_mate_bounded<D: DomainLike, L: LawsLike, P>(
    scn: &Scenario<D, L, P>,
    compute_dtm: bool,
) -> (r: Result<ForcedMateResult, SearchError>)
    ensures
        !scn.valid_spec() ==> r matches Err(SearchError::InvalidScenario { .. }),
        scn.valid_spec() && !(scn.candidates is InAbsBox) ==> r matches Err(SearchError::InvalidScenario { .. }),
        scn.valid_spec() && (scn.candidates matches CandidateGeneration::InAbsBox { bound, .. } && !(0 <= bound <= max_box_bound()))
            ==> r matches Err(SearchError::InvalidScenario { .. }),
        r is Ok ==> (r->Ok_0.dtm is Some <==> compute_dtm),
        r is Ok ==> (scn.candidates matches CandidateGeneration::InAbsBox { bound, allow_captures } && exists|u: Set<State>| {
            &&& u.finite()
            &&& forall|s: State| #[trigger] u.contains(s) <==> scn.mate_universe_member(bound as int, allow_captures, s)
            &&& scn.forced_mate_region(u, r->Ok_0.winning_btm.view_set())
            &&& (r->Ok_0.dtm matches Some(m) ==> scn.dtm_ok(u, r->Ok_0.winning_btm.view_set(), m.view_map()))
        }),
{
    scn.validate()?;
    let (bound, allow_captures) = match &scn.candidates {
        CandidateGeneration::InAbsBox { bound, allow_captures } => (*bound, *allow_captures),
        _ => {
            return Err(invalid("forced_mate_bounded currently requires candidates=InAbsBox"));
        },
    };
    if bound < 0 || bound > 0x0fff_ffff {
        return Err(invalid("InAbsBox candidate generation needs a bound in 0..=2^28-1"));
    }
    let mut tracker = ResourceTracker::new(scn.limits);
    let universe = mate_universe(scn, bound, allow_captures, "mate_universe", &mut tracker)?;
    let placements = universe.to_vec();
    let n = placements.len();
    let idx = index_states(&placements, &tracker, "mate_index", "placement_index")?;
    proof {
        assert forall|i: int| 0 <= i < placements@.len() implies scn.state_fits(#[trigger] placements@[i]) by {
            assert(placements@.to_set().contains(placements@[i]));
            assert(universe.view_set().contains(placements@[i]));
        }
    }
    let (bw_succ, black_has_escape, wb_succ) = mate_edges(scn, &placements, &idx, &mut tracker)?;
    let ghost pl = placements@;
    let ghost im = idx.view_map();
    // White nodes: all of them; black nodes: those without an escape; seeds: the mates.
    let all_w = filled(n, true);
    let no_seed_w = filled(n, false);
    let mut z_b: Vec<bool> = Vec::new();
    let mut is_mate: Vec<bool> = Vec::new();
    let mut i: usize = 0;
    while i < n
        invariant
            i <= n,
            n == pl.len(),
            pl == placements@,
            scn.rules_ok(),
            forall|a: int| 0 <= a < pl.len() ==> scn.state_fits(#[trigger] pl[a]),
            mate_graph_ok(*scn, pl, im, bw_succ@, black_has_escape@, wb_succ@),
            z_b@.len() == i,
            is_mate@.len() == i,
            forall|a: int| 0 <= a < i ==> #[trigger] z_b@[a] == no_escape(black_has_escape@)[a],
            forall|a: int| 0 <= a < i ==> #[trigger] is_mate@[a] == mate_seeds(*scn, pl, bw_succ@, black_has_escape@)[a],
        decreases n - i,
    {
        z_b.push(!black_has_escape[i]);
        let mate = !black_has_escape[i] && bw_succ[i].len() == 0 && scn.rules.is_attacked(Coord::origin(), &placements[i].pos);
        is_mate.push(mate);
        i += 1;
    }
    proof {
        assert(z_b@ =~= no_escape(black_has_escape@));
        assert(is_mate@ =~= mate_seeds(*scn, pl, bw_succ@, black_has_escape@));
        assert(all_w@ =~= all_nodes(n as nat));
        assert(no_seed_w@ =~= no_seeds(n as nat));
        assert forall|a: int, k: int| 0 <= a < wb_succ@.len() && 0 <= k < wb_succ@[a]@.len() implies #[trigger] wb_succ@[a]@[k] < z_b@.len() by {
            assert(white_edges_ok(*scn, pl[a], wb_succ@[a]@, pl, im));
            assert(wb_succ@[a]@.contains(wb_succ@[a]@[k]));
        }
        assert forall|a: int, k: int| 0 <= a < bw_succ@.len() && 0 <= k < bw_succ@[a]@.len() implies #[trigger] bw_succ@[a]@[k] < all_w@.len() by {
            assert(black_succ_ok(*scn, pl[a], bw_succ@[a]@, black_has_escape@[a], pl, im));
            assert(bw_succ@[a]@.contains(bw_succ@[a]@[k]));
        }
    }
    let (win_w, win_b, _witness) = attractor_core(&all_w, &z_b, &wb_succ, &bw_succ, &no_seed_w, &is_mate);
    proof {
        lemma_attractor_region(*scn, pl, im, bw_succ@, black_has_escape@, wb_succ@, win_w@, win_b@);
        assert(scn.mate_region(pl.to_set(), region_set(pl, win_b@), region_set(pl, win_w@)));
    }
    let winning_btm = flagged_states(&placements, &win_b);
    let dtm = if compute_dtm {
        proof {
            lemma_attractor_supported(*scn, pl, im, bw_succ@, black_has_escape@, wb_succ@, win_w@, win_b@);
        }
        let d = compute_dtm_layers(
            scn,
            &mut tracker,
            &placements,
            &bw_succ,
            &wb_succ,
            &win_b,
            &win_w,
            &is_mate,
            Ghost(im),
            Ghost(black_has_escape@),
        )?;
        Some(d)
    } else {
        None
    };
    proof {
        let u = pl.to_set();
        assert(u == universe.view_set());
        assert(scn.forced_mate_region(u, winning_btm.view_set()));
        assert(u.finite());
        assert forall|s: State| #[trigger] u.contains(s) <==> scn.mate_universe_member(bound as int, allow_captures, s) by {
            if scn.mate_universe_member(bound as int, allow_captures, s) {
                assert(universe.view_set().contains(s));
            }
        }
    }
    Ok(ForcedMateResult { winning_btm, dtm })
}

} // verus!
