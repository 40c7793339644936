//! Trap and tempo-trap solvers.
//!
//! A black-to-move state belongs to an inescapable trap when, for every legal black move,
//! White has a legal reply that stays inside the trap. The maximal inescapable trap inside a
//! candidate set is the greatest such subset, computed by repeatedly removing the states from
//! which Black can escape.
//!
//! Domain membership is handled by the candidate set: candidates are states inside the
//! domain; leaving the domain is legal, but then White may have no reply back into the set.

use vstd::prelude::*;

use std::collections::VecDeque;

use crate::board::coord::Coord;
use crate::board::position::{position_of, MAX_PIECES};
use crate::chess::bounds::{enumerate_positions_in_bound, enumerated_ok};
use crate::chess::rules::{coord_limit, legal_spec, within};
use crate::scenario::{
    fits_layout, invalid, CacheMode, CandidateGeneration, DomainLike, LawsLike, Scenario,
    SearchError, Side, State,
};
use crate::search::movegen::{is_stalemate_with_laws, legal_black_moves, legal_white_moves};
use crate::search::movegen::{edges_counted, moves_view};
use crate::search::resources::{over_budget, over_budget_or_alloc, ResourceTracker};
use crate::search::store::{StateLists, StateSet};

verus! {

impl<D, L: LawsLike, P> Scenario<D, L, P> {
    /// No legal white reply to the white-to-move state `w` lands in `t`.
    pub open spec fn no_reply_in(&self, t: Set<State>, w: State) -> bool {
        forall|j: int|
            0 <= j < self.legal_white_spec(self.laws, w).len() ==> !t.contains(
                #[trigger] self.legal_white_spec(self.laws, w)[j],
            )
    }

    /// Black can move from `p` to a state from which White cannot reply into `t`.
    pub open spec fn escapes(&self, t: Set<State>, p: State) -> bool {
        exists|i: int|
            0 <= i < self.legal_black_spec(self.laws, p).len() && #[trigger] self.no_reply_in(
                t,
                self.legal_black_spec(self.laws, p)[i],
            )
    }

    /// Black cannot escape from any state of `t`.
    pub open spec fn inescapable(&self, t: Set<State>) -> bool {
        forall|p: State| #[trigger] t.contains(p) ==> !self.escapes(t, p)
    }

    /// `r` is the greatest inescapable subset of `c`.
    pub open spec fn greatest_trap_in(&self, c: Set<State>, r: Set<State>) -> bool {
        &&& r.subset_of(c)
        &&& self.inescapable(r)
        &&& forall|s: Set<State>| #[trigger] s.subset_of(c) && self.inescapable(s) ==> s.subset_of(r)
    }
}

impl<D: DomainLike, L: LawsLike, P> Scenario<D, L, P> {
    /// A candidate: it fits the machine limits, is allowed by the laws, inside the domain,
    /// and (when stalemates are removed) not a stalemate.
    pub open spec fn candidate_ok(&self, s: State) -> bool {
        &&& self.state_fits(s)
        &&& self.laws.allows_state(s)
        &&& self.domain.inside_spec(s)
        &&& !(self.remove_stalemates && self.stalemate_spec(s))
    }

    /// A candidate that is also structurally legal.
    pub open spec fn legal_candidate(&self, s: State) -> bool {
        &&& self.candidate_ok(s)
        &&& legal_spec(self.rules.layout.king_index_spec(), s.pos@)
    }

    /// What the candidate generation promises of every candidate state.
    pub open spec fn generated(&self, s: State) -> bool {
        match self.candidates {
            CandidateGeneration::InLinfBound { bound, allow_captures } => {
                &&& self.legal_candidate(s)
                &&& s.abs_king == Coord { x: 0, y: 0 }
                &&& enumerated_ok(self.rules.layout, bound as int, allow_captures, s.pos)
            },
            CandidateGeneration::InAbsBox { bound, allow_captures } => {
                &&& self.legal_candidate(s)
                &&& crate::search::universe::abs_box_ok(self.rules.layout, bound as int, allow_captures, s)
            },
            CandidateGeneration::FromStates { states } => {
                &&& self.legal_candidate(s)
                &&& exists|i: int| 0 <= i < states@.len() && #[trigger] self.from_state(states@[i]) == s
            },
            CandidateGeneration::ReachableFromStart { .. } => self.candidate_ok(s),
        }
    }

    /// The state of a `FromStates` entry after canonicalisation.
    pub open spec fn from_state(&self, s0: State) -> State {
        State {
            abs_king: s0.abs_king,
            pos: position_of(
                crate::board::position::canonical_slots(
                    s0.pos.slots(),
                    self.rules.layout.runs_spec(),
                    self.rules.layout.runs_spec().len(),
                ),
                s0.pos.len_spec(),
            ),
        }
    }

    /// The candidate set `c` is complete: every enumerated placement of the bound (or state of
    /// the box, or `FromStates` entry) that passes the filters is in it, and the reachable
    /// exploration is closed under a black move followed by a white reply.
    pub open spec fn candidates_complete(&self, c: Set<State>) -> bool {
        match self.candidates {
            CandidateGeneration::InLinfBound { bound, allow_captures } => forall|s: State|
                #[trigger] self.legal_candidate(s) && s.abs_king == (Coord { x: 0, y: 0 })
                    && enumerated_ok(self.rules.layout, bound as int, allow_captures, s.pos) ==> c.contains(s),
            CandidateGeneration::InAbsBox { bound, allow_captures } => forall|s: State|
                #[trigger] self.legal_candidate(s)
                    && crate::search::universe::abs_box_ok(self.rules.layout, bound as int, allow_captures, s) ==> c.contains(s),
            CandidateGeneration::FromStates { states } => forall|i: int|
                0 <= i < states@.len() && #[trigger] self.legal_candidate(self.from_state(states@[i]))
                    ==> c.contains(self.from_state(states@[i])),
            CandidateGeneration::ReachableFromStart { .. } => {
                &&& forall|b: State| #[trigger] c.contains(b) ==> succ_closed(*self, c, b)
                &&& start_seeded(*self, c)
            },
        }
    }
}

/// Every state of `t` satisfies `generated`.
pub open spec fn all_generated<D: DomainLike, L: LawsLike, P>(scn: Scenario<D, L, P>, t: Set<State>) -> bool {
    forall|s: State| #[trigger] t.contains(s) ==> scn.generated(s)
}

/// Removing entries keeps a cache correct.
proof fn lemma_cache_shrinks<D, L: LawsLike, P>(scn: Scenario<D, L, P>, a: MoveCache, b: MoveCache)
    requires
        a.ok(scn),
        b.black.view_map().submap_of(a.black.view_map()),
        b.white.view_map().submap_of(a.white.view_map()),
    ensures
        b.ok(scn),
{
    assert forall|k: State| #[trigger] b.black.view_map().contains_key(k) implies {
        &&& b.black.view_map()[k] == scn.legal_black_spec(scn.laws, k)
        &&& forall|i: int| 0 <= i < b.black.view_map()[k].len() ==> scn.white_state_fits(#[trigger] b.black.view_map()[k][i])
    } by {
        assert(a.black.view_map().contains_key(k));
        assert(b.black.view_map()[k] == a.black.view_map()[k]);
    }
    assert forall|k: State| #[trigger] b.white.view_map().contains_key(k) implies b.white.view_map()[k] == scn.legal_white_spec(scn.laws, k) by {
        assert(a.white.view_map().contains_key(k));
        assert(b.white.view_map()[k] == a.white.view_map()[k]);
    }
}

/// A copy of a list of states.
fn copy_states(v: &Vec<State>) -> (r: Vec<State>)
    ensures
        r@ == v@,
{
    let mut r: Vec<State> = Vec::new();
    let mut i: usize = 0;
    while i < v.len()
        invariant
            i <= v@.len(),
            r@ == v@.take(i as int),
        decreases v@.len() - i,
    {
        r.push(v[i]);
        i += 1;
        proof {
            assert(r@ =~= v@.take(i as int));
        }
    }
    proof {
        assert(v@.take(v@.len() as int) =~= v@);
    }
    r
}

/// `e` reports the exploration queue outgrowing `max_queue`.
pub open spec fn queue_overflow(max_queue: usize, e: SearchError) -> bool {
    match e {
        SearchError::LimitExceeded { limit, observed, .. } => limit == max_queue as u64 && observed >= limit,
        _ => false,
    }
}

/// The candidate generation asks for something the search cannot do: a box without the
/// absolute king anchor or with a bound outside `0..=2^28-1`, or a reachable exploration with
/// an empty queue or a state budget at `u64::MAX`.
pub open spec fn candidates_invalid<D, L: LawsLike, P>(scn: Scenario<D, L, P>) -> bool {
    match scn.candidates {
        CandidateGeneration::InAbsBox { bound, .. } => !scn.track_abs_king || bound < 0 || bound > 0x0fff_ffff,
        CandidateGeneration::ReachableFromStart { max_queue } => max_queue == 0 || scn.limits.max_states as u64 == u64::MAX,
        _ => false,
    }
}

/// An explicit start list holds a state off the origin although the scenario does not track
/// the absolute king.
pub open spec fn anchors_invalid<D, L: LawsLike, P>(scn: Scenario<D, L, P>) -> bool {
    match scn.candidates {
        CandidateGeneration::FromStates { states } => !scn.track_abs_king
            && exists|i: int| 0 <= i < states@.len() && #[trigger] states@[i].abs_king != (Coord { x: 0, y: 0 }),
        _ => false,
    }
}

/// The cache mode keeps black move lists.
pub open spec fn caches_black<D, L: LawsLike, P>(scn: Scenario<D, L, P>) -> bool {
    scn.cache_mode == CacheMode::BlackOnly || scn.cache_mode == CacheMode::BothBounded
}

/// Cache of move lists during trap pruning, bounded by the cache budgets.
struct MoveCache {
    black: StateLists,
    white: StateLists,
}

impl MoveCache {
    /// Every cached list is the list of legal moves of its state.
    spec fn ok<D, L: LawsLike, P>(&self, scn: Scenario<D, L, P>) -> bool {
        &&& forall|k: State| #[trigger] self.black.view_map().contains_key(k) ==> {
            &&& self.black.view_map()[k] == scn.legal_black_spec(scn.laws, k)
            &&& forall|i: int| 0 <= i < self.black.view_map()[k].len() ==> scn.white_state_fits(#[trigger] self.black.view_map()[k][i])
        }
        &&& forall|k: State| #[trigger] self.white.view_map().contains_key(k) ==> self.white.view_map()[k] == scn.legal_white_spec(scn.laws, k)
    }

    fn new() -> (c: MoveCache)
        ensures
            c.black.view_map().dom() == Set::<State>::empty(),
            c.white.view_map().dom() == Set::<State>::empty(),
    {
        MoveCache { black: StateLists::new(), white: StateLists::new() }
    }

    /// The legal black moves of `s`, from the cache when the cache mode keeps black moves.
    fn black_moves<D: DomainLike, L: LawsLike, P>(
        &mut self,
        scn: &Scenario<D, L, P>,
        tracker: &mut ResourceTracker,
        s: &State,
    ) -> (r: Result<Vec<State>, SearchError>)
        requires
            scn.valid_spec(),
            scn.state_fits(*s),
            old(self).ok(*scn),
        ensures
            final(self).ok(*scn),
            final(tracker).limits_spec() == old(tracker).limits_spec(),
            r is Ok ==> r->Ok_0@ == scn.legal_black_spec(scn.laws, *s),
            r is Ok ==> forall|i: int| 0 <= i < r->Ok_0@.len() ==> scn.white_state_fits(#[trigger] r->Ok_0@[i]),
            r is Err ==> over_budget_or_alloc(old(tracker).limits_spec(), r->Err_0) || over_budget(scn.limits, r->Err_0),
            !caches_black(*scn) ==> edges_counted(*old(tracker), *final(tracker), "movegen_black",
                scn.legal_black_spec(scn.laws, *s).len(), moves_view(r), scn.legal_black_spec(scn.laws, *s)),
            caches_black(*scn) && old(self).black.view_map().contains_key(*s) ==> r is Ok && *final(tracker) == *old(tracker),
    {
        let do_cache = scn.cache_mode == CacheMode::BlackOnly || scn.cache_mode == CacheMode::BothBounded;
        if do_cache {
            if let Some(v) = self.black.get(s) {
                proof {
                    assert(self.black.view_map().contains_key(*s));
                    assert(v@ == scn.legal_black_spec(scn.laws, *s));
                }
                return Ok(v);
            }
        }
        let moves = legal_black_moves(scn, &scn.laws, s, tracker)?;
        if do_cache {
            self.evict_to_fit(scn, tracker, 1, moves.len())?;
            tracker.try_reserve_map("cache_black", "black_move_cache", &mut self.black, 1)?;
            tracker.bump_cache_entries("cache_black", 1)?;
            tracker.bump_cached_moves("cache_black", moves.len())?;
            self.black.insert(*s, copy_states(&moves));
        }
        Ok(moves)
    }

    /// The legal white moves of `s`, from the cache when the cache mode keeps white moves.
    fn white_moves<D: DomainLike, L: LawsLike, P>(
        &mut self,
        scn: &Scenario<D, L, P>,
        tracker: &mut ResourceTracker,
        s: &State,
    ) -> (r: Result<Vec<State>, SearchError>)
        requires
            scn.valid_spec(),
            scn.white_state_fits(*s),
            old(self).ok(*scn),
        ensures
            final(self).ok(*scn),
            final(tracker).limits_spec() == old(tracker).limits_spec(),
            r is Ok ==> r->Ok_0@ == scn.legal_white_spec(scn.laws, *s),
            r is Err ==> over_budget_or_alloc(old(tracker).limits_spec(), r->Err_0) || over_budget(scn.limits, r->Err_0),
            scn.cache_mode != CacheMode::BothBounded ==> edges_counted(*old(tracker), *final(tracker), "movegen_white",
                scn.legal_white_spec(scn.laws, *s).len(), moves_view(r), scn.legal_white_spec(scn.laws, *s)),
            scn.cache_mode == CacheMode::BothBounded && old(self).white.view_map().contains_key(*s) ==> r is Ok
                && *final(tracker) == *old(tracker),
    {
        let do_cache = scn.cache_mode == CacheMode::BothBounded;
        if do_cache {
            if let Some(v) = self.white.get(s) {
                proof {
                    assert(self.white.view_map().contains_key(*s));
                    assert(v@ == scn.legal_white_spec(scn.laws, *s));
                }
                return Ok(v);
            }
        }
        let moves = legal_white_moves(scn, &scn.laws, s, tracker)?;
        if do_cache {
            self.evict_to_fit(scn, tracker, 1, moves.len())?;
            tracker.try_reserve_map("cache_white", "white_move_cache", &mut self.white, 1)?;
            tracker.bump_cache_entries("cache_white", 1)?;
            tracker.bump_cached_moves("cache_white", moves.len())?;
            self.white.insert(*s, copy_states(&moves));
        }
        Ok(moves)
    }

    /// Evicts entries until `add_entries` more entries and `add_moves` more moves fit the cache
    /// budgets; fails when they cannot fit even in an empty cache, or when the cache is empty
    /// and they still do not fit.
    fn evict_to_fit<D, L: LawsLike, P>(
        &mut self,
        scn: &Scenario<D, L, P>,
        tracker: &mut ResourceTracker,
        add_entries: usize,
        add_moves: usize,
    ) -> (r: Result<(), SearchError>)
        requires
            old(self).ok(*scn),
        ensures
            final(self).ok(*scn),
            final(tracker).limits_spec() == old(tracker).limits_spec(),
            r is Ok ==> final(tracker).counts_spec().cache_entries + add_entries <= scn.limits.max_cache_entries
                && final(tracker).counts_spec().cached_moves + add_moves <= scn.limits.max_cached_moves,
            r is Err ==> over_budget(scn.limits, r->Err_0) && (add_entries > scn.limits.max_cache_entries
                || add_moves > scn.limits.max_cached_moves
                || (final(self).black.view_map().dom() == Set::<State>::empty()
                    && final(self).white.view_map().dom() == Set::<State>::empty())),
    {
        let counts = tracker.counts();
        let max_entries = scn.limits.max_cache_entries as u64;
        let max_moves = scn.limits.max_cached_moves as u64;
        let need_entries = add_entries as u64;
        let need_moves = add_moves as u64;
        if need_entries > max_entries {
            return Err(SearchError::LimitExceeded {
                stage: "cache",
                metric: "cache_entries",
                limit: max_entries,
                observed: need_entries,
                counts,
            });
        }
        if need_moves > max_moves {
            return Err(SearchError::LimitExceeded {
                stage: "cache",
                metric: "cached_moves",
                limit: max_moves,
                observed: need_moves,
                counts,
            });
        }
        loop
            invariant
                self.ok(*scn),
                tracker.limits_spec() == old(tracker).limits_spec(),
                need_entries <= max_entries,
                need_moves <= max_moves,
                max_entries == scn.limits.max_cache_entries,
                max_moves == scn.limits.max_cached_moves,
                need_entries == add_entries,
                need_moves == add_moves,
            ensures
                (tracker.counts_spec().cache_entries <= max_entries - need_entries
                    && tracker.counts_spec().cached_moves <= max_moves - need_moves)
                || (self.black.view_map().dom() == Set::<State>::empty()
                    && self.white.view_map().dom() == Set::<State>::empty()),
            decreases self.black.view_map().dom().len() + self.white.view_map().dom().len(),
        {
            let c = tracker.counts();
            if c.cache_entries <= max_entries - need_entries && c.cached_moves <= max_moves - need_moves {
                break;
            }
            let ghost before = *self;
            let evicted = self.evict_one(tracker);
            proof {
                lemma_cache_shrinks(*scn, before, *self);
            }
            if !evicted {
                break;
            }
        }
        let c = tracker.counts();
        if c.cache_entries > max_entries - need_entries {
            return Err(SearchError::LimitExceeded {
                stage: "cache",
                metric: "cache_entries",
                limit: max_entries,
                observed: c.cache_entries.saturating_add(need_entries),
                counts: c,
            });
        }
        if c.cached_moves > max_moves - need_moves {
            return Err(SearchError::LimitExceeded {
                stage: "cache",
                metric: "cached_moves",
                limit: max_moves,
                observed: c.cached_moves.saturating_add(need_moves),
                counts: c,
            });
        }
        Ok(())
    }

    /// Evicts one entry (a black list first), releasing its counts; false when the cache is
    /// empty.
    fn evict_one(&mut self, tracker: &mut ResourceTracker) -> (b: bool)
        ensures
            final(tracker).limits_spec() == old(tracker).limits_spec(),
            final(self).black.view_map().submap_of(old(self).black.view_map()),
            final(self).white.view_map().submap_of(old(self).white.view_map()),
            old(self).black.view_map().dom().finite(),
            old(self).white.view_map().dom().finite(),
            b ==> final(self).black.view_map().dom().len() + final(self).white.view_map().dom().len()
                < old(self).black.view_map().dom().len() + old(self).white.view_map().dom().len(),
            !b ==> old(self).black.view_map().dom() == Set::<State>::empty()
                && old(self).white.view_map().dom() == Set::<State>::empty(),
    {
        let nb = self.black.len();
        let nw = self.white.len();
        if let Some((k, n)) = self.black.any_entry() {
            self.black.remove(&k);
            tracker.dec_cache_entries(1);
            tracker.dec_cached_moves(n);
            proof {
                assert(self.black.view_map().dom() =~= old(self).black.view_map().dom().remove(k));
            }
            return true;
        }
        if let Some((k, n)) = self.white.any_entry() {
            self.white.remove(&k);
            tracker.dec_cache_entries(1);
            tracker.dec_cached_moves(n);
            proof {
                assert(self.white.view_map().dom() =~= old(self).white.view_map().dom().remove(k));
            }
            return true;
        }
        false
    }
}

/// Compute the maximal inescapable trap inside the scenario's candidate set.
///
/// On success the result is a set `r` of black-to-move states for which some candidate set
/// `c` (each of whose states passes the candidate filters) has `r` as its greatest
/// inescapable subset.
pub fn maximal_inescapable_trap<D: DomainLike, L: LawsLike, P>(scn: &Scenario<D, L, P>) -> (r: Result<StateSet, SearchError>)
    ensures
        !scn.valid_spec() ==> r is Err && r->Err_0 is InvalidScenario,
        scn.valid_spec() && candidates_invalid(*scn) ==> r is Err && r->Err_0 is InvalidScenario,
        r is Err ==> over_budget_or_alloc(scn.limits, r->Err_0)
            || (r->Err_0 is InvalidScenario && (!scn.valid_spec() || candidates_invalid(*scn) || anchors_invalid(*scn)))
            || (scn.candidates matches CandidateGeneration::ReachableFromStart { max_queue }
                && queue_overflow(max_queue, r->Err_0)),
        r is Ok ==> exists|c: Set<State>| {
            &&& all_generated(*scn, c)
            &&& scn.candidates_complete(c)
            &&& scn.greatest_trap_in(c, #[trigger] r->Ok_0.view_set())
        },
{
    scn.validate()?;
    let mut tracker = ResourceTracker::new(scn.limits);
    let mut trap = initial_candidate_set(scn, &mut tracker)?;
    let ghost cands = trap.view_set();
    let mut cache = MoveCache::new();
    loop
        invariant
            scn.valid_spec(),
            !candidates_invalid(*scn),
            tracker.limits_spec() == scn.limits,
            cache.ok(*scn),
            all_generated(*scn, cands),
            scn.candidates_complete(cands),
            trap.view_set().subset_of(cands),
            forall|s: Set<State>| #[trigger] s.subset_of(cands) && scn.inescapable(s) ==> s.subset_of(trap.view_set()),
        ensures
            scn.inescapable(trap.view_set()),
        decreases trap.view_set().len(),
    {
        tracker.bump_steps("trap_prune_iter", 1)?;
        let members = trap.to_vec();
        let mut to_remove: Vec<State> = Vec::new();
        let mut k: usize = 0;
        while k < members.len()
            invariant
                k <= members@.len(),
                scn.valid_spec(),
                !candidates_invalid(*scn),
                tracker.limits_spec() == scn.limits,
                cache.ok(*scn),
                all_generated(*scn, cands),
                trap.view_set().subset_of(cands),
                members@.to_set() == trap.view_set(),
                members@.no_duplicates(),
                to_remove@.len() <= k,
                forall|i: int| 0 <= i < to_remove@.len() ==> #[trigger] scn.escapes(trap.view_set(), to_remove@[i])
                    && trap.view_set().contains(to_remove@[i]),
                forall|i: int| 0 <= i < to_remove@.len() ==> exists|j: int| 0 <= j < k && members@[j] == #[trigger] to_remove@[i],
                forall|i1: int, i2: int| 0 <= i1 < i2 < to_remove@.len() ==> #[trigger] to_remove@[i1] != #[trigger] to_remove@[i2],
                forall|j: int| 0 <= j < k ==> to_remove@.contains(#[trigger] members@[j]) || !scn.escapes(trap.view_set(), members@[j]),
            decreases members@.len() - k,
        {
            tracker.bump_steps("trap_prune_scan", 1)?;
            let p = members[k];
            proof {
                assert(members@.to_set().contains(p));
                assert(scn.generated(p));
            }
            let fails = escape_move(scn, &mut tracker, &mut cache, &trap, &p)?;
            let ghost old_rem = to_remove@;
            if fails {
                proof {
                    assert forall|i: int| 0 <= i < to_remove@.len() implies #[trigger] to_remove@[i] != p by {
                        let j = choose|j: int| 0 <= j < k && members@[j] == to_remove@[i];
                        assert(members@[j] != members@[k as int]);
                    }
                }
                to_remove.push(p);
                proof {
                    assert(to_remove@[to_remove@.len() - 1] == p);
                    assert forall|j: int| 0 <= j < k + 1 implies to_remove@.contains(#[trigger] members@[j]) || !scn.escapes(trap.view_set(), members@[j]) by {
                        if j < k && old_rem.contains(members@[j]) {
                            let a = choose|a: int| 0 <= a < old_rem.len() && old_rem[a] == members@[j];
                            assert(to_remove@[a] == members@[j]);
                        }
                        if j == k {
                            assert(to_remove@[to_remove@.len() - 1] == members@[j]);
                        }
                    }
                    assert forall|i: int| 0 <= i < to_remove@.len() implies exists|j: int| 0 <= j < k + 1 && members@[j] == #[trigger] to_remove@[i] by {
                        if i < old_rem.len() {
                            assert(to_remove@[i] == old_rem[i]);
                            let j = choose|j: int| 0 <= j < k && members@[j] == old_rem[i];
                        } else {
                            assert(members@[k as int] == to_remove@[i]);
                        }
                    }
                }
            }
            k += 1;
        }
        if to_remove.len() == 0 {
            proof {
                assert forall|p: State| #[trigger] trap.view_set().contains(p) implies !scn.escapes(trap.view_set(), p) by {
                    assert(members@.to_set().contains(p));
                    let j = choose|j: int| 0 <= j < members@.len() && members@[j] == p;
                    assert(to_remove@.contains(members@[j]) || !scn.escapes(trap.view_set(), members@[j]));
                }
            }
            break;
        }
        let ghost before = trap.view_set();
        proof {
            assert(before.finite());
        }
        let mut i: usize = 0;
        while i < to_remove.len()
            invariant
                i <= to_remove@.len(),
                to_remove@.len() > 0,
                forall|x: State| #[trigger] trap.view_set().contains(x) <==> (before.contains(x) && !to_remove@.take(i as int).contains(x)),
            decreases to_remove@.len() - i,
        {
            let ghost prev = to_remove@.take(i as int);
            let ghost tv = trap.view_set();
            trap.remove(&to_remove[i]);
            proof {
                assert(to_remove@.take(i as int + 1) =~= prev.push(to_remove@[i as int]));
                assert forall|x: State| #[trigger] trap.view_set().contains(x) <==> (before.contains(x) && !to_remove@.take(i as int + 1).contains(x)) by {
                    assert(tv.contains(x) <==> (before.contains(x) && !prev.contains(x)));
                    let nt = to_remove@.take(i as int + 1);
                    if prev.contains(x) {
                        let a = choose|a: int| 0 <= a < prev.len() && prev[a] == x;
                        assert(nt[a] == x);
                    }
                    if nt.contains(x) {
                        let a = choose|a: int| 0 <= a < nt.len() && nt[a] == x;
                        if a < i {
                            assert(prev[a] == x);
                        }
                    }
                    if x == to_remove@[i as int] {
                        assert(nt[i as int] == x);
                    }
                }
            }
            i += 1;
        }
        proof {
            assert(to_remove@.take(to_remove@.len() as int) =~= to_remove@);
            assert(trap.view_set().subset_of(cands));
            // the first removed state was in `before` and is gone, so the set shrank
            assert(to_remove@[0] == to_remove@[0]);
            assert(to_remove@.contains(to_remove@[0]));
            assert(before.contains(to_remove@[0]) && !trap.view_set().contains(to_remove@[0]));
            vstd::set_lib::lemma_len_subset(trap.view_set().insert(to_remove@[0]), before);
            vstd::set_lib::lemma_len_subset(trap.view_set(), before);
            assert forall|s: Set<State>| #[trigger] s.subset_of(cands) && scn.inescapable(s) implies s.subset_of(trap.view_set()) by {
                assert(s.subset_of(before));
                assert forall|x: State| s.contains(x) implies trap.view_set().contains(x) by {
                    if to_remove@.contains(x) {
                        let a = choose|a: int| 0 <= a < to_remove@.len() && to_remove@[a] == x;
                        assert(scn.escapes(before, to_remove@[a]));
                        lemma_escape_monotone(*scn, s, before, x);
                        assert(!scn.escapes(s, x));
                    }
                }
            }
        }
    }
    proof {
        assert(scn.greatest_trap_in(cands, trap.view_set()));
    }
    Ok(trap)
}

/// Compute the maximal tempo trap inside an already computed inescapable trap.
///
/// A tempo trap is a Büchi objective: White must be able to stay inside the inescapable trap
/// forever and force infinitely many visits to "passable" white-to-move states. The result is
/// a subset of `inescapable` from which, after any black move, White can pass or reply into
/// the result, and it holds every subset of `inescapable` on which White wins the tempo game.
pub fn maximal_tempo_trap<D: DomainLike, L: LawsLike, P>(
    scn: &Scenario<D, L, P>,
    inescapable: &StateSet,
) -> (r: Result<StateSet, SearchError>)
    ensures
        !scn.valid_spec() ==> r is Err && r->Err_0 is InvalidScenario,
        r is Ok ==> r->Ok_0.view_set().subset_of(inescapable.view_set()),
        r is Ok ==> crate::search::buchi::tempo_step_ok(*scn, inescapable.view_set(), r->Ok_0.view_set()),
        r is Ok ==> forall|t: Set<State>| #[trigger] crate::search::buchi::tempo_winning(*scn, inescapable.view_set(), t)
            ==> t.subset_of(r->Ok_0.view_set()),
        scn.valid_spec() && !crate::search::buchi::buchi_inputs_ok(*scn, inescapable.view_set())
            ==> r is Err && r->Err_0 is InvalidScenario,
        scn.valid_spec() && crate::search::buchi::buchi_inputs_ok(*scn, inescapable.view_set())
            && inescapable.view_set().len() > scn.limits.max_states
            ==> r matches Err(SearchError::LimitExceeded { .. }),
        r is Err ==> over_budget_or_alloc(scn.limits, r->Err_0) || (r->Err_0 is InvalidScenario
            && (!scn.valid_spec() || !crate::search::buchi::buchi_inputs_ok(*scn, inescapable.view_set()))),
{
    scn.validate()?;
    crate::search::buchi::tempo_trap_buchi(scn, inescapable)
}

/// Escaping a larger set means escaping every subset of it.
pub proof fn lemma_escape_monotone<D, L: LawsLike, P>(scn: Scenario<D, L, P>, small: Set<State>, big: Set<State>, p: State)
    requires
        small.subset_of(big),
        scn.escapes(big, p),
    ensures
        scn.escapes(small, p),
{
    let i = choose|i: int|
        0 <= i < scn.legal_black_spec(scn.laws, p).len() && #[trigger] scn.no_reply_in(
            big,
            scn.legal_black_spec(scn.laws, p)[i],
        );
    assert(scn.no_reply_in(small, scn.legal_black_spec(scn.laws, p)[i]));
}

/// Does Black have a move from `p` after which White has no reply into `trap`?
fn escape_move<D: DomainLike, L: LawsLike, P>(
    scn: &Scenario<D, L, P>,
    tracker: &mut ResourceTracker,
    cache: &mut MoveCache,
    trap: &StateSet,
    p: &State,
) -> (r: Result<bool, SearchError>)
    requires
        scn.valid_spec(),
        scn.state_fits(*p),
        old(cache).ok(*scn),
    ensures
        final(cache).ok(*scn),
        final(tracker).limits_spec() == old(tracker).limits_spec(),
        r is Ok ==> r->Ok_0 == scn.escapes(trap.view_set(), *p),
        r is Err ==> over_budget_or_alloc(old(tracker).limits_spec(), r->Err_0) || over_budget(scn.limits, r->Err_0),
        scn.cache_mode == CacheMode::NoCache && r is Err ==> over_budget(old(tracker).limits_spec(), r->Err_0),
{
    let black = cache.black_moves(scn, tracker, p)?;
    let mut i: usize = 0;
    while i < black.len()
        invariant
            i <= black@.len(),
            scn.valid_spec(),
            black@ == scn.legal_black_spec(scn.laws, *p),
            forall|a: int| 0 <= a < black@.len() ==> scn.white_state_fits(#[trigger] black@[a]),
            forall|a: int| 0 <= a < i ==> !#[trigger] scn.no_reply_in(trap.view_set(), black@[a]),
            cache.ok(*scn),
            tracker.limits_spec() == old(tracker).limits_spec(),
        decreases black@.len() - i,
    {
        let replies = cache.white_moves(scn, tracker, &black[i])?;
        let mut j: usize = 0;
        let mut found = false;
        while j < replies.len()
            invariant
                j <= replies@.len(),
                i < black@.len(),
                replies@ == scn.legal_white_spec(scn.laws, black@[i as int]),
                found ==> !scn.no_reply_in(trap.view_set(), black@[i as int]),
                !found ==> forall|j2: int| 0 <= j2 < j ==> !trap.view_set().contains(#[trigger] replies@[j2]),
            ensures
                found ==> !scn.no_reply_in(trap.view_set(), black@[i as int]),
                !found ==> forall|j2: int| 0 <= j2 < replies@.len() ==> !trap.view_set().contains(#[trigger] replies@[j2]),
            decreases replies@.len() - j,
        {
            if trap.contains(&replies[j]) {
                proof {
                    assert(replies@[j as int] == scn.legal_white_spec(scn.laws, black@[i as int])[j as int]);
                }
                found = true;
                break;
            }
            j += 1;
        }
        if !found {
            proof {
                assert(scn.no_reply_in(trap.view_set(), black@[i as int]));
            }
            return Ok(true);
        }
        i += 1;
    }
    Ok(false)
}

/// Adds `s` to `set`, counting it as a new state when it was not there.
fn add_candidate(set: &mut StateSet, tracker: &mut ResourceTracker, stage: &'static str, s: State) -> (r: Result<(), SearchError>)
    ensures
        final(set).view_set() == old(set).view_set().insert(s),
        final(tracker).limits_spec() == old(tracker).limits_spec(),
        r is Err ==> over_budget(old(tracker).limits_spec(), r->Err_0),
{
    if set.insert(s) {
        tracker.bump_states(stage, 1)?;
    }
    Ok(())
}

/// The candidate filters that do not need move generation.
pub(crate) fn passes_static_filters<D: DomainLike, L: LawsLike, P>(scn: &Scenario<D, L, P>, s: &State) -> (b: bool)
    requires
        scn.valid_spec(),
    ensures
        b == (scn.state_fits(*s) && scn.laws.allows_state(*s) && scn.domain.inside_spec(*s)),
{
    let n = scn.rules.layout.piece_count();
    if !fits_layout(&s.pos, n, 0x2000_0000 - 1) || !s.abs_king.in_box(0x2000_0000) {
        return false;
    }
    scn.laws.allow_state(s) && scn.domain.inside(s)
}

/// Whether `s` is a candidate: the static filters, then the stalemate test when stalemates are
/// removed.
fn is_candidate<D: DomainLike, L: LawsLike, P>(
    scn: &Scenario<D, L, P>,
    tracker: &mut ResourceTracker,
    s: &State,
) -> (r: Result<bool, SearchError>)
    requires
        scn.valid_spec(),
    ensures
        r is Ok ==> r->Ok_0 == scn.candidate_ok(*s),
        final(tracker).limits_spec() == old(tracker).limits_spec(),
        final(tracker).counts_spec().states == old(tracker).counts_spec().states,
        r is Err ==> over_budget(old(tracker).limits_spec(), r->Err_0),
        !scn.remove_stalemates ==> r is Ok,
{
    if !passes_static_filters(scn, s) {
        return Ok(false);
    }
    if scn.remove_stalemates {
        let st = is_stalemate_with_laws(scn, &scn.laws, s, tracker)?;
        if st {
            return Ok(false);
        }
    }
    Ok(true)
}

fn initial_candidate_set<D: DomainLike, L: LawsLike, P>(
    scn: &Scenario<D, L, P>,
    tracker: &mut ResourceTracker,
) -> (r: Result<StateSet, SearchError>)
    requires
        scn.valid_spec(),
        old(tracker).limits_spec() == scn.limits,
        old(tracker).counts_spec().states == 0,
    ensures
        r is Ok ==> all_generated(*scn, r->Ok_0.view_set()) && scn.candidates_complete(r->Ok_0.view_set()),
        candidates_invalid(*scn) ==> r is Err && r->Err_0 is InvalidScenario,
        final(tracker).limits_spec() == scn.limits,
        r is Err ==> over_budget(scn.limits, r->Err_0)
            || (r->Err_0 is InvalidScenario && (candidates_invalid(*scn) || anchors_invalid(*scn)))
            || (scn.candidates matches CandidateGeneration::ReachableFromStart { max_queue }
                && queue_overflow(max_queue, r->Err_0)),
{
    let mut trap = StateSet::new();
    proof {
        use_type_invariant(&scn.rules.layout);
    }
    match &scn.candidates {
        CandidateGeneration::InLinfBound { bound, allow_captures } => {
            let bound = *bound;
            let allow_captures = *allow_captures;
            let positions = enumerate_positions_in_bound(&scn.rules.layout, bound, allow_captures);
            let mut i: usize = 0;
            while i < positions.len()
                invariant
                    tracker.limits_spec() == scn.limits,
                    i <= positions@.len(),
                    scn.valid_spec(),
                    scn.candidates matches CandidateGeneration::InLinfBound { bound: b, allow_captures: a }
                        && b == bound && a == allow_captures,
                    forall|j: int| 0 <= j < positions@.len() ==> enumerated_ok(scn.rules.layout, bound as int, allow_captures, #[trigger] positions@[j]),
                    forall|p: crate::board::position::Position| #[trigger] enumerated_ok(scn.rules.layout, bound as int, allow_captures, p)
                        ==> positions@.contains(p),
                    all_generated(*scn, trap.view_set()),
                    forall|j: int| 0 <= j < i && #[trigger] scn.legal_candidate(State { abs_king: Coord { x: 0, y: 0 }, pos: positions@[j] })
                        ==> trap.view_set().contains(State { abs_king: Coord { x: 0, y: 0 }, pos: positions@[j] }),
                decreases positions@.len() - i,
            {
                let pos = positions[i];
                let s = State { abs_king: Coord::origin(), pos };
                proof {
                    reveal(enumerated_ok);
                }
                if is_legal_candidate(scn, tracker, &s)? {
                    add_candidate(&mut trap, tracker, "candidates_in_bound", s)?;
                }
                i += 1;
            }
            proof {
                assert forall|s: State| #[trigger] scn.legal_candidate(s) && s.abs_king == (Coord { x: 0, y: 0 })
                    && enumerated_ok(scn.rules.layout, bound as int, allow_captures, s.pos) implies trap.view_set().contains(s) by {
                    let j = choose|j: int| 0 <= j < positions@.len() && positions@[j] == s.pos;
                    assert(s == State { abs_king: Coord { x: 0, y: 0 }, pos: positions@[j] });
                }
            }
        },
        CandidateGeneration::InAbsBox { bound, allow_captures } => {
            if !scn.track_abs_king {
                return Err(invalid("InBox candidate generation requires track_abs_king=true"));
            }
            let bound = *bound;
            let allow_captures = *allow_captures;
            if bound < 0 || bound > 0x0fff_ffff {
                return Err(invalid("InAbsBox candidate generation needs a bound in 0..=2^28-1"));
            }
            let states = crate::search::universe::states_in_abs_box(&scn.rules.layout, bound, allow_captures);
            let mut i: usize = 0;
            while i < states.len()
                invariant
                    tracker.limits_spec() == scn.limits,
                    scn.track_abs_king && 0 <= bound <= 0x0fff_ffff,
                    i <= states@.len(),
                    scn.valid_spec(),
                    scn.candidates matches CandidateGeneration::InAbsBox { bound: b, allow_captures: a }
                        && b == bound && a == allow_captures,
                    forall|j: int| 0 <= j < states@.len() ==> crate::search::universe::abs_box_ok(scn.rules.layout, bound as int, allow_captures, #[trigger] states@[j]),
                    forall|t: State| #[trigger] crate::search::universe::abs_box_ok(scn.rules.layout, bound as int, allow_captures, t)
                        ==> states@.contains(t),
                    all_generated(*scn, trap.view_set()),
                    forall|j: int| 0 <= j < i && #[trigger] scn.legal_candidate(states@[j]) ==> trap.view_set().contains(states@[j]),
                decreases states@.len() - i,
            {
                let s = states[i];
                if is_legal_candidate(scn, tracker, &s)? {
                    add_candidate(&mut trap, tracker, "candidates_in_abs_box", s)?;
                }
                i += 1;
            }
            proof {
                assert forall|s: State| #[trigger] scn.legal_candidate(s)
                    && crate::search::universe::abs_box_ok(scn.rules.layout, bound as int, allow_captures, s) implies trap.view_set().contains(s) by {
                    let j = choose|j: int| 0 <= j < states@.len() && states@[j] == s;
                    assert(scn.legal_candidate(states@[j]));
                }
            }
        },
        CandidateGeneration::FromStates { states } => {
            let mut i: usize = 0;
            while i < states.len()
                invariant
                    tracker.limits_spec() == scn.limits,
                    i <= states@.len(),
                    scn.valid_spec(),
                    scn.candidates matches CandidateGeneration::FromStates { states: st } && st@ == states@,
                    all_generated(*scn, trap.view_set()),
                    forall|j: int| 0 <= j < i && #[trigger] scn.legal_candidate(scn.from_state(states@[j]))
                        ==> trap.view_set().contains(scn.from_state(states@[j])),
                decreases states@.len() - i,
            {
                let s0 = states[i];
                if !scn.track_abs_king && !(s0.abs_king == Coord::origin()) {
                    return Err(invalid("track_abs_king=false requires abs_king==ORIGIN for FromStates"));
                }
                let mut pos = s0.pos;
                pos.canonicalize(&scn.rules.layout);
                let s = State { abs_king: s0.abs_king, pos };
                proof {
                    crate::board::position::lemma_position_of(pos);
                    assert(s == scn.from_state(states@[i as int]));
                }
                if is_legal_candidate(scn, tracker, &s)? {
                    add_candidate(&mut trap, tracker, "candidates_from_states", s)?;
                }
                i += 1;
            }
        },
        CandidateGeneration::ReachableFromStart { max_queue } => {
            let max_queue = *max_queue;
            if max_queue == 0 {
                return Err(invalid("ReachableFromStart requires max_queue > 0"));
            }
            explore_reachable(scn, tracker, max_queue, &mut trap)?;
        },
    }
    Ok(trap)
}

/// Whether `s` is a structurally legal candidate.
fn is_legal_candidate<D: DomainLike, L: LawsLike, P>(
    scn: &Scenario<D, L, P>,
    tracker: &mut ResourceTracker,
    s: &State,
) -> (r: Result<bool, SearchError>)
    requires
        scn.valid_spec(),
    ensures
        r is Ok ==> r->Ok_0 == scn.legal_candidate(*s),
        final(tracker).limits_spec() == old(tracker).limits_spec(),
        r is Err ==> over_budget(old(tracker).limits_spec(), r->Err_0),
        !scn.remove_stalemates ==> r is Ok,
{
    if !passes_static_filters(scn, s) {
        return Ok(false);
    }
    proof {
        use_type_invariant(&scn.rules.layout);
    }
    if !scn.rules.is_legal_position(&s.pos) {
        return Ok(false);
    }
    is_candidate(scn, tracker, s)
}

/// The breadth-first exploration of `ReachableFromStart`.
fn explore_reachable<D: DomainLike, L: LawsLike, P>(
    scn: &Scenario<D, L, P>,
    tracker: &mut ResourceTracker,
    max_queue: usize,
    trap: &mut StateSet,
) -> (r: Result<(), SearchError>)
    requires
        scn.valid_spec(),
        scn.candidates is ReachableFromStart,
        old(trap).view_set() == Set::<State>::empty(),
        old(tracker).limits_spec() == scn.limits,
        old(tracker).counts_spec().states == 0,
    ensures
        r is Ok ==> all_generated(*scn, final(trap).view_set()) && scn.candidates_complete(final(trap).view_set()),
        scn.limits.max_states as u64 == u64::MAX ==> r is Err && r->Err_0 is InvalidScenario,
        final(tracker).limits_spec() == scn.limits,
        r is Err ==> over_budget(scn.limits, r->Err_0) || queue_overflow(max_queue, r->Err_0)
            || (r->Err_0 is InvalidScenario && scn.limits.max_states as u64 == u64::MAX),
{
    if scn.limits.max_states as u64 == u64::MAX {
        return Err(invalid("ReachableFromStart needs max_states below u64::MAX"));
    }
    let mut q: VecDeque<State> = VecDeque::new();
    match scn.start.to_move {
        Side::Black => {
            try_add_reachable_b(scn, tracker, max_queue, trap, &mut q, scn.start.state)?;
            proof {
                if scn.candidate_ok(scn.start.state) {
                    assert(q@[0] == scn.start.state);
                }
                assert forall|t: State| #[trigger] trap.view_set().contains(t) implies q@.contains(t) by {
                    assert(t == scn.start.state);
                    assert(q@[0] == t);
                }
            }
        },
        Side::White => {
            let moves = legal_white_moves(scn, &scn.laws, &scn.start.state, tracker)?;
            let mut i: usize = 0;
            while i < moves.len()
                invariant
                    i <= moves@.len(),
                    scn.valid_spec(),
                    scn.candidates is ReachableFromStart,
                    scn.start.to_move == Side::White,
                    moves@ == scn.legal_white_spec(scn.laws, scn.start.state),
                    all_generated(*scn, trap.view_set()),
                    tracker.limits_spec() == scn.limits,
                    tracker.counts_spec().states <= scn.limits.max_states,
                    scn.limits.max_states < u64::MAX,
                    forall|a: int| 0 <= a < q@.len() ==> #[trigger] trap.view_set().contains(q@[a]),
                    forall|t: State| #[trigger] trap.view_set().contains(t) ==> q@.contains(t),
                    forall|j: int| 0 <= j < i && scn.candidate_ok(#[trigger] moves@[j]) ==> trap.view_set().contains(moves@[j]),
                decreases moves@.len() - i,
            {
                let ghost old_set = trap.view_set();
                let ghost old_q = q@;
                try_add_reachable_b(scn, tracker, max_queue, trap, &mut q, moves[i])?;
                proof {
                    assert forall|t: State| #[trigger] trap.view_set().contains(t) implies q@.contains(t) by {
                        if old_set.contains(t) {
                            let a = choose|a: int| 0 <= a < old_q.len() && old_q[a] == t;
                            assert(q@[a] == t);
                        } else {
                            assert(q@[q@.len() - 1] == t);
                        }
                    }
                    assert forall|a: int| 0 <= a < q@.len() implies #[trigger] trap.view_set().contains(q@[a]) by {
                        if a < old_q.len() {
                            assert(q@[a] == old_q[a]);
                        }
                    }
                }
                i += 1;
            }
        },
    }
    // Every state of the set is either queued or expanded; expanded states have all their
    // candidate successors in the set.
    let ghost mut expanded: Set<State> = Set::empty();
    loop
        invariant
            scn.valid_spec(),
            scn.candidates is ReachableFromStart,
            tracker.limits_spec() == scn.limits,
            tracker.counts_spec().states <= scn.limits.max_states,
            scn.limits.max_states < u64::MAX,
            all_generated(*scn, trap.view_set()),
            forall|a: int| 0 <= a < q@.len() ==> #[trigger] trap.view_set().contains(q@[a]),
            forall|s: State| #[trigger] trap.view_set().contains(s) ==> expanded.contains(s) || q@.contains(s),
            expanded.subset_of(trap.view_set()),
            forall|b: State| #[trigger] expanded.contains(b) ==> succ_closed(*scn, trap.view_set(), b),
            start_seeded(*scn, trap.view_set()),
        ensures
            q@.len() == 0,
        decreases scn.limits.max_states - tracker.counts_spec().states + q@.len(),
    {
        let ghost q_before = q@;
        let b = match q.pop_front() {
            Some(b) => b,
            None => {
                break;
            },
        };
        let ghost measure: int = scn.limits.max_states - tracker.counts_spec().states + q@.len();
        proof {
            assert(q_before.len() > 0);
            assert(b == q_before[0]);
            assert(q@ == q_before.subrange(1, q_before.len() as int));
            assert(trap.view_set().contains(q_before[0]));
            assert(scn.generated(b));
            assert forall|t: State| #[trigger] trap.view_set().contains(t) implies expanded.contains(t) || q@.contains(t) || t == b by {
                if !expanded.contains(t) {
                    assert(q_before.contains(t));
                    let a = choose|a: int| 0 <= a < q_before.len() && q_before[a] == t;
                    if a > 0 {
                        assert(q@[a - 1] == t);
                    }
                }
            }
            assert forall|a: int| 0 <= a < q@.len() implies #[trigger] trap.view_set().contains(q@[a]) by {
                assert(q@[a] == q_before[a + 1]);
            }
        }
        tracker.bump_steps("candidates_reachable_scan", 1)?;
        let after_black = legal_black_moves(scn, &scn.laws, &b, tracker)?;
        let mut i: usize = 0;
        while i < after_black.len()
            invariant
                i <= after_black@.len(),
                scn.valid_spec(),
                scn.candidates is ReachableFromStart,
                tracker.limits_spec() == scn.limits,
                tracker.counts_spec().states <= scn.limits.max_states,
                scn.limits.max_states < u64::MAX,
                scn.limits.max_states - tracker.counts_spec().states + q@.len() <= measure,
                after_black@ == scn.legal_black_spec(scn.laws, b),
                forall|a: int| 0 <= a < after_black@.len() ==> scn.white_state_fits(#[trigger] after_black@[a]),
                all_generated(*scn, trap.view_set()),
                trap.view_set().contains(b),
                forall|a: int| 0 <= a < q@.len() ==> #[trigger] trap.view_set().contains(q@[a]),
                forall|s: State| #[trigger] trap.view_set().contains(s) ==> expanded.contains(s) || q@.contains(s) || s == b,
                expanded.subset_of(trap.view_set()),
                forall|c: State| #[trigger] expanded.contains(c) ==> succ_closed(*scn, trap.view_set(), c),
                forall|a: int, j: int|
                    0 <= a < i && 0 <= j < scn.legal_white_spec(scn.laws, after_black@[a]).len()
                        && scn.candidate_ok(#[trigger] scn.legal_white_spec(scn.laws, after_black@[a])[j])
                        ==> trap.view_set().contains(scn.legal_white_spec(scn.laws, after_black@[a])[j]),
                start_seeded(*scn, trap.view_set()),
            decreases after_black@.len() - i,
        {
            let replies = legal_white_moves(scn, &scn.laws, &after_black[i], tracker)?;
            let mut j: usize = 0;
            while j < replies.len()
                invariant
                    j <= replies@.len(),
                    i < after_black@.len(),
                    scn.valid_spec(),
                    scn.candidates is ReachableFromStart,
                    tracker.limits_spec() == scn.limits,
                    tracker.counts_spec().states <= scn.limits.max_states,
                    scn.limits.max_states < u64::MAX,
                    scn.limits.max_states - tracker.counts_spec().states + q@.len() <= measure,
                    replies@ == scn.legal_white_spec(scn.laws, after_black@[i as int]),
                    all_generated(*scn, trap.view_set()),
                    trap.view_set().contains(b),
                    forall|a: int| 0 <= a < q@.len() ==> #[trigger] trap.view_set().contains(q@[a]),
                    forall|s: State| #[trigger] trap.view_set().contains(s) ==> expanded.contains(s) || q@.contains(s) || s == b,
                    expanded.subset_of(trap.view_set()),
                    forall|c: State| #[trigger] expanded.contains(c) ==> succ_closed(*scn, trap.view_set(), c),
                    forall|a: int, j2: int|
                        0 <= a < i && 0 <= j2 < scn.legal_white_spec(scn.laws, after_black@[a]).len()
                            && scn.candidate_ok(#[trigger] scn.legal_white_spec(scn.laws, after_black@[a])[j2])
                            ==> trap.view_set().contains(scn.legal_white_spec(scn.laws, after_black@[a])[j2]),
                    forall|j2: int| 0 <= j2 < j && scn.candidate_ok(#[trigger] replies@[j2]) ==> trap.view_set().contains(replies@[j2]),
                    start_seeded(*scn, trap.view_set()),
                decreases replies@.len() - j,
            {
                let ghost old_set = trap.view_set();
                let ghost old_q = q@;
                try_add_reachable_b(scn, tracker, max_queue, trap, &mut q, replies[j])?;
                proof {
                    assert(old_set.subset_of(trap.view_set()));
                    lemma_succ_closed_grows(*scn, expanded, old_set, trap.view_set());
                    lemma_seeded_grows(*scn, old_set, trap.view_set());
                    assert forall|s: State| #[trigger] trap.view_set().contains(s) implies expanded.contains(s) || q@.contains(s) || s == b by {
                        if old_set.contains(s) {
                            if old_q.contains(s) {
                                let a = choose|a: int| 0 <= a < old_q.len() && old_q[a] == s;
                                assert(q@[a] == s);
                            }
                        } else {
                            assert(s == replies@[j as int]);
                            assert(q@[q@.len() - 1] == s);
                        }
                    }
                }
                j += 1;
            }
            i += 1;
        }
        proof {
            assert(succ_closed(*scn, trap.view_set(), b));
            expanded = expanded.insert(b);
        }
    }
    Ok(())
}

/// Every candidate reached from `b` by a black move and a white reply is in `t`.
pub open spec fn succ_closed<D: DomainLike, L: LawsLike, P>(scn: Scenario<D, L, P>, t: Set<State>, b: State) -> bool {
    forall|i: int, j: int|
        0 <= i < scn.legal_black_spec(scn.laws, b).len()
            && 0 <= j < scn.legal_white_spec(scn.laws, scn.legal_black_spec(scn.laws, b)[i]).len()
            && scn.candidate_ok(#[trigger] scn.legal_white_spec(scn.laws, scn.legal_black_spec(scn.laws, b)[i])[j])
            ==> t.contains(scn.legal_white_spec(scn.laws, scn.legal_black_spec(scn.laws, b)[i])[j])
}

/// The states the exploration starts from are in `t` when they are candidates.
pub open spec fn start_seeded<D: DomainLike, L: LawsLike, P>(scn: Scenario<D, L, P>, t: Set<State>) -> bool {
    match scn.start.to_move {
        Side::Black => scn.candidate_ok(scn.start.state) ==> t.contains(scn.start.state),
        Side::White => forall|j: int|
            0 <= j < scn.legal_white_spec(scn.laws, scn.start.state).len()
                && scn.candidate_ok(#[trigger] scn.legal_white_spec(scn.laws, scn.start.state)[j])
                ==> t.contains(scn.legal_white_spec(scn.laws, scn.start.state)[j]),
    }
}

proof fn lemma_succ_closed_grows<D: DomainLike, L: LawsLike, P>(scn: Scenario<D, L, P>, expanded: Set<State>, a: Set<State>, b: Set<State>)
    requires
        a.subset_of(b),
        forall|c: State| #[trigger] expanded.contains(c) ==> succ_closed(scn, a, c),
    ensures
        forall|c: State| #[trigger] expanded.contains(c) ==> succ_closed(scn, b, c),
{
}

proof fn lemma_seeded_grows<D: DomainLike, L: LawsLike, P>(scn: Scenario<D, L, P>, a: Set<State>, b: Set<State>)
    requires
        a.subset_of(b),
        start_seeded(scn, a),
    ensures
        start_seeded(scn, b),
{
}

fn try_add_reachable_b<D: DomainLike, L: LawsLike, P>(
    scn: &Scenario<D, L, P>,
    tracker: &mut ResourceTracker,
    max_queue: usize,
    trap: &mut StateSet,
    q: &mut VecDeque<State>,
    b: State,
) -> (r: Result<(), SearchError>)
    requires
        scn.valid_spec(),
        all_generated(*scn, old(trap).view_set()),
        scn.candidates is ReachableFromStart,
        old(tracker).counts_spec().states <= old(tracker).limits_spec().max_states,
        old(tracker).limits_spec().max_states < u64::MAX,
    ensures
        final(tracker).limits_spec() == old(tracker).limits_spec(),
        r is Err ==> over_budget(old(tracker).limits_spec(), r->Err_0)
            || (queue_overflow(max_queue, r->Err_0) && old(q)@.len() >= max_queue),
        r is Ok ==> {
            &&& all_generated(*scn, final(trap).view_set())
            &&& final(tracker).counts_spec().states <= old(tracker).limits_spec().max_states
            &&& (if scn.candidate_ok(b) && !old(trap).view_set().contains(b) {
                final(tracker).counts_spec().states == old(tracker).counts_spec().states + 1
            } else {
                final(tracker).counts_spec().states == old(tracker).counts_spec().states
            })
            &&& (scn.candidate_ok(b) ==> final(trap).view_set() == old(trap).view_set().insert(b))
            &&& (!scn.candidate_ok(b) ==> final(trap).view_set() == old(trap).view_set())
            &&& (if scn.candidate_ok(b) && !old(trap).view_set().contains(b) {
                final(q)@ == old(q)@.push(b)
            } else {
                final(q)@ == old(q)@
            })
        },
{
    let ok = is_candidate(scn, tracker, &b)?;
    if !ok {
        return Ok(());
    }
    if trap.insert(b) {
        tracker.bump_states("candidates_reachable", 1)?;
        if q.len() >= max_queue {
            return Err(SearchError::LimitExceeded {
                stage: "candidates_reachable",
                metric: "queue",
                limit: max_queue as u64,
                observed: (q.len() as u64).saturating_add(1),
                counts: tracker.counts(),
            });
        }
        q.push_back(b);
    }
    Ok(())
}

} // verus!
