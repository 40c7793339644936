//! Metrics of a bounded universe (the absolute box of `CandidateGeneration::InAbsBox`): its
//! size, the black and white moves that stay in it or leave it, its checkmates, and the sizes
//! of the trap, the tempo trap and the forced-mate region.

use vstd::prelude::*;

use crate::board::coord::Coord;
use crate::board::position::{canonical_slots, Position, MAX_PIECES};
use crate::board::square::Square;
use crate::chess::layout::{layout_kinds_spec, PieceLayout};
use crate::chess::rules::{attacked_spec, Rules};
use crate::scenario::{
    invalid, CacheMode, CandidateGeneration, DomainLike, LawsLike, NoLaws, NoPreferences, ResourceLimits, Scenario,
    SearchError, Side, StartState, State,
};
use crate::scenarios::BuiltinDomain;
use crate::search::buchi::{tempo_step_ok, tempo_winning};
use crate::search::forced_mate::{forced_mate_bounded, lemma_fits_white, mate_universe};
use crate::search::movegen::{legal_black_moves, legal_white_moves};
use crate::search::resources::ResourceTracker;
use crate::search::trap::{all_generated, maximal_inescapable_trap, maximal_tempo_trap};
use crate::search::universe::max_box_bound;

verus! {

/// The metrics computed by [`compute_bounded_counts`].
#[derive(Debug, Clone, Copy, PartialEq, Eq)]
pub struct BoundedCounts {
    pub universe_states: usize,
    pub black_moves_in: u64,
    pub black_moves_escape: u64,
    pub white_moves_in: u64,
    pub white_moves_escape: u64,
    pub checkmates_in_universe: usize,
    pub trap: usize,
    pub tempo: usize,
    pub mate: usize,
}

/// Number of entries of `m` in `u`.
pub open spec fn count_in(m: Seq<State>, u: Set<State>) -> nat
    decreases m.len(),
{
    if m.len() == 0 {
        0
    } else {
        count_in(m.drop_last(), u) + if u.contains(m.last()) { 1nat } else { 0nat }
    }
}

/// Number of entries of `m` outside `u`.
pub open spec fn count_out(m: Seq<State>, u: Set<State>) -> nat
    decreases m.len(),
{
    if m.len() == 0 {
        0
    } else {
        count_out(m.drop_last(), u) + if u.contains(m.last()) { 0nat } else { 1nat }
    }
}

/// The sum of `f` over the entries of `pl`.
pub open spec fn seq_total(pl: Seq<State>, f: spec_fn(State) -> nat) -> nat
    decreases pl.len(),
{
    if pl.len() == 0 {
        0
    } else {
        seq_total(pl.drop_last(), f) + f(pl.last())
    }
}

/// `x`, capped at `u64::MAX`.
pub open spec fn capped(x: nat) -> u64 {
    if x > u64::MAX { u64::MAX } else { x as u64 }
}

impl<D, L: LawsLike, P> Scenario<D, L, P> {
    /// Black is checkmated in `s` under the rules alone: in check and without a king move.
    pub open spec fn rules_mated(&self, s: State) -> bool {
        attacked_spec(self.rules.layout.kinds_spec(), s.pos@, Coord { x: 0, y: 0 })
            && self.rules.black_moves_spec(s.pos).len() == 0
    }

    /// The number of legal black moves from the states of `pl` that land in `u`.
    pub open spec fn black_in_total(&self, pl: Seq<State>, u: Set<State>) -> nat {
        seq_total(pl, |s: State| count_in(self.legal_black_spec(self.laws, s), u))
    }

    /// The number of legal black moves from the states of `pl` that leave `u`.
    pub open spec fn black_out_total(&self, pl: Seq<State>, u: Set<State>) -> nat {
        seq_total(pl, |s: State| count_out(self.legal_black_spec(self.laws, s), u))
    }

    /// The number of legal white moves from the states of `pl` that land in `u`.
    pub open spec fn white_in_total(&self, pl: Seq<State>, u: Set<State>) -> nat {
        seq_total(pl, |s: State| count_in(self.legal_white_spec(self.laws, s), u))
    }

    /// The number of legal white moves from the states of `pl` that leave `u`.
    pub open spec fn white_out_total(&self, pl: Seq<State>, u: Set<State>) -> nat {
        seq_total(pl, |s: State| count_out(self.legal_white_spec(self.laws, s), u))
    }

    /// The number of states of `pl` where Black is checkmated under the rules alone.
    pub open spec fn mates_total(&self, pl: Seq<State>) -> nat {
        seq_total(pl, |s: State| if self.rules_mated(s) { 1nat } else { 0nat })
    }
}

/// Adds one to a capped count.
fn bump_capped(c: u64, Ghost(x): Ghost<nat>) -> (r: u64)
    requires
        c == capped(x),
    ensures
        r == capped(x + 1),
{
    if c < u64::MAX { c + 1 } else { c }
}

/// Counts the entries of `moves` in and out of `universe`, adding them to the running capped
/// totals `cin` and `cout`.
fn count_moves(
    moves: &Vec<State>,
    universe: &crate::search::store::StateSet,
    cin: &mut u64,
    cout: &mut u64,
    Ghost(tin): Ghost<nat>,
    Ghost(tout): Ghost<nat>,
)
    requires
        *old(cin) == capped(tin),
        *old(cout) == capped(tout),
    ensures
        *final(cin) == capped(tin + count_in(moves@, universe.view_set())),
        *final(cout) == capped(tout + count_out(moves@, universe.view_set())),
{
    let ghost u = universe.view_set();
    let mut k: usize = 0;
    proof {
        assert(moves@.take(0) =~= Seq::<State>::empty());
    }
    while k < moves.len()
        invariant
            k <= moves@.len(),
            u == universe.view_set(),
            *cin == capped(tin + count_in(moves@.take(k as int), u)),
            *cout == capped(tout + count_out(moves@.take(k as int), u)),
        decreases moves@.len() - k,
    {
        proof {
            assert(moves@.take(k as int + 1).drop_last() =~= moves@.take(k as int));
        }
        if universe.contains(&moves[k]) {
            *cin = bump_capped(*cin, Ghost(tin + count_in(moves@.take(k as int), u)));
        } else {
            *cout = bump_capped(*cout, Ghost(tout + count_out(moves@.take(k as int), u)));
        }
        k += 1;
    }
    proof {
        assert(moves@.take(moves@.len() as int) =~= moves@);
    }
}

/// Metrics of the universe of the scenario's absolute box (`CandidateGeneration::InAbsBox`
/// only): its size, the black and white moves from its states that stay in it or leave it
/// (each total capped at `u64::MAX`), the states where Black is checkmated under the rules
/// alone, and the sizes of the maximal trap, the tempo trap and the forced-mate region.
pub fn compute_bounded_counts<D: DomainLike, L: LawsLike, P>(scn: &Scenario<D, L, P>) -> (r: Result<BoundedCounts, SearchError>)
    ensures
        !scn.valid_spec() ==> r matches Err(SearchError::InvalidScenario { .. }),
        scn.valid_spec() && !(scn.candidates is InAbsBox) ==> r matches Err(SearchError::InvalidScenario { .. }),
        scn.valid_spec() && (scn.candidates matches CandidateGeneration::InAbsBox { bound, .. } && !(0 <= bound <= max_box_bound()))
            ==> r matches Err(SearchError::InvalidScenario { .. }),
        r is Ok ==> (scn.candidates matches CandidateGeneration::InAbsBox { bound, allow_captures } && {
            let c = r->Ok_0;
            &&& exists|pl: Seq<State>| {
                let u = pl.to_set();
                &&& #[trigger] pl.no_duplicates()
                &&& forall|s: State| #[trigger] u.contains(s) <==> scn.mate_universe_member(bound as int, allow_captures, s)
                &&& c.universe_states == pl.len()
                &&& c.black_moves_in == capped(scn.black_in_total(pl, u))
                &&& c.black_moves_escape == capped(scn.black_out_total(pl, u))
                &&& c.white_moves_in == capped(scn.white_in_total(pl, u))
                &&& c.white_moves_escape == capped(scn.white_out_total(pl, u))
                &&& c.checkmates_in_universe == scn.mates_total(pl)
            }
            &&& exists|t: Set<State>, cands: Set<State>| {
                &&& t.finite() && c.trap == t.len()
                &&& all_generated(*scn, cands) && scn.candidates_complete(cands)
                &&& #[trigger] scn.greatest_trap_in(cands, t)
                &&& exists|tt: Set<State>| {
                    &&& tt.finite() && c.tempo == tt.len()
                    &&& tt.subset_of(t)
                    &&& #[trigger] tempo_step_ok(*scn, t, tt)
                    &&& forall|s: Set<State>| #[trigger] tempo_winning(*scn, t, s) ==> s.subset_of(tt)
                }
            }
            &&& exists|u: Set<State>, w: Set<State>| {
                &&& forall|s: State| #[trigger] u.contains(s) <==> scn.mate_universe_member(bound as int, allow_captures, s)
                &&& w.finite() && c.mate == w.len()
                &&& #[trigger] scn.forced_mate_region(u, w)
            }
        }),
{
    scn.validate()?;
    let (bound, allow_captures) = match &scn.candidates {
        CandidateGeneration::InAbsBox { bound, allow_captures } => (*bound, *allow_captures),
        _ => {
            return Err(invalid("compute_bounded_counts requires candidates=InBox"));
        },
    };
    if bound < 0 || bound > 0x0fff_ffff {
        return Err(invalid("InAbsBox candidate generation needs a bound in 0..=2^28-1"));
    }
    let mut tracker = ResourceTracker::new(scn.limits);
    let universe = mate_universe(scn, bound, allow_captures, "bounded_universe", &mut tracker)?;
    let pl = universe.to_vec();
    let ghost u = universe.view_set();
    proof {
        assert forall|i: int| 0 <= i < pl@.len() implies scn.state_fits(#[trigger] pl@[i]) by {
            assert(pl@.to_set().contains(pl@[i]));
            assert(u.contains(pl@[i]));
        }
    }
    let mut black_in: u64 = 0;
    let mut black_escape: u64 = 0;
    let mut white_in: u64 = 0;
    let mut white_escape: u64 = 0;
    let mut mates: usize = 0;
    let mut i: usize = 0;
    proof {
        assert(pl@.take(0) =~= Seq::<State>::empty());
    }
    while i < pl.len()
        invariant
            i <= pl@.len(),
            scn.valid_spec(),
            scn.candidates matches CandidateGeneration::InAbsBox { bound: b, allow_captures: a } && b == bound && a == allow_captures,
            0 <= bound <= max_box_bound(),
            u == universe.view_set(),
            forall|a: int| 0 <= a < pl@.len() ==> scn.state_fits(#[trigger] pl@[a]),
            black_in == capped(scn.black_in_total(pl@.take(i as int), u)),
            black_escape == capped(scn.black_out_total(pl@.take(i as int), u)),
            white_in == capped(scn.white_in_total(pl@.take(i as int), u)),
            white_escape == capped(scn.white_out_total(pl@.take(i as int), u)),
            mates == scn.mates_total(pl@.take(i as int)),
            mates <= i,
        decreases pl@.len() - i,
    {
        tracker.bump_steps("bounded_scan", 1)?;
        let s = pl[i];
        let ghost pre = pl@.take(i as int);
        proof {
            assert(pl@.take(i as int + 1).drop_last() =~= pre);
            assert(pl@.take(i as int + 1).last() == s);
            use_type_invariant(&scn.rules.layout);
        }
        if scn.rules.is_checkmate(&s.pos) {
            mates += 1;
        }
        let bm = legal_black_moves(scn, &scn.laws, &s, &mut tracker)?;
        count_moves(&bm, &universe, &mut black_in, &mut black_escape, Ghost(scn.black_in_total(pre, u)), Ghost(scn.black_out_total(pre, u)));
        proof {
            lemma_fits_white(*scn, s);
        }
        let wm = legal_white_moves(scn, &scn.laws, &s, &mut tracker)?;
        count_moves(&wm, &universe, &mut white_in, &mut white_escape, Ghost(scn.white_in_total(pre, u)), Ghost(scn.white_out_total(pre, u)));
        i += 1;
    }
    proof {
        assert(pl@.take(pl@.len() as int) =~= pl@);
    }
    let trap_set = maximal_inescapable_trap(scn)?;
    let tempo_set = maximal_tempo_trap(scn, &trap_set)?;
    let mate_region = forced_mate_bounded(scn, false)?;
    let universe_states = universe.len();
    let trap = trap_set.len();
    let tempo = tempo_set.len();
    let mate = mate_region.winning_btm.len();
    proof {
        assert(pl@.to_set() == u);
        assert(pl@.no_duplicates());
        assert forall|s: State| #[trigger] pl@.to_set().contains(s) <==> scn.mate_universe_member(bound as int, allow_captures, s) by {
            if scn.mate_universe_member(bound as int, allow_captures, s) {
                assert(u.contains(s));
            }
        }
        let t = trap_set.view_set();
        let cands = choose|c: Set<State>| {
            &&& all_generated(*scn, c)
            &&& scn.candidates_complete(c)
            &&& #[trigger] scn.greatest_trap_in(c, t)
        };
        assert(scn.greatest_trap_in(cands, t));
        assert(tempo_step_ok(*scn, t, tempo_set.view_set()));
        assert(forall|s: Set<State>| #[trigger] tempo_winning(*scn, t, s) ==> s.subset_of(tempo_set.view_set()));
    }
    Ok(BoundedCounts {
        universe_states,
        black_moves_in: black_in,
        black_moves_escape: black_escape,
        white_moves_in: white_in,
        white_moves_escape: white_escape,
        checkmates_in_universe: mates,
        trap,
        tempo,
        mate,
    })
}

/// The absolute square of the relative square `rel` in `s`.
pub fn abs_square(s: &State, rel: Coord) -> (c: Coord)
    requires
        i32::MIN <= s.abs_king.x + rel.x <= i32::MAX,
        i32::MIN <= s.abs_king.y + rel.y <= i32::MAX,
    ensures
        c == (Coord { x: (s.abs_king.x + rel.x) as i32, y: (s.abs_king.y + rel.y) as i32 }),
{
    Coord { x: s.abs_king.x + rel.x, y: s.abs_king.y + rel.y }
}

/// The settings of a bounded evaluation: the box bound, the slider move bound (inclusive, or
/// exclusive when `exclusive`), the piece counts and the rule switches.
#[derive(Debug, Clone, Copy)]
pub struct BoundedSpec {
    pub bound: i32,
    pub move_bound: i32,
    pub exclusive: bool,
    pub white_king: bool,
    pub queens: usize,
    pub rooks: usize,
    pub bishops: usize,
    pub knights: usize,
    pub allow_captures: bool,
    pub white_can_pass: bool,
    pub remove_stalemates: bool,
}

/// The starting position with every piece captured.
pub fn captured_start(layout: &PieceLayout) -> (p: Position)
    requires
        layout.kinds_spec().len() <= MAX_PIECES,
    ensures
        p.len_spec() == layout.kinds_spec().len(),
        p.slots() == canonical_slots(
            Seq::new(MAX_PIECES as nat, |i: int| Square(i64::MIN)),
            layout.runs_spec(),
            layout.runs_spec().len(),
        ),
{
    let none = Square::none();
    let squares = [none; MAX_PIECES];
    proof {
        assert(squares@ =~= Seq::new(MAX_PIECES as nat, |i: int| Square(i64::MIN)));
    }
    let mut pos = Position::new(layout.piece_count(), squares);
    pos.canonicalize(layout);
    pos
}

/// The scenario of a bounded evaluation: the absolute box of radius `bound` as both the
/// candidate universe and the domain, the king anchor tracked, every piece captured at the
/// start, default limits and bounded caches.
pub fn build_scenario(spec: &BoundedSpec) -> (r: Result<Scenario<BuiltinDomain, NoLaws, NoPreferences>, String>)
    ensures
        spec.bound < 0 ==> (r matches Err(e) && e@ == "bound must be >= 0"@),
        spec.bound >= 0 && spec.move_bound < 1 ==> (r matches Err(e) && e@ == "move_bound must be >= 1"@),
        spec.bound >= 0 && spec.move_bound >= 1 && spec.exclusive && spec.move_bound < 2 ==> (r matches Err(e) && e@
            == "move_bound_mode=exclusive requires move_bound >= 2"@),
        spec.bound >= 0 && spec.move_bound >= 1 && !(spec.exclusive && spec.move_bound < 2) && (if spec.white_king {
            1int
        } else {
            0int
        }) + spec.queens + spec.rooks + spec.bishops + spec.knights > MAX_PIECES ==> (r matches Err(e) && e@
            == "too many pieces"@),
        r is Ok <==> (spec.bound >= 0 && spec.move_bound >= 1 && !(spec.exclusive && spec.move_bound < 2) && (if spec.white_king {
            1int
        } else {
            0int
        }) + spec.queens + spec.rooks + spec.bishops + spec.knights <= MAX_PIECES),
        r matches Ok(s) ==> {
            &&& s.name@ == "bounded_eval"@
            &&& s.rules.layout.kinds_spec() == layout_kinds_spec(
                spec.white_king,
                spec.queens as nat,
                spec.rooks as nat,
                spec.bishops as nat,
                spec.knights as nat,
            )
            &&& s.rules.move_bound == if spec.exclusive { spec.move_bound - 1 } else { spec.move_bound as int }
            &&& s.white_can_pass == spec.white_can_pass
            &&& s.track_abs_king
            &&& s.start.to_move == Side::Black
            &&& s.start.state.abs_king == (Coord { x: 0, y: 0 })
            &&& s.start.state.pos.len_spec() == s.rules.layout.kinds_spec().len()
            &&& s.start.state.pos.slots() == canonical_slots(
                Seq::new(MAX_PIECES as nat, |i: int| Square(i64::MIN)),
                s.rules.layout.runs_spec(),
                s.rules.layout.runs_spec().len(),
            )
            &&& s.candidates == (CandidateGeneration::InAbsBox { bound: spec.bound, allow_captures: spec.allow_captures })
            &&& s.domain == (BuiltinDomain::AbsBox { bound: spec.bound })
            &&& s.limits.max_states == 2_000_000
            &&& s.limits.max_edges == 50_000_000
            &&& s.limits.max_cache_entries == 250_000
            &&& s.limits.max_cached_moves == 15_000_000
            &&& s.limits.max_runtime_steps == 200_000_000
            &&& s.cache_mode == CacheMode::BothBounded
            &&& s.remove_stalemates == spec.remove_stalemates
        },
{
    if spec.bound < 0 {
        return Err("bound must be >= 0".to_owned());
    }
    if spec.move_bound < 1 {
        return Err("move_bound must be >= 1".to_owned());
    }
    let effective_move_bound = if spec.exclusive {
        if spec.move_bound < 2 {
            return Err("move_bound_mode=exclusive requires move_bound >= 2".to_owned());
        }
        spec.move_bound - 1
    } else {
        spec.move_bound
    };
    let k: usize = if spec.white_king { 1 } else { 0 };
    if spec.queens > MAX_PIECES || spec.rooks > MAX_PIECES || spec.bishops > MAX_PIECES || spec.knights > MAX_PIECES
        || k + spec.queens + spec.rooks + spec.bishops + spec.knights > MAX_PIECES {
        return Err("too many pieces".to_owned());
    }
    let layout = PieceLayout::from_counts(spec.white_king, spec.queens, spec.rooks, spec.bishops, spec.knights);
    proof {
        assert(layout.kinds_spec().len() == k + spec.queens + spec.rooks + spec.bishops + spec.knights);
    }
    let start_pos = captured_start(&layout);
    let rules = Rules::new(layout, effective_move_bound);
    let bound = spec.bound;
    Ok(Scenario {
        name: "bounded_eval",
        rules,
        white_can_pass: spec.white_can_pass,
        track_abs_king: true,
        start: StartState { to_move: Side::Black, state: State::new(Coord::origin(), start_pos) },
        candidates: CandidateGeneration::InAbsBox { bound, allow_captures: spec.allow_captures },
        domain: BuiltinDomain::AbsBox { bound },
        laws: NoLaws,
        preferences: NoPreferences,
        limits: ResourceLimits::default(),
        cache_mode: CacheMode::BothBounded,
        remove_stalemates: spec.remove_stalemates,
    })
}

} // verus!
