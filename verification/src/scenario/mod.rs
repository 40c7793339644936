//! Scenario layer: the glue between the pure chess rules and the search objectives.
//!
//! A [`State`] is a piece placement relative to the black king plus an optional absolute
//! anchor for the king. A [`Scenario`] bundles rules, scenario laws, a domain, move
//! preferences, resource limits and the way candidate states are generated.

use vstd::prelude::*;

use crate::board::coord::Coord;
use crate::board::position::{position_of, Position, MAX_PIECES};
use crate::board::square::Square;
use crate::chess::bounds::is_in_bound;
use crate::chess::rules::{coord_limit, present, squares_within, within, Rules};

pub mod text;

use crate::scenario::text::{bound_reason, decimal_nat, push_decimal_u64, push_str_chars, string_from_chars};

verus! {

/// The side to move.
#[derive(Debug, Clone, Copy, PartialEq, Eq, Structural)]
pub enum Side {
    Black,
    White,
}

/// A game state: `pos` holds the white pieces relative to the black king, and `abs_king` is
/// an absolute anchor for the king, used only by scenarios that constrain absolute squares.
#[derive(Debug, Clone, Copy, PartialEq, Eq, Hash)]
pub struct State {
    pub abs_king: Coord,
    pub pos: Position,
}

impl State {
    pub fn new(abs_king: Coord, pos: Position) -> (s: State)
        ensures
            s.abs_king == abs_king,
            s.pos == pos,
    {
        State { abs_king, pos }
    }

    /// Same anchor and same position.
    pub fn same_as(&self, other: &State) -> (b: bool)
        ensures
            b == (*self == *other),
    {
        self.abs_king == other.abs_king && self.pos.same_as(&other.pos)
    }
}

/// The state a game starts from, with the side to move.
#[derive(Debug, Clone, Copy, PartialEq, Eq)]
pub struct StartState {
    pub to_move: Side,
    pub state: State,
}

/// Budgets that bound the growth of a search.
#[derive(Debug, Clone, Copy)]
pub struct ResourceLimits {
    pub max_states: usize,
    pub max_edges: usize,
    pub max_cache_entries: usize,
    pub max_cached_moves: usize,
    pub max_runtime_steps: u64,
}

impl Default for ResourceLimits {
    /// Generous budgets for medium-sized searches.
    fn default() -> (l: ResourceLimits)
        ensures
            l.max_states == 2_000_000,
            l.max_edges == 50_000_000,
            l.max_cache_entries == 250_000,
            l.max_cached_moves == 15_000_000,
            l.max_runtime_steps == 200_000_000,
    {
        ResourceLimits {
            max_states: 2_000_000,
            max_edges: 50_000_000,
            max_cache_entries: 250_000,
            max_cached_moves: 15_000_000,
            max_runtime_steps: 200_000_000,
        }
    }
}

/// Running counters of a search.
#[derive(Debug, Clone, Copy)]
pub struct ResourceCounts {
    pub states: u64,
    pub edges: u64,
    pub cache_entries: u64,
    pub cached_moves: u64,
    pub runtime_steps: u64,
}

/// All counters at zero.
pub open spec fn zero_counts() -> ResourceCounts {
    ResourceCounts { states: 0, edges: 0, cache_entries: 0, cached_moves: 0, runtime_steps: 0 }
}

impl Default for ResourceCounts {
    /// All counters at zero.
    fn default() -> (c: ResourceCounts)
        ensures
            c == zero_counts(),
    {
        ResourceCounts { states: 0, edges: 0, cache_entries: 0, cached_moves: 0, runtime_steps: 0 }
    }
}

/// Why a search or a scenario failed.
#[derive(Debug)]
pub enum SearchError {
    InvalidScenario { reason: String },
    LimitExceeded {
        stage: &'static str,
        metric: &'static str,
        limit: u64,
        observed: u64,
        counts: ResourceCounts,
    },
    AllocationFailed { stage: &'static str, structure: &'static str, counts: ResourceCounts },
    Io { stage: &'static str, path: String, error: String },
}

/// The counters as `counts(states=…, edges=…, cache_entries=…, cached_moves=…, runtime_steps=…)`.
pub open spec fn counts_text(c: ResourceCounts) -> Seq<char> {
    "counts(states="@ + decimal_nat(c.states as nat) + ", edges="@ + decimal_nat(c.edges as nat) + ", cache_entries="@
        + decimal_nat(c.cache_entries as nat) + ", cached_moves="@ + decimal_nat(c.cached_moves as nat) + ", runtime_steps="@
        + decimal_nat(c.runtime_steps as nat) + ")"@
}

/// The message of an error.
pub open spec fn error_text(e: SearchError) -> Seq<char> {
    match e {
        SearchError::InvalidScenario { reason } => "invalid scenario: "@ + reason@,
        SearchError::LimitExceeded { stage, metric, limit, observed, counts } => "limit exceeded at "@ + stage@ + ": "@ + metric@
            + " (limit="@ + decimal_nat(limit as nat) + ", observed="@ + decimal_nat(observed as nat) + "); "@ + counts_text(counts),
        SearchError::AllocationFailed { stage, structure, counts } => "allocation failed at "@ + stage@ + " for "@ + structure@
            + "; "@ + counts_text(counts),
        SearchError::Io { stage, path, error } => "io error at "@ + stage@ + " for "@ + path@ + ": "@ + error@,
    }
}

/// Appends the counters' text.
fn push_counts(v: &mut Vec<char>, c: &ResourceCounts)
    ensures
        final(v)@ == old(v)@ + counts_text(*c),
{
    push_str_chars(v, "counts(states=");
    push_decimal_u64(v, c.states);
    push_str_chars(v, ", edges=");
    push_decimal_u64(v, c.edges);
    push_str_chars(v, ", cache_entries=");
    push_decimal_u64(v, c.cache_entries);
    push_str_chars(v, ", cached_moves=");
    push_decimal_u64(v, c.cached_moves);
    push_str_chars(v, ", runtime_steps=");
    push_decimal_u64(v, c.runtime_steps);
    push_str_chars(v, ")");
    proof {
        assert(final(v)@ =~= old(v)@ + counts_text(*c));
    }
}

impl SearchError {
    /// The error's message.
    pub fn to_message(&self) -> (s: String)
        ensures
            s@ == error_text(*self),
    {
        let mut v: Vec<char> = Vec::new();
        match self {
            SearchError::InvalidScenario { reason } => {
                push_str_chars(&mut v, "invalid scenario: ");
                push_str_chars(&mut v, reason.as_str());
            },
            SearchError::LimitExceeded { stage, metric, limit, observed, counts } => {
                push_str_chars(&mut v, "limit exceeded at ");
                push_str_chars(&mut v, stage);
                push_str_chars(&mut v, ": ");
                push_str_chars(&mut v, metric);
                push_str_chars(&mut v, " (limit=");
                push_decimal_u64(&mut v, *limit);
                push_str_chars(&mut v, ", observed=");
                push_decimal_u64(&mut v, *observed);
                push_str_chars(&mut v, "); ");
                push_counts(&mut v, counts);
            },
            SearchError::AllocationFailed { stage, structure, counts } => {
                push_str_chars(&mut v, "allocation failed at ");
                push_str_chars(&mut v, stage);
                push_str_chars(&mut v, " for ");
                push_str_chars(&mut v, structure);
                push_str_chars(&mut v, "; ");
                push_counts(&mut v, counts);
            },
            SearchError::Io { stage, path, error } => {
                push_str_chars(&mut v, "io error at ");
                push_str_chars(&mut v, stage);
                push_str_chars(&mut v, " for ");
                push_str_chars(&mut v, path.as_str());
                push_str_chars(&mut v, ": ");
                push_str_chars(&mut v, error.as_str());
            },
        }
        proof {
            assert(v@ =~= error_text(*self));
        }
        string_from_chars(v)
    }
}

/// The error for an invalid scenario with the given reason.
pub fn invalid(reason: &str) -> (e: SearchError)
    ensures
        e matches SearchError::InvalidScenario { reason: r } && r@ == reason@,
{
    SearchError::InvalidScenario { reason: reason.to_owned() }
}

/// Membership in the set of states that an objective considers "inside".
pub trait DomainLike {
    /// Which states are inside.
    spec fn inside_spec(&self, s: State) -> bool;

    fn inside(&self, s: &State) -> (b: bool)
        ensures
            b == self.inside_spec(*s),
    ;
}

/// Scenario-specific restrictions on states and moves.
pub trait LawsLike {
    /// Which states may occur.
    spec fn allows_state(&self, s: State) -> bool;

    /// Which black king moves (by step `delta`) are allowed.
    spec fn allows_black_move(&self, from: State, to: State, delta: Coord) -> bool;

    /// Which white moves are allowed.
    spec fn allows_white_move(&self, from: State, to: State) -> bool;

    /// In which states White may pass.
    spec fn allows_pass(&self, s: State) -> bool;

    fn allow_state(&self, s: &State) -> (b: bool)
        ensures
            b == self.allows_state(*s),
    ;

    fn allow_black_move(&self, from: &State, to: &State, delta: Coord) -> (b: bool)
        ensures
            b == self.allows_black_move(*from, *to, delta),
    ;

    fn allow_white_move(&self, from: &State, to: &State) -> (b: bool)
        ensures
            b == self.allows_white_move(*from, *to),
    ;

    fn allow_pass(&self, s: &State) -> (b: bool)
        ensures
            b == self.allows_pass(*s),
    ;
}

/// Tie-breaking move orderings, used only to pick one move among equally good ones.
pub trait PreferencesLike {
    fn rank_black_moves(&self, from: &State, moves: &[State]) -> Vec<usize>;

    fn rank_white_moves(&self, from: &State, moves: &[State]) -> Vec<usize>;
}

/// No scenario restrictions: every state and move is allowed.
#[derive(Debug, Clone, Copy, Default)]
pub struct NoLaws;

impl LawsLike for NoLaws {
    open spec fn allows_state(&self, s: State) -> bool {
        true
    }

    open spec fn allows_black_move(&self, from: State, to: State, delta: Coord) -> bool {
        true
    }

    open spec fn allows_white_move(&self, from: State, to: State) -> bool {
        true
    }

    open spec fn allows_pass(&self, s: State) -> bool {
        true
    }

    fn allow_state(&self, s: &State) -> (b: bool) {
        true
    }

    fn allow_black_move(&self, from: &State, to: &State, delta: Coord) -> (b: bool) {
        true
    }

    fn allow_white_move(&self, from: &State, to: &State) -> (b: bool) {
        true
    }

    fn allow_pass(&self, s: &State) -> (b: bool) {
        true
    }
}

/// The domain that contains every state.
#[derive(Debug, Clone, Copy, Default)]
pub struct AllDomain;

impl DomainLike for AllDomain {
    open spec fn inside_spec(&self, s: State) -> bool {
        true
    }

    fn inside(&self, s: &State) -> (b: bool) {
        true
    }
}

/// Keeps moves in generation order.
#[derive(Debug, Clone, Copy, Default)]
pub struct NoPreferences;

/// `0, 1, ..., n - 1`.
pub fn identity_ranking(n: usize) -> (v: Vec<usize>)
    ensures
        v@.len() == n,
        forall|i: int| 0 <= i < n ==> #[trigger] v@[i] == i,
{
    let mut v: Vec<usize> = Vec::new();
    let mut i: usize = 0;
    while i < n
        invariant
            i <= n,
            v@.len() == i,
            forall|j: int| 0 <= j < i ==> #[trigger] v@[j] == j,
        decreases n - i,
    {
        v.push(i);
        i += 1;
    }
    v
}

impl PreferencesLike for NoPreferences {
    fn rank_black_moves(&self, from: &State, moves: &[State]) -> (v: Vec<usize>)
        ensures
            v@.len() == moves@.len(),
            forall|i: int| 0 <= i < moves@.len() ==> #[trigger] v@[i] == i,
    {
        identity_ranking(moves.len())
    }

    fn rank_white_moves(&self, from: &State, moves: &[State]) -> (v: Vec<usize>)
        ensures
            v@.len() == moves@.len(),
            forall|i: int| 0 <= i < moves@.len() ==> #[trigger] v@[i] == i,
    {
        identity_ranking(moves.len())
    }
}

/// How the candidate black-to-move states of a trap search are produced.
#[derive(Debug, Clone)]
pub enum CandidateGeneration {
    /// Every canonical placement with all pieces within the L∞ bound (king at the origin).
    InLinfBound { bound: i32, allow_captures: bool },
    /// Every canonical placement with the king and all pieces inside the absolute box
    /// `[-bound, bound]²`, keeping the absolute king anchor.
    InAbsBox { bound: i32, allow_captures: bool },
    /// An explicit list of states.
    FromStates { states: Vec<State> },
    /// The black-to-move states reachable from the start, explored breadth first.
    ReachableFromStart { max_queue: usize },
}

/// Which move lists a trap search keeps in its cache.
#[derive(Debug, Clone, Copy, PartialEq, Eq, Structural)]
pub enum CacheMode {
    NoCache,
    BlackOnly,
    BothBounded,
}

/// A fully specified search configuration.
#[derive(Debug, Clone)]
pub struct Scenario<D, L, P> {
    pub name: &'static str,
    pub rules: Rules,
    pub white_can_pass: bool,
    pub track_abs_king: bool,
    pub start: StartState,
    pub candidates: CandidateGeneration,
    pub domain: D,
    pub laws: L,
    pub preferences: P,
    pub limits: ResourceLimits,
    pub cache_mode: CacheMode,
    pub remove_stalemates: bool,
}

/// The black king anchor after a step by `delta` (unchanged when the anchor is not tracked).
pub open spec fn moved_anchor(track: bool, anchor: Coord, delta: Coord) -> Coord {
    if track {
        Rules::offset(anchor, delta)
    } else {
        anchor
    }
}

impl<D, L, P> Scenario<D, L, P> {
    /// The rules are usable: at most `MAX_PIECES` slots and a slide length in
    /// `1..=coord_limit()`.
    pub open spec fn rules_ok(&self) -> bool {
        &&& self.rules.layout.kinds_spec().len() <= MAX_PIECES
        &&& 1 <= self.rules.move_bound <= coord_limit()
    }

    /// `s` has one slot per piece, its pieces stand within `coord_limit() - 1` and its anchor
    /// within `coord_limit()`: black king moves from it stay within the machine limits.
    pub open spec fn state_fits(&self, s: State) -> bool {
        &&& self.rules.matches_layout(s.pos, coord_limit() - 1)
        &&& within(s.abs_king, coord_limit())
    }

    /// `s` has one slot per piece within `coord_limit()`: white moves from it stay within the
    /// machine limits.
    pub open spec fn white_state_fits(&self, s: State) -> bool {
        self.rules.matches_layout(s.pos, coord_limit())
    }

    /// The state reached by the black king move `m` (step and resulting slots) from `s`.
    pub open spec fn black_target(&self, s: State, m: (Coord, Seq<Square>)) -> State {
        State {
            abs_king: moved_anchor(self.track_abs_king, s.abs_king, m.0),
            pos: position_of(m.1, s.pos.len_spec()),
        }
    }

    /// The state reached by the white move to slots `m` from `s`.
    pub open spec fn white_target(&self, s: State, m: Seq<Square>) -> State {
        State { abs_king: s.abs_king, pos: position_of(m, s.pos.len_spec()) }
    }
}

impl<D, L: LawsLike, P> Scenario<D, L, P> {
    /// The black king moves among `moves` that `laws` allow, as states, in order.
    pub open spec fn black_filter(&self, laws: L, s: State, moves: Seq<(Coord, Seq<Square>)>) -> Seq<State>
        decreases moves.len(),
    {
        if moves.len() == 0 {
            Seq::empty()
        } else {
            let prev = self.black_filter(laws, s, moves.drop_last());
            let m = moves.last();
            let t = self.black_target(s, m);
            if laws.allows_black_move(s, t, m.0) && laws.allows_state(t) {
                prev.push(t)
            } else {
                prev
            }
        }
    }

    /// The legal black moves from `s` under `laws`, in step order.
    pub open spec fn legal_black_spec(&self, laws: L, s: State) -> Seq<State> {
        self.black_filter(laws, s, self.rules.black_moves_spec(s.pos))
    }

    /// The white moves among `moves` that `laws` allow, as states, in order.
    pub open spec fn white_filter(&self, laws: L, s: State, moves: Seq<Seq<Square>>) -> Seq<State>
        decreases moves.len(),
    {
        if moves.len() == 0 {
            Seq::empty()
        } else {
            let prev = self.white_filter(laws, s, moves.drop_last());
            let t = self.white_target(s, moves.last());
            if laws.allows_white_move(s, t) && laws.allows_state(t) {
                prev.push(t)
            } else {
                prev
            }
        }
    }

    /// The legal white moves from `s` under `laws`, in generation order; a pass (when the
    /// scenario and the laws allow it) comes first.
    pub open spec fn legal_white_spec(&self, laws: L, s: State) -> Seq<State> {
        (if self.white_can_pass && laws.allows_pass(s) {
            seq![s]
        } else {
            Seq::empty()
        }) + self.white_filter(laws, s, self.rules.white_moves_spec(s.pos, false))
    }

    /// Black is not in check and has no legal move under the scenario's laws.
    pub open spec fn stalemate_spec(&self, s: State) -> bool {
        &&& !crate::chess::rules::attacked_spec(
            self.rules.layout.kinds_spec(),
            s.pos@,
            Coord { x: 0, y: 0 },
        )
        &&& self.legal_black_spec(self.laws, s).len() == 0
    }
}

impl<D: DomainLike, L: LawsLike, P> Scenario<D, L, P> {
    /// All pieces of `s` are within the L∞ bound of the candidate generation, when it is
    /// `InLinfBound`.
    pub open spec fn start_in_bound(&self, s: State) -> bool {
        match self.candidates {
            CandidateGeneration::InLinfBound { bound, .. } => forall|i: int|
                0 <= i < s.pos@.len() ==> #[trigger] s.pos@[i].is_none_spec() || within(
                    s.pos@[i].coord_spec(),
                    bound as int,
                ),
            _ => true,
        }
    }

    /// The scenario passes [`Scenario::validate`].
    pub open spec fn valid_spec(&self) -> bool {
        let s = self.start.state;
        &&& self.rules_ok()
        &&& self.state_fits(s)
        &&& (self.track_abs_king || s.abs_king == Coord { x: 0, y: 0 })
        &&& crate::chess::rules::legal_spec(self.rules.layout.king_index_spec(), s.pos@)
        &&& self.laws.allows_state(s)
        &&& self.domain.inside_spec(s)
        &&& self.start_in_bound(s)
        &&& !(self.remove_stalemates && self.start.to_move == Side::Black && self.stalemate_spec(s))
    }

    /// Checks that the rules are usable, that the start state fits the layout within the
    /// coordinate limits, keeps the anchor at the origin when it is not tracked, is legal,
    /// allowed by the laws, inside the domain, within the candidate bound, and (when
    /// stalemates are removed and Black moves first) not a stalemate.
    pub fn validate(&self) -> (r: Result<(), SearchError>)
        ensures
            r is Ok <==> self.valid_spec(),
            r is Err ==> r->Err_0 is InvalidScenario,
    {
        proof {
            use_type_invariant(&self.rules.layout);
        }
        let s = &self.start.state;
        let n = self.rules.layout.piece_count();
        if n > MAX_PIECES || self.rules.move_bound < 1 || self.rules.move_bound > 0x2000_0000 {
            return Err(invalid("rules need at most 16 pieces and a move bound in 1..=2^29"));
        }
        if !fits_layout(&s.pos, n, 0x2000_0000 - 1) || !s.abs_king.in_box(0x2000_0000) {
            return Err(invalid("start state does not fit the layout within the coordinate limits"));
        }
        if !self.track_abs_king && !(s.abs_king == Coord::origin()) {
            return Err(invalid("track_abs_king=false requires start.abs_king == ORIGIN"));
        }
        if !self.rules.is_legal_position(&s.pos) {
            return Err(invalid("start position is not legal under pure rules"));
        }
        if !self.laws.allow_state(s) {
            return Err(invalid("start state rejected by laws.allow_state"));
        }
        if !self.domain.inside(s) {
            return Err(invalid("start state is outside the domain"));
        }
        if let CandidateGeneration::InLinfBound { bound, .. } = self.candidates {
            let sq = s.pos.squares();
            let mut i: usize = 0;
            while i < sq.len()
                invariant
                    i <= sq@.len(),
                    sq@ == s.pos@,
                    s == &self.start.state,
                    self.candidates matches CandidateGeneration::InLinfBound { bound: b, .. } && b == bound,
                    forall|j: int| 0 <= j < i ==> #[trigger] sq@[j].is_none_spec() || within(sq@[j].coord_spec(), bound as int),
                decreases sq@.len() - i,
            {
                if !is_in_bound(sq[i], bound) {
                    proof {
                        assert(!(s.pos@[i as int].is_none_spec() || within(s.pos@[i as int].coord_spec(), bound as int)));
                        assert(!self.start_in_bound(*s));
                    }
                    return Err(SearchError::InvalidScenario { reason: bound_reason(bound) });
                }
                i += 1;
            }
        }
        if self.remove_stalemates && self.start.to_move == Side::Black && self.is_stalemate_under_laws(s) {
            return Err(invalid("start is a stalemate (and remove_stalemates=true)"));
        }
        Ok(())
    }

    /// Black is not in check and has no move that the rules and the laws allow.
    fn is_stalemate_under_laws(&self, s: &State) -> (b: bool)
        requires
            self.rules_ok(),
            self.state_fits(*s),
        ensures
            b == self.stalemate_spec(*s),
    {
        if self.rules.is_attacked(Coord::origin(), &s.pos) {
            return false;
        }
        let moves = legal_moves_black(self, &self.laws, s);
        moves.len() == 0
    }
}

/// `pos` has `n` slots and every piece stands within `lim`.
pub fn fits_layout(pos: &Position, n: usize, lim: i32) -> (b: bool)
    ensures
        b == (pos.len_spec() == n && squares_within(pos@, lim as int)),
{
    if pos.count() != n {
        return false;
    }
    let sq = pos.squares();
    let mut i: usize = 0;
    while i < sq.len()
        invariant
            i <= sq@.len(),
            sq@ == pos@,
            forall|j: int| 0 <= j < i && present(sq@[j]) ==> within(#[trigger] sq@[j].coord_spec(), lim as int),
        decreases sq@.len() - i,
    {
        if !sq[i].is_none() && !sq[i].coord().in_box(lim) {
            return false;
        }
        i += 1;
    }
    true
}

/// The legal black moves from `s` under `laws`, without any budget accounting.
pub fn legal_moves_black<D, L: LawsLike, P>(scn: &Scenario<D, L, P>, laws: &L, s: &State) -> (out: Vec<State>)
    requires
        scn.rules_ok(),
        scn.state_fits(*s),
    ensures
        out@ == scn.legal_black_spec(*laws, *s),
        forall|i: int| 0 <= i < out@.len() ==> scn.white_state_fits(#[trigger] out@[i]),
{
    let moves = scn.rules.black_moves_with_delta(&s.pos);
    let mut out: Vec<State> = Vec::new();
    let mut k: usize = 0;
    while k < moves.len()
        invariant
            k <= moves@.len(),
            scn.rules_ok(),
            scn.state_fits(*s),
            crate::chess::rules::black_moves_match(moves@, scn.rules.black_moves_spec(s.pos), s.pos.len_spec()),
            forall|j: int| 0 <= j < moves@.len() ==> crate::chess::rules::squares_within_limit((#[trigger] moves@[j]).1@)
                && -1 <= moves@[j].0.x <= 1 && -1 <= moves@[j].0.y <= 1,
            out@ == scn.black_filter(*laws, *s, scn.rules.black_moves_spec(s.pos).take(k as int)),
            forall|i: int| 0 <= i < out@.len() ==> scn.white_state_fits(#[trigger] out@[i]),
        decreases moves@.len() - k,
    {
        let (delta, pos2) = moves[k];
        let ghost spec_moves = scn.rules.black_moves_spec(s.pos);
        proof {
            crate::board::position::lemma_position_of(pos2);
            assert(spec_moves.take(k as int + 1).drop_last() =~= spec_moves.take(k as int));
            assert(spec_moves.take(k as int + 1).last() == spec_moves[k as int]);
            assert(delta == spec_moves[k as int].0);
            assert(moves@[k as int] == (delta, pos2));
        }
        let anchor = if scn.track_abs_king { s.abs_king.plus(delta) } else { s.abs_king };
        let to = State { abs_king: anchor, pos: pos2 };
        proof {
            assert(to == scn.black_target(*s, spec_moves[k as int]));
        }
        if laws.allow_black_move(s, &to, delta) && laws.allow_state(&to) {
            out.push(to);
        }
        k += 1;
    }
    proof {
        assert(scn.rules.black_moves_spec(s.pos).take(moves@.len() as int) =~= scn.rules.black_moves_spec(s.pos));
    }
    out
}

} // verus!
