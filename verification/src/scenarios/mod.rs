//! Built-in scenarios: a piece layout and slide bound, a start state, a candidate generation,
//! a domain and resource limits, bundled under a name.

use vstd::prelude::*;

pub mod nbb;

use crate::board::coord::{abs_int, Coord};
use crate::board::position::{canonical_slots, Position, MAX_PIECES};
use crate::board::square::Square;
use crate::chess::layout::{layout_kinds_spec, PieceLayout};
use crate::chess::rules::{present, Rules};
use crate::scenario::{
    CacheMode, CandidateGeneration, DomainLike, NoLaws, NoPreferences, ResourceLimits, Scenario,
    SearchError, Side, StartState, State,
};

verus! {

/// Built-in domains.
///
/// - `All` keeps every state (translation-reduced search).
/// - `AbsBox` bounds the absolute king anchor and all pieces to the box `[-bound, bound]²`, so
///   that walking off to infinity shows up as leaving the domain.
#[derive(Debug, Clone, Copy)]
pub enum BuiltinDomain {
    All,
    AbsBox { bound: i32 },
}

impl DomainLike for BuiltinDomain {
    open spec fn inside_spec(&self, s: State) -> bool {
        match *self {
            BuiltinDomain::All => true,
            BuiltinDomain::AbsBox { bound } => in_abs_box_spec(bound, s),
        }
    }

    fn inside(&self, s: &State) -> (b: bool) {
        match *self {
            BuiltinDomain::All => true,
            BuiltinDomain::AbsBox { bound } => in_abs_box(bound, s),
        }
    }
}

/// The anchor and every piece of `s` lie in the absolute box `[-bound, bound]²`.
pub open spec fn in_abs_box_spec(bound: i32, s: State) -> bool {
    &&& abs_int(s.abs_king.x as int) <= bound && abs_int(s.abs_king.y as int) <= bound
    &&& forall|i: int| 0 <= i < s.pos@.len() && present(s.pos@[i]) ==>
        abs_int(s.abs_king.x + (#[trigger] s.pos@[i]).coord_spec().x) <= bound
            && abs_int(s.abs_king.y + s.pos@[i].coord_spec().y) <= bound
}

/// The anchor and every piece of `s` lie in the absolute box `[-bound, bound]²`.
pub fn in_abs_box(bound: i32, s: &State) -> (b: bool)
    ensures
        b == in_abs_box_spec(bound, *s),
{
    if !s.abs_king.in_linf_bound(bound) {
        return false;
    }
    let sq = s.pos.squares();
    let mut i: usize = 0;
    while i < sq.len()
        invariant
            i <= sq@.len(),
            sq@ == s.pos@,
            forall|j: int| 0 <= j < i && present(sq@[j]) ==>
                abs_int(s.abs_king.x + (#[trigger] sq@[j]).coord_spec().x) <= bound
                    && abs_int(s.abs_king.y + sq@[j].coord_spec().y) <= bound,
        decreases sq@.len() - i,
    {
        if !sq[i].is_none() {
            let c = sq[i].coord();
            let ax = s.abs_king.x as i64 + c.x as i64;
            let ay = s.abs_king.y as i64 + c.y as i64;
            let b = bound as i64;
            if ax < -b || ax > b || ay < -b || ay > b {
                proof {
                    assert(present(s.pos@[i as int]));
                }
                return false;
            }
        }
        i += 1;
    }
    true
}

/// The scenarios built into the library.
pub type BuiltInScenario = Scenario<BuiltinDomain, NoLaws, NoPreferences>;

/// The slots of the squares of `coords`, padded with captured markers.
pub open spec fn coord_slots(coords: Seq<Coord>) -> Seq<Square> {
    Seq::new(MAX_PIECES as nat, |i: int| if i < coords.len() { Square::from_coord_spec(coords[i]) } else { Square(i64::MIN) })
}

/// The canonical position of the layout with the pieces on `coords`, in slot order.
pub fn pos_from_coords(layout: &PieceLayout, coords: &[Coord]) -> (p: Position)
    requires
        coords@.len() == layout.kinds_spec().len(),
        layout.kinds_spec().len() <= MAX_PIECES,
    ensures
        p.len_spec() == coords@.len(),
        p.slots() == canonical_slots(coord_slots(coords@), layout.runs_spec(), layout.runs_spec().len()),
{
    let mut squares = [Square::none(); MAX_PIECES];
    let mut i: usize = 0;
    while i < coords.len()
        invariant
            i <= coords@.len(),
            coords@.len() <= MAX_PIECES,
            forall|j: int| 0 <= j < i ==> #[trigger] squares@[j] == Square::from_coord_spec(coords@[j]),
            forall|j: int| i <= j < MAX_PIECES ==> #[trigger] squares@[j] == Square(i64::MIN),
        decreases coords@.len() - i,
    {
        squares[i] = Square::from_coord(coords[i]);
        i += 1;
    }
    proof {
        assert(squares@ =~= coord_slots(coords@));
    }
    let mut pos = Position::new(coords.len(), squares);
    pos.canonicalize(layout);
    pos
}

/// Limits for the small demo scenarios.
pub fn demo_limits() -> (l: ResourceLimits)
    ensures
        l.max_states == 1_000_000,
        l.max_edges == 25_000_000,
        l.max_cache_entries == 100_000,
        l.max_cached_moves == 5_000_000,
        l.max_runtime_steps == 50_000_000,
{
    ResourceLimits {
        max_states: 1_000_000,
        max_edges: 25_000_000,
        max_cache_entries: 100_000,
        max_cached_moves: 5_000_000,
        max_runtime_steps: 50_000_000,
    }
}

/// Limits for the two-rook scenario.
pub fn two_rooks_limits() -> (l: ResourceLimits)
    ensures
        l.max_states == 2_000_000,
        l.max_edges == 2_000_000_000,
        l.max_cache_entries == 250_000,
        l.max_cached_moves == 15_000_000,
        l.max_runtime_steps == 2_000_000_000,
{
    ResourceLimits {
        max_states: 2_000_000,
        max_edges: 2_000_000_000,
        max_cache_entries: 250_000,
        max_cached_moves: 15_000_000,
        max_runtime_steps: 2_000_000_000,
    }
}

/// Three rooks, candidates within L∞ bound 2 (captures allowed), slides of one square, White
/// may pass, stalemates removed; Black starts against rooks on (2, 2), (2, 1) and (1, 2).
pub fn three_rooks_bound2_mb1() -> (s: BuiltInScenario)
    ensures
        s.name@ == "three_rooks_bound2_mb1"@,
        s.rules.layout.kinds_spec() == layout_kinds_spec(false, 0, 3, 0, 0),
        s.rules.move_bound == 1,
        s.white_can_pass,
        !s.track_abs_king,
        s.start.to_move == Side::Black,
        s.start.state.abs_king == (Coord { x: 0, y: 0 }),
        s.start.state.pos.len_spec() == 3,
        s.start.state.pos.slots() == canonical_slots(
            coord_slots(seq![Coord { x: 2, y: 2 }, Coord { x: 2, y: 1 }, Coord { x: 1, y: 2 }]),
            s.rules.layout.runs_spec(),
            s.rules.layout.runs_spec().len(),
        ),
        s.candidates == (CandidateGeneration::InLinfBound { bound: 2, allow_captures: true }),
        s.domain is All,
        s.cache_mode == CacheMode::BothBounded,
        s.remove_stalemates,
        s.limits.max_states == 1_000_000,
        s.limits.max_edges == 25_000_000,
        s.limits.max_cache_entries == 100_000,
        s.limits.max_cached_moves == 5_000_000,
        s.limits.max_runtime_steps == 50_000_000,
{
    let layout = PieceLayout::from_counts(false, 0, 3, 0, 0);
    let rules = Rules::new(layout.clone(), 1);
    let coords = [Coord::new(2, 2), Coord::new(2, 1), Coord::new(1, 2)];
    proof {
        assert(coords@ =~= seq![Coord { x: 2, y: 2 }, Coord { x: 2, y: 1 }, Coord { x: 1, y: 2 }]);
    }
    let start_pos = pos_from_coords(&layout, coords.as_slice());
    Scenario {
        name: "three_rooks_bound2_mb1",
        rules,
        white_can_pass: true,
        track_abs_king: false,
        start: StartState { to_move: Side::Black, state: State::new(Coord::origin(), start_pos) },
        candidates: CandidateGeneration::InLinfBound { bound: 2, allow_captures: true },
        domain: BuiltinDomain::All,
        laws: NoLaws,
        preferences: NoPreferences,
        limits: demo_limits(),
        cache_mode: CacheMode::BothBounded,
        remove_stalemates: true,
    }
}

/// Two rooks, slides of up to seven squares, with the absolute domain `[-7, 7]²` and the
/// anchor tracked, candidates reachable from the start (Black to move against rooks on
/// (1, 3) and (-2, -5)), White may pass, stalemates removed.
pub fn two_rooks_bound7() -> (s: BuiltInScenario)
    ensures
        s.name@ == "two_rooks_bound7"@,
        s.rules.layout.kinds_spec() == layout_kinds_spec(false, 0, 2, 0, 0),
        s.rules.move_bound == 7,
        s.white_can_pass,
        s.track_abs_king,
        s.start.to_move == Side::Black,
        s.start.state.abs_king == (Coord { x: 0, y: 0 }),
        s.start.state.pos.len_spec() == 2,
        s.start.state.pos.slots() == canonical_slots(
            coord_slots(seq![Coord { x: 1, y: 3 }, Coord { x: -2i32, y: -5i32 }]),
            s.rules.layout.runs_spec(),
            s.rules.layout.runs_spec().len(),
        ),
        s.candidates == (CandidateGeneration::ReachableFromStart { max_queue: 2_000_000 }),
        s.domain == (BuiltinDomain::AbsBox { bound: 7 }),
        s.cache_mode == CacheMode::BothBounded,
        s.remove_stalemates,
        s.limits.max_states == 2_000_000,
        s.limits.max_edges == 2_000_000_000,
        s.limits.max_cache_entries == 250_000,
        s.limits.max_cached_moves == 15_000_000,
        s.limits.max_runtime_steps == 2_000_000_000,
{
    let layout = PieceLayout::from_counts(false, 0, 2, 0, 0);
    let rules = Rules::new(layout.clone(), 7);
    let coords = [Coord::new(1, 3), Coord::new(-2, -5)];
    proof {
        assert(coords@ =~= seq![Coord { x: 1, y: 3 }, Coord { x: -2i32, y: -5i32 }]);
    }
    let start_pos = pos_from_coords(&layout, coords.as_slice());
    Scenario {
        name: "two_rooks_bound7",
        rules,
        white_can_pass: true,
        track_abs_king: true,
        start: StartState { to_move: Side::Black, state: State::new(Coord::origin(), start_pos) },
        candidates: CandidateGeneration::ReachableFromStart { max_queue: 2_000_000 },
        domain: BuiltinDomain::AbsBox { bound: 7 },
        laws: NoLaws,
        preferences: NoPreferences,
        limits: two_rooks_limits(),
        cache_mode: CacheMode::BothBounded,
        remove_stalemates: true,
    }
}

/// `a` and `b` hold the same characters.
pub fn str_eq(a: &str, b: &str) -> (r: bool)
    ensures
        r == (a@ == b@),
{
    let x = a.as_bytes();
    let y = b.as_bytes();
    proof {
        vstd::utf8::encode_utf8_decode_utf8(a@);
        vstd::utf8::encode_utf8_decode_utf8(b@);
        assert(x@ == vstd::utf8::encode_utf8(a@));
        assert(y@ == vstd::utf8::encode_utf8(b@));
    }
    if x.len() != y.len() {
        return false;
    }
    let mut i: usize = 0;
    while i < x.len()
        invariant
            i <= x@.len(),
            x@.len() == y@.len(),
            x@ == vstd::utf8::encode_utf8(a@),
            y@ == vstd::utf8::encode_utf8(b@),
            forall|j: int| 0 <= j < i ==> x@[j] == y@[j],
        decreases x@.len() - i,
    {
        if x[i] != y[i] {
            proof {
                if a@ == b@ {
                    assert(x@ == y@);
                }
            }
            return false;
        }
        i += 1;
    }
    proof {
        assert(x@ =~= y@);
        assert(vstd::utf8::decode_utf8(x@) == vstd::utf8::decode_utf8(y@));
    }
    true
}

/// The data-backed scenario built from the contents of its trap data file (see
/// [`nbb::nbb20_from_file`]).
pub fn nbb20_from_file(bytes: &[u8]) -> (r: Result<BuiltInScenario, SearchError>)
    ensures
        r is Err ==> r->Err_0 is InvalidScenario,
        r is Ok ==> {
            let s = r->Ok_0;
            &&& s.rules.layout.kinds_spec() == layout_kinds_spec(false, 0, 0, 2, 1)
            &&& s.rules.move_bound == 23
            &&& s.candidates matches CandidateGeneration::FromStates { states } && states@ == nbb::parsed_states(bytes@, s.rules)
            &&& nbb::states_first(s)
            &&& s.white_can_pass && s.track_abs_king && s.remove_stalemates
            &&& s.cache_mode == CacheMode::BlackOnly
            &&& s.domain is All
        },
{
    nbb::nbb20_from_file(bytes)
}

/// The generated NBB scenario. Its construction is not part of this library, so asking for it
/// always fails with an `InvalidScenario` error naming it.
pub fn nbb7_generated() -> (r: Result<BuiltInScenario, SearchError>)
    ensures
        r matches Err(SearchError::InvalidScenario { reason }) && reason@ == "nbb7_generated is not available"@,
{
    Err(crate::scenario::invalid("nbb7_generated is not available"))
}

/// The built-in scenario of that name: the two code-defined scenarios, or the data-backed
/// `nbb20_from_file` built from the contents `nbb_data` of its data file (an `Io` error when
/// the data is missing), or the result of [`nbb7_generated`]. `None` for an unknown name.
pub fn by_name(name: &str, nbb_data: Option<&[u8]>) -> (r: Result<Option<BuiltInScenario>, SearchError>)
    ensures
        name@ == "three_rooks_bound2_mb1"@ ==> (r matches Ok(Some(s)) && s.name@ == "three_rooks_bound2_mb1"@),
        name@ == "two_rooks_bound7"@ ==> (r matches Ok(Some(s)) && s.name@ == "two_rooks_bound7"@),
        name@ != "three_rooks_bound2_mb1"@ && name@ != "two_rooks_bound7"@ && name@ != "nbb20_from_file"@
            && name@ != "nbb7_generated"@ ==> (r matches Ok(None)),
        name@ == "nbb7_generated"@ ==> (r matches Err(SearchError::InvalidScenario { reason })
            && reason@ == "nbb7_generated is not available"@),
        name@ == "nbb20_from_file"@ && nbb_data is None ==> r is Err,
{
    proof {
        reveal_strlit("three_rooks_bound2_mb1");
        reveal_strlit("two_rooks_bound7");
        reveal_strlit("nbb20_from_file");
        reveal_strlit("nbb7_generated");
        assert("nbb7_generated"@[3] != "nbb20_from_file"@[3]);
        assert("nbb7_generated"@[0] != "three_rooks_bound2_mb1"@[0]);
        assert("nbb7_generated"@[0] != "two_rooks_bound7"@[0]);
        assert("three_rooks_bound2_mb1"@[1] != "two_rooks_bound7"@[1]);
        assert("three_rooks_bound2_mb1"@[0] != "nbb20_from_file"@[0]);
        assert("two_rooks_bound7"@ != "nbb20_from_file"@);
    }
    if str_eq(name, "three_rooks_bound2_mb1") {
        let s = three_rooks_bound2_mb1();
        return Ok(Some(s));
    }
    if str_eq(name, "two_rooks_bound7") {
        return Ok(Some(two_rooks_bound7()));
    }
    if str_eq(name, "nbb20_from_file") {
        match nbb_data {
            Some(bytes) => {
                let s = nbb::nbb20_from_file(bytes)?;
                return Ok(Some(s));
            },
            None => {
                return Err(SearchError::Io {
                    stage: "nbb_read",
                    path: "kNBB_20_3_2.5_23.txt".to_owned(),
                    error: "trap data not provided".to_owned(),
                });
            },
        }
    }
    if str_eq(name, "nbb7_generated") {
        match nbb7_generated() {
            Ok(s) => {
                return Ok(Some(s));
            },
            Err(e) => {
                return Err(e);
            },
        }
    }
    Ok(None)
}

/// The names of the built-in scenarios.
pub fn names() -> (v: Vec<&'static str>)
    ensures
        v@.len() == 4,
        v@[0] == "three_rooks_bound2_mb1",
        v@[1] == "two_rooks_bound7",
        v@[2] == "nbb20_from_file",
        v@[3] == "nbb7_generated",
{
    let mut v: Vec<&'static str> = Vec::new();
    v.push("three_rooks_bound2_mb1");
    v.push("two_rooks_bound7");
    v.push("nbb20_from_file");
    v.push("nbb7_generated");
    v
}

/// The names of the built-in scenarios (the same list as [`names`]).
pub fn available_names() -> (v: Vec<&'static str>)
    ensures
        v@.len() == 4,
        v@[0] == "three_rooks_bound2_mb1",
        v@[1] == "two_rooks_bound7",
        v@[2] == "nbb20_from_file",
        v@[3] == "nbb7_generated",
{
    names()
}

} // verus!
