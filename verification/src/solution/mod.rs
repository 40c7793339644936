//! Solved-scenario bundles: a manifest of metadata and a binary table of states, trap and
//! tempo sets, deterministic black transitions and white strategies.
//!
//! The library computes bundles and converts tables to and from bytes; reading and writing
//! the files of a bundle directory is left to the caller.

pub mod codec;
pub mod play;

use vstd::prelude::*;

use crate::board::coord::Coord;
use crate::board::position::MAX_PIECES;
use crate::chess::layout::{layout_kinds_spec, PieceLayout};
use crate::chess::piece::PieceKind;
use crate::chess::rules::Rules;
use crate::scenario::{invalid, legal_moves_black, CandidateGeneration, DomainLike, LawsLike, PreferencesLike, Scenario, SearchError, Side, State};
use crate::search::buchi::{black_move_from, indexes, strategy_keeps, tempo_step_ok, tempo_trap_buchi_with_strategy};
use crate::search::store::{IdMap, IdSet, StateIds, StateIndex, StateMoves, StateSet};
use crate::search::strategy::{covers_stays, extract_white_stay_strategy, replies_stay};
use crate::search::resources::over_budget_or_alloc;
use crate::search::trap::{all_generated, anchors_invalid, candidates_invalid, maximal_inescapable_trap, queue_overflow};
use crate::scenario::text::{push_decimal_u64, push_str_chars, string_from_chars};

verus! {

/// The version of the bundle format.
pub const FORMAT_VERSION: u32 = 1;

/// The manifest's file name in a bundle directory.
pub const MANIFEST_FILENAME: &'static str = "solution.json";

/// The data table's file name in a bundle directory.
pub const DATA_FILENAME: &'static str = "data.bin";

/// How a bundle is exported.
#[derive(Debug, Clone, Copy)]
pub struct ExportOptions {
    /// Remove the output directory first when it already exists.
    pub force: bool,
    /// Compute the tempo trap and its strategy (otherwise only the inescapable trap).
    pub compute_tempo: bool,
    /// Overrides the recommended relative view bound stored in the manifest.
    pub view_bound: Option<i32>,
}

impl Default for ExportOptions {
    fn default() -> (o: Self)
        ensures
            !o.force,
            o.compute_tempo,
            o.view_bound is None,
    {
        ExportOptions { force: false, compute_tempo: true, view_bound: None }
    }
}

/// The metadata of a bundle.
#[derive(Debug, Clone)]
pub struct SolutionManifest {
    pub format_version: u32,
    pub created_unix_secs: u64,
    pub scenario_name: String,
    pub rules: RulesManifest,
    pub params: ParamsManifest,
    pub start: StartManifest,
    pub view: ViewManifest,
    pub counts: CountsManifest,
    pub files: FilesManifest,
}

/// The rules as piece counts and slide length.
#[derive(Debug, Clone, Copy, PartialEq, Eq, Structural)]
pub struct RulesManifest {
    pub white_king: bool,
    pub queens: u16,
    pub rooks: u16,
    pub bishops: u16,
    pub knights: u16,
    pub move_bound: i32,
}

/// The scenario switches that play depends on.
#[derive(Debug, Clone, Copy, PartialEq, Eq, Structural)]
pub struct ParamsManifest {
    pub white_can_pass: bool,
    pub track_abs_king: bool,
    pub remove_stalemates: bool,
}

/// How the board is shown by default.
#[derive(Debug, Clone, Copy, PartialEq, Eq, Structural)]
pub enum ViewMode {
    Relative,
    Absolute,
}

/// Display settings.
#[derive(Debug, Clone, Copy, PartialEq, Eq, Structural)]
pub struct ViewManifest {
    pub default_mode: ViewMode,
    pub recommended_bound: i32,
}

/// The sizes of the tables.
#[derive(Debug, Clone, Copy, PartialEq, Eq, Structural)]
pub struct CountsManifest {
    pub states: u32,
    pub trap: u32,
    pub tempo: u32,
    pub trap_strategy: u32,
    pub tempo_strategy: u32,
}

/// The files of the bundle.
#[derive(Debug, Clone)]
pub struct FilesManifest {
    pub data_bin: String,
}

/// The side to move, as stored in a manifest.
#[derive(Debug, Clone, Copy, PartialEq, Eq, Structural)]
pub enum ManifestSide {
    Black,
    White,
}

/// Where play starts.
#[derive(Debug, Clone, Copy, PartialEq, Eq, Structural)]
pub struct StartManifest {
    pub to_move: ManifestSide,
    pub state_id: u32,
}

/// The tables of a bundle. States are referred to by their index in `states`.
#[derive(Debug, Clone)]
pub struct SolutionData {
    pub states: Vec<State>,
    pub trap_set_ids: Vec<u32>,
    pub tempo_set_ids: Vec<u32>,
    /// For each black-to-move state of the trap: its id and, for each king direction, the id
    /// of the state after that move (`u32::MAX` when there is none).
    pub transitions: Vec<(u32, [u32; 8])>,
    pub strategy_trap: Vec<(u32, u32)>,
    pub strategy_tempo: Vec<(u32, u32)>,
}

/// A bundle: manifest and tables.
#[derive(Debug, Clone)]
pub struct SolutionBundle {
    pub manifest: SolutionManifest,
    pub data: SolutionData,
}

/// The king step of each direction index, in the order `q, w, e, a, d, z, x, c`.
pub open spec fn dir_delta_spec(idx: int) -> Coord {
    if idx == 0 { Coord { x: -1i32, y: 1 } }
    else if idx == 1 { Coord { x: 0, y: 1 } }
    else if idx == 2 { Coord { x: 1, y: 1 } }
    else if idx == 3 { Coord { x: -1i32, y: 0 } }
    else if idx == 4 { Coord { x: 1, y: 0 } }
    else if idx == 5 { Coord { x: -1i32, y: -1i32 } }
    else if idx == 6 { Coord { x: 0, y: -1i32 } }
    else if idx == 7 { Coord { x: 1, y: -1i32 } }
    else { Coord { x: 0, y: 0 } }
}

/// The key of each direction index.
pub open spec fn dir_key_spec(idx: int) -> char {
    if idx == 0 { 'q' }
    else if idx == 1 { 'w' }
    else if idx == 2 { 'e' }
    else if idx == 3 { 'a' }
    else if idx == 4 { 'd' }
    else if idx == 5 { 'z' }
    else if idx == 6 { 'x' }
    else { 'c' }
}

/// The direction index of a king step, if it is one.
pub fn dir_index(delta: Coord) -> (r: Option<usize>)
    ensures
        r matches Some(i) ==> i < 8 && dir_delta_spec(i as int) == delta,
        r is None ==> forall|i: int| 0 <= i < 8 ==> dir_delta_spec(i) != delta,
{
    let (x, y) = (delta.x, delta.y);
    if x == -1 && y == 1 { Some(0) }
    else if x == 0 && y == 1 { Some(1) }
    else if x == 1 && y == 1 { Some(2) }
    else if x == -1 && y == 0 { Some(3) }
    else if x == 1 && y == 0 { Some(4) }
    else if x == -1 && y == -1 { Some(5) }
    else if x == 0 && y == -1 { Some(6) }
    else if x == 1 && y == -1 { Some(7) }
    else { None }
}

/// The direction keys, by direction index.
pub fn direction_labels() -> (r: [char; 8])
    ensures
        forall|i: int| 0 <= i < 8 ==> #[trigger] r@[i] == dir_key_spec(i),
{
    ['q', 'w', 'e', 'a', 'd', 'z', 'x', 'c']
}

/// The direction index of a key.
pub fn dir_index_from_key(ch: char) -> (r: Option<usize>)
    ensures
        r matches Some(i) ==> i < 8 && dir_key_spec(i as int) == ch,
        r is None ==> forall|i: int| 0 <= i < 8 ==> dir_key_spec(i) != ch,
{
    if ch == 'q' { Some(0) }
    else if ch == 'w' { Some(1) }
    else if ch == 'e' { Some(2) }
    else if ch == 'a' { Some(3) }
    else if ch == 'd' { Some(4) }
    else if ch == 'z' { Some(5) }
    else if ch == 'x' { Some(6) }
    else if ch == 'c' { Some(7) }
    else { None }
}

/// The king step of a direction index (the origin for an index out of range).
pub fn delta_from_dir_index(idx: usize) -> (c: Coord)
    ensures
        c == dir_delta_spec(idx as int),
{
    if idx == 0 { Coord::new(-1, 1) }
    else if idx == 1 { Coord::new(0, 1) }
    else if idx == 2 { Coord::new(1, 1) }
    else if idx == 3 { Coord::new(-1, 0) }
    else if idx == 4 { Coord::new(1, 0) }
    else if idx == 5 { Coord::new(-1, -1) }
    else if idx == 6 { Coord::new(0, -1) }
    else if idx == 7 { Coord::new(1, -1) }
    else { Coord::origin() }
}

/// The king step of each direction key, keyed in key order.
pub fn direction_deltas() -> (m: std::collections::BTreeMap<char, Coord>)
    ensures
        vstd::laws_cmp::obeys_cmp::<char>() ==> m@ == Map::<char, Coord>::empty().insert('q', dir_delta_spec(0)).insert('w',
            dir_delta_spec(1)).insert('e', dir_delta_spec(2)).insert('a', dir_delta_spec(3)).insert('d', dir_delta_spec(4)).insert(
            'z', dir_delta_spec(5)).insert('x', dir_delta_spec(6)).insert('c', dir_delta_spec(7)),
{
    let mut m = std::collections::BTreeMap::new();
    m.insert('q', Coord::new(-1, 1));
    m.insert('w', Coord::new(0, 1));
    m.insert('e', Coord::new(1, 1));
    m.insert('a', Coord::new(-1, 0));
    m.insert('d', Coord::new(1, 0));
    m.insert('z', Coord::new(-1, -1));
    m.insert('x', Coord::new(0, -1));
    m.insert('c', Coord::new(1, -1));
    m
}

/// Number of slots of kind `k` in `kinds`.
pub open spec fn count_kind(kinds: Seq<PieceKind>, k: PieceKind) -> nat
    decreases kinds.len(),
{
    if kinds.len() == 0 {
        0
    } else {
        count_kind(kinds.drop_last(), k) + if kinds.last() == k { 1nat } else { 0nat }
    }
}

/// The manifest entry of some rules.
pub open spec fn rules_manifest_spec(rules: Rules) -> RulesManifest {
    let kinds = rules.layout.kinds_spec();
    RulesManifest {
        white_king: rules.layout.king_index_spec() is Some,
        queens: count_kind(kinds, PieceKind::Queen) as u16,
        rooks: count_kind(kinds, PieceKind::Rook) as u16,
        bishops: count_kind(kinds, PieceKind::Bishop) as u16,
        knights: count_kind(kinds, PieceKind::Knight) as u16,
        move_bound: rules.move_bound,
    }
}

/// The manifest entry of some rules: the number of pieces of each kind and the slide length.
pub fn rules_manifest_from_rules(rules: &Rules) -> (m: RulesManifest)
    requires
        rules.layout.kinds_spec().len() <= 0xffff,
    ensures
        m == rules_manifest_spec(*rules),
{
    proof {
        use_type_invariant(&rules.layout);
    }
    let kinds = rules.layout.kinds();
    let mut queens: u16 = 0;
    let mut rooks: u16 = 0;
    let mut bishops: u16 = 0;
    let mut knights: u16 = 0;
    let mut i: usize = 0;
    while i < kinds.len()
        invariant
            i <= kinds@.len(),
            kinds@.len() <= 0xffff,
            queens == count_kind(kinds@.take(i as int), PieceKind::Queen),
            rooks == count_kind(kinds@.take(i as int), PieceKind::Rook),
            bishops == count_kind(kinds@.take(i as int), PieceKind::Bishop),
            knights == count_kind(kinds@.take(i as int), PieceKind::Knight),
            queens + rooks + bishops + knights <= i,
        decreases kinds@.len() - i,
    {
        proof {
            assert(kinds@.take(i + 1).drop_last() =~= kinds@.take(i as int));
        }
        match kinds[i] {
            PieceKind::King => {},
            PieceKind::Queen => { queens += 1; },
            PieceKind::Rook => { rooks += 1; },
            PieceKind::Bishop => { bishops += 1; },
            PieceKind::Knight => { knights += 1; },
        }
        i += 1;
    }
    proof {
        assert(kinds@.take(kinds@.len() as int) =~= kinds@);
    }
    RulesManifest {
        white_king: rules.layout.white_king_index().is_some(),
        queens,
        rooks,
        bishops,
        knights,
        move_bound: rules.move_bound,
    }
}

/// The number of pieces in a manifest's rules.
pub open spec fn manifest_piece_count(rules: RulesManifest) -> nat {
    (rules.queens + rules.rooks + rules.bishops + rules.knights + if rules.white_king { 1nat } else { 0nat }) as nat
}

/// The number of pieces of a manifest's rules; an error when it exceeds `MAX_PIECES`.
pub fn piece_count_from_manifest(rules: &RulesManifest) -> (r: Result<usize, SearchError>)
    ensures
        manifest_piece_count(*rules) <= MAX_PIECES ==> r == Ok::<usize, SearchError>(manifest_piece_count(*rules) as usize),
        manifest_piece_count(*rules) > MAX_PIECES ==> r matches Err(SearchError::InvalidScenario { .. }),
{
    let mut n: u64 = rules.queens as u64 + rules.rooks as u64 + rules.bishops as u64 + rules.knights as u64;
    if rules.white_king {
        n += 1;
    }
    if n > 16 {
        let mut t: Vec<char> = Vec::new();
        push_str_chars(&mut t, "manifest piece_count ");
        push_decimal_u64(&mut t, n);
        push_str_chars(&mut t, " exceeds MAX_PIECES=16");
        return Err(SearchError::InvalidScenario { reason: string_from_chars(t) });
    }
    Ok(n as usize)
}

/// The rules of a manifest; an error when it has more than `MAX_PIECES` pieces.
pub fn rules_from_manifest(rules: &RulesManifest) -> (r: Result<Rules, SearchError>)
    requires
        rules.move_bound >= 1,
    ensures
        manifest_piece_count(*rules) <= MAX_PIECES ==> (r matches Ok(x) && x.move_bound == rules.move_bound
            && x.layout.kinds_spec() == layout_kinds_spec(rules.white_king, rules.queens as nat, rules.rooks as nat,
                rules.bishops as nat, rules.knights as nat)),
        manifest_piece_count(*rules) > MAX_PIECES ==> r matches Err(SearchError::InvalidScenario { .. }),
{
    let want = piece_count_from_manifest(rules)?;
    let layout = PieceLayout::from_counts(
        rules.white_king,
        rules.queens as usize,
        rules.rooks as usize,
        rules.bishops as usize,
        rules.knights as usize,
    );
    let count = layout.piece_count();
    if count != want {
        return Err(invalid("layout piece_count mismatches manifest"));
    }
    Ok(Rules::new(layout, rules.move_bound))
}

/// `ids` name, one by one, the states of `list` among `states`.
pub open spec fn ids_name(states: Seq<State>, ids: Seq<u32>, list: Seq<State>) -> bool {
    &&& ids.len() == list.len()
    &&& forall|i: int| 0 <= i < ids.len() ==> (#[trigger] ids[i]) < states.len() && states[ids[i] as int] == list[i]
}

/// The ids `ids` name exactly the states of `set`.
pub open spec fn ids_cover(states: Seq<State>, ids: Seq<u32>, set: Set<State>) -> bool {
    &&& forall|i: int| 0 <= i < ids.len() ==> (#[trigger] ids[i]) < states.len() && set.contains(states[ids[i] as int])
    &&& forall|s: State| #[trigger] set.contains(s) ==> exists|i: int| 0 <= i < ids.len() && states[ids[i] as int] == s
}

/// The id pairs name, among `states`, the entries of `m`, each once.
pub open spec fn pairs_name(states: Seq<State>, pairs: Seq<(u32, u32)>, m: Map<State, State>) -> bool {
    &&& forall|i: int| 0 <= i < pairs.len() ==> (#[trigger] pairs[i]).0 < states.len() && pairs[i].1 < states.len()
        && m.contains_key(states[pairs[i].0 as int]) && m[states[pairs[i].0 as int]] == states[pairs[i].1 as int]
    &&& forall|w: State| #[trigger] m.contains_key(w) ==> exists|i: int| 0 <= i < pairs.len() && states[pairs[i].0 as int] == w
}

impl<D, L: LawsLike, P> Scenario<D, L, P> {
    /// The king move `m` from `b` is allowed by the laws.
    pub open spec fn black_move_allowed(&self, b: State, m: (Coord, Seq<crate::board::square::Square>)) -> bool {
        self.laws.allows_black_move(b, self.black_target(b, m), m.0) && self.laws.allows_state(self.black_target(b, m))
    }

    /// `next` records, by direction, the allowed king moves from `b` as ids into `states`: a
    /// recorded entry is the state after an allowed move in that direction, and every allowed
    /// move has its direction recorded.
    pub open spec fn transition_ok(&self, b: State, next: Seq<u32>, states: Seq<State>) -> bool {
        let moves = self.rules.black_moves_spec(b.pos);
        &&& next.len() == 8
        &&& forall|d: int| 0 <= d < 8 && next[d] != u32::MAX ==> (#[trigger] next[d]) < states.len() && exists|k: int|
            0 <= k < moves.len() && moves[k].0 == dir_delta_spec(d) && self.black_move_allowed(b, moves[k])
                && states[next[d] as int] == self.black_target(b, #[trigger] moves[k])
        &&& forall|k: int, d: int| 0 <= k < moves.len() && 0 <= d < 8 && (#[trigger] moves[k]).0 == dir_delta_spec(d)
            && self.black_move_allowed(b, moves[k]) ==> #[trigger] next[d] != u32::MAX
    }
}

/// The id of `s` among `states`, adding it when it is new; an error when a new id would not
/// fit a u32.
fn intern_state(states: &mut Vec<State>, id_of: &mut StateIndex, s: State) -> (r: Result<u32, SearchError>)
    requires
        indexes(old(id_of).view_map(), old(states)@),
        old(states)@.len() <= u32::MAX + 1,
    ensures
        indexes(final(id_of).view_map(), final(states)@),
        final(states)@.len() <= u32::MAX + 1,
        grows(old(states)@, final(states)@),
        final(states)@ == (if old(states)@.contains(s) || r is Err { old(states)@ } else { old(states)@.push(s) }),
        r matches Ok(id) ==> id < final(states)@.len() && final(states)@[id as int] == s,
        r is Err ==> !old(states)@.contains(s) && old(states)@.len() > u32::MAX,
        r is Err ==> final(states)@.len() > u32::MAX,
        r is Err ==> r->Err_0 is InvalidScenario,
        forall|x: State| #[trigger] final(states)@.contains(x) ==> old(states)@.contains(x) || x == s,
{
    if let Some(id) = id_of.get(&s) {
        proof {
            assert(states@[id as int] == s);
        }
        return Ok(id as u32);
    }
    proof {
        if states@.contains(s) {
            let i = choose|i: int| 0 <= i < states@.len() && states@[i] == s;
            assert(id_of.view_map().contains_key(states@[i]));
        }
    }
    if states.len() > 0xffff_ffff {
        return Err(invalid("too many states to index with u32"));
    }
    let id = states.len();
    let ghost before = id_of.view_map();
    let ghost old_states = states@;
    states.push(s);
    id_of.insert(s, id);
    proof {
        assert forall|t: State| #[trigger] id_of.view_map().contains_key(t) implies id_of.view_map()[t] < states@.len()
            && states@[id_of.view_map()[t] as int] == t by {
            if t != s {
                assert(before.contains_key(t));
            }
        }
        assert forall|i: int| 0 <= i < states@.len() implies #[trigger] id_of.view_map().contains_key(states@[i])
            && id_of.view_map()[states@[i]] == i by {
            if i < old_states.len() {
                assert(states@[i] == old_states[i]);
                assert(before.contains_key(old_states[i]));
            }
        }
        assert forall|x: State| #[trigger] states@.contains(x) implies old_states.contains(x) || x == s by {
            let i = choose|i: int| 0 <= i < states@.len() && states@[i] == x;
            if i < old_states.len() {
                assert(old_states[i] == x);
            }
        }
    }
    Ok(id as u32)
}

/// The largest L∞ norm of a piece square over the states of `list` (0 when there is none).
pub open spec fn max_piece_norm(list: Seq<State>) -> int
    decreases list.len(),
{
    if list.len() == 0 {
        0
    } else {
        let r = max_piece_norm(list.drop_last());
        let m = max_square_norm(list.last().pos@);
        if m > r { m } else { r }
    }
}

/// The largest L∞ norm of a piece square in `sq` (0 when there is none).
pub open spec fn max_square_norm(sq: Seq<crate::board::square::Square>) -> int
    decreases sq.len(),
{
    if sq.len() == 0 {
        0
    } else {
        let r = max_square_norm(sq.drop_last());
        let m = if sq.last().is_none_spec() { 0 } else { sq.last().coord_spec().norm_spec() };
        if m > r { m } else { r }
    }
}

/// The largest L∞ norm of a piece square over the trap states (0 when there is none).
fn compute_recommended_bound(trap: &Vec<State>) -> (r: i32)
    requires
        forall|i: int| 0 <= i < trap@.len() ==> crate::chess::rules::squares_within_limit(#[trigger] trap@[i].pos@),
    ensures
        r == max_piece_norm(trap@),
{
    let mut max_norm: i32 = 0;
    let mut i: usize = 0;
    while i < trap.len()
        invariant
            i <= trap@.len(),
            forall|a: int| 0 <= a < trap@.len() ==> crate::chess::rules::squares_within_limit(#[trigger] trap@[a].pos@),
            max_norm == max_piece_norm(trap@.take(i as int)),
            0 <= max_norm <= crate::chess::rules::coord_limit(),
        decreases trap@.len() - i,
    {
        let sq = trap[i].pos.squares();
        let mut m: i32 = 0;
        let mut k: usize = 0;
        proof {
            assert(trap@[i as int].pos@ == sq@);
            assert(crate::chess::rules::squares_within_limit(sq@));
        }
        while k < sq.len()
            invariant
                k <= sq@.len(),
                crate::chess::rules::squares_within_limit(sq@),
                m == max_square_norm(sq@.take(k as int)),
                0 <= m <= crate::chess::rules::coord_limit(),
            decreases sq@.len() - k,
        {
            proof {
                assert(sq@.take(k + 1).drop_last() =~= sq@.take(k as int));
            }
            if !sq[k].is_none() {
                let n = sq[k].coord().chebyshev_norm();
                if n > m {
                    m = n;
                }
            }
            k += 1;
        }
        proof {
            assert(sq@.take(sq@.len() as int) =~= sq@);
            assert(trap@.take(i + 1).drop_last() =~= trap@.take(i as int));
        }
        if m > max_norm {
            max_norm = m;
        }
        i += 1;
    }
    proof {
        assert(trap@.take(trap@.len() as int) =~= trap@);
    }
    max_norm
}

/// Black has a legal move (under the scenario's laws) in `b`.
fn has_any_legal_black_move<D, L: LawsLike, P>(scn: &Scenario<D, L, P>, b: &State) -> (r: bool)
    requires
        scn.rules_ok(),
        scn.state_fits(*b),
    ensures
        r == (scn.legal_black_spec(scn.laws, *b).len() > 0),
{
    legal_moves_black(scn, &scn.laws, b).len() > 0
}

/// A state to start play from: the first state of the tempo trap (or, when it is empty, of
/// the trap) where Black has a legal move, else any trap state. An error when the trap is
/// empty.
fn choose_play_start<D, L: LawsLike, P>(scn: &Scenario<D, L, P>, trap: &StateSet, tempo: &StateSet) -> (r: Result<State, SearchError>)
    requires
        scn.rules_ok(),
        forall|s: State| #[trigger] trap.view_set().contains(s) ==> scn.state_fits(s),
        tempo.view_set().subset_of(trap.view_set()),
    ensures
        r matches Ok(s) ==> trap.view_set().contains(s),
        r is Err <==> trap.view_set().is_empty(),
        r is Err ==> r->Err_0 is InvalidScenario,
        (exists|s: State| #[trigger] trap.view_set().contains(s) && scn.legal_black_spec(scn.laws, s).len() > 0
            && (tempo.view_set().is_empty() || tempo.view_set().contains(s)))
            ==> (r matches Ok(s) && scn.legal_black_spec(scn.laws, s).len() > 0),
{
    let all = trap.to_vec();
    if all.len() == 0 {
        proof {
            assert forall|s: State| !trap.view_set().contains(s) by {
                if trap.view_set().contains(s) {
                    assert(all@.to_set().contains(s));
                }
            }
            assert(trap.view_set() =~= Set::<State>::empty());
        }
        return Err(invalid("cannot export: inescapable trap is empty"));
    }
    proof {
        assert(all@.to_set().contains(all@[0]));
    }
    let primary = if tempo.len() > 0 { tempo.to_vec() } else { trap.to_vec() };
    let ghost prim = if tempo.view_set().len() > 0 { tempo.view_set() } else { trap.view_set() };
    proof {
        if tempo.view_set().is_empty() {
            assert(tempo.view_set().len() == 0);
        }
        if tempo.view_set().len() == 0 {
            assert(tempo.view_set() =~= Set::<State>::empty());
        }
    }
    let mut i: usize = 0;
    while i < primary.len()
        invariant
            i <= primary@.len(),
            primary@.to_set() == prim,
            prim.subset_of(trap.view_set()),
            scn.rules_ok(),
            forall|s: State| #[trigger] trap.view_set().contains(s) ==> scn.state_fits(s),
            forall|a: int| 0 <= a < i ==> scn.legal_black_spec(scn.laws, #[trigger] primary@[a]).len() == 0,
        decreases primary@.len() - i,
    {
        proof {
            assert(primary@.to_set().contains(primary@[i as int]));
        }
        if has_any_legal_black_move(scn, &primary[i]) {
            return Ok(primary[i]);
        }
        i += 1;
    }
    proof {
        assert forall|s: State| #[trigger] trap.view_set().contains(s) && scn.legal_black_spec(scn.laws, s).len() > 0
            && (tempo.view_set().is_empty() || tempo.view_set().contains(s)) implies false by {
            assert(prim.contains(s));
            assert(primary@.to_set().contains(s));
            let a = choose|a: int| 0 <= a < primary@.len() && primary@[a] == s;
        }
    }
    Ok(all[0])
}

/// The data table of a bundle as bytes, for the manifest's version and piece count. Fails
/// when the piece count exceeds `MAX_PIECES` or a list has more than `u32::MAX` entries.
pub fn write_data(manifest: &SolutionManifest, data: &SolutionData) -> (r: Result<Vec<u8>, SearchError>)
    ensures
        r matches Ok(v) ==> manifest_piece_count(manifest.rules) <= MAX_PIECES && v@ == codec::data_bytes(manifest.format_version,
            manifest_piece_count(manifest.rules) as u32, data.states@, data.trap_set_ids@, data.tempo_set_ids@, data.transitions@,
            data.strategy_trap@, data.strategy_tempo@),
        r is Ok <==> (manifest_piece_count(manifest.rules) <= MAX_PIECES && data.states@.len() <= u32::MAX
            && data.trap_set_ids@.len() <= u32::MAX && data.tempo_set_ids@.len() <= u32::MAX && data.transitions@.len() <= u32::MAX
            && data.strategy_trap@.len() <= u32::MAX && data.strategy_tempo@.len() <= u32::MAX),
{
    let piece_count = piece_count_from_manifest(&manifest.rules)?;
    codec::encode_tables(manifest.format_version, piece_count as u32, data)
}

/// `b` extends `a`.
/// `x` is one of the states of some pair of `pairs`.
pub open spec fn pair_member(pairs: Seq<(State, State)>, x: State) -> bool {
    exists|i: int| 0 <= i < pairs.len() && (#[trigger] pairs[i].0 == x || pairs[i].1 == x)
}

/// `x` is reached by a king move (allowed or not) from a state of `trap`.
pub open spec fn move_target<D, L: LawsLike, P>(scn: Scenario<D, L, P>, trap: Seq<State>, x: State) -> bool {
    exists|i: int, k: int| 0 <= i < trap.len() && 0 <= k < scn.rules.black_moves_spec(trap[i].pos).len()
        && x == scn.black_target(trap[i], #[trigger] scn.rules.black_moves_spec(trap[i].pos)[k])
}

pub open spec fn grows(a: Seq<State>, b: Seq<State>) -> bool {
    a.len() <= b.len() && forall|i: int| 0 <= i < a.len() ==> #[trigger] b[i] == a[i]
}

/// Interns every state of `list`, in order: their ids.
fn intern_all(states: &mut Vec<State>, id_of: &mut StateIndex, list: &Vec<State>) -> (r: Result<Vec<u32>, SearchError>)
    requires
        indexes(old(id_of).view_map(), old(states)@),
        old(states)@.len() <= u32::MAX + 1,
    ensures
        indexes(final(id_of).view_map(), final(states)@),
        final(states)@.len() <= u32::MAX + 1,
        grows(old(states)@, final(states)@),
        r matches Ok(ids) ==> ids_name(final(states)@, ids@, list@),
        forall|x: State| #[trigger] final(states)@.contains(x) ==> old(states)@.contains(x) || list@.contains(x),
        r is Err ==> final(states)@.len() > u32::MAX,
        r is Err ==> r->Err_0 is InvalidScenario,
{
    let ghost start = states@;
    let mut ids: Vec<u32> = Vec::new();
    let mut i: usize = 0;
    while i < list.len()
        invariant
            i <= list@.len(),
            indexes(id_of.view_map(), states@),
            states@.len() <= u32::MAX + 1,
            grows(old(states)@, states@),
            ids_name(states@, ids@, list@.take(i as int)),
            forall|x: State| #[trigger] states@.contains(x) ==> old(states)@.contains(x) || list@.contains(x),
        decreases list@.len() - i,
    {
        let ghost before = states@;
        let ghost ids0 = ids@;
        proof {
            assert(list@.contains(list@[i as int]));
        }
        let id = intern_state(states, id_of, list[i])?;
        ids.push(id);
        proof {
            assert forall|a: int| 0 <= a < ids@.len() implies (#[trigger] ids@[a]) < states@.len() && states@[ids@[a] as int] == list@.take(i + 1)[a] by {
                if a < i {
                    assert(ids@[a] == ids0[a]);
                    assert(list@.take(i + 1)[a] == list@.take(i as int)[a]);
                }
            }
        }
        i += 1;
    }
    proof {
        assert(list@.take(list@.len() as int) =~= list@);
    }
    Ok(ids)
}

/// Interns both states of every pair, in order: their ids.
fn intern_pairs(states: &mut Vec<State>, id_of: &mut StateIndex, pairs: &Vec<(State, State)>) -> (r: Result<Vec<(u32, u32)>, SearchError>)
    requires
        indexes(old(id_of).view_map(), old(states)@),
        old(states)@.len() <= u32::MAX + 1,
    ensures
        indexes(final(id_of).view_map(), final(states)@),
        final(states)@.len() <= u32::MAX + 1,
        grows(old(states)@, final(states)@),
        r matches Ok(ids) ==> ids@.len() == pairs@.len() && forall|i: int| 0 <= i < ids@.len() ==> (#[trigger] ids@[i]).0 < final(states)@.len()
            && ids@[i].1 < final(states)@.len() && final(states)@[ids@[i].0 as int] == pairs@[i].0 && final(states)@[ids@[i].1 as int] == pairs@[i].1,
        forall|x: State| #[trigger] final(states)@.contains(x) ==> old(states)@.contains(x) || pair_member(pairs@, x),
        r is Err ==> final(states)@.len() > u32::MAX,
        r is Err ==> r->Err_0 is InvalidScenario,
{
    let ghost start = states@;
    let mut ids: Vec<(u32, u32)> = Vec::new();
    let mut i: usize = 0;
    while i < pairs.len()
        invariant
            i <= pairs@.len(),
            indexes(id_of.view_map(), states@),
            states@.len() <= u32::MAX + 1,
            grows(old(states)@, states@),
            ids@.len() == i,
            forall|a: int| 0 <= a < i ==> (#[trigger] ids@[a]).0 < states@.len() && ids@[a].1 < states@.len()
                && states@[ids@[a].0 as int] == pairs@[a].0 && states@[ids@[a].1 as int] == pairs@[a].1,
            forall|x: State| #[trigger] states@.contains(x) ==> old(states)@.contains(x) || pair_member(pairs@, x),
        decreases pairs@.len() - i,
    {
        proof {
            assert(pair_member(pairs@, pairs@[i as int].0));
            assert(pair_member(pairs@, pairs@[i as int].1));
        }
        let (w, b) = pairs[i];
        let ghost s0 = states@;
        let w_id = intern_state(states, id_of, w)?;
        let ghost s1 = states@;
        let b_id = intern_state(states, id_of, b)?;
        let ghost ids0 = ids@;
        ids.push((w_id, b_id));
        proof {
            assert forall|a: int| 0 <= a < i + 1 implies (#[trigger] ids@[a]).0 < states@.len() && ids@[a].1 < states@.len()
                && states@[ids@[a].0 as int] == pairs@[a].0 && states@[ids@[a].1 as int] == pairs@[a].1 by {
                if a < i {
                    assert(ids@[a] == ids0[a]);
                    assert(s1[ids0[a].0 as int] == s0[ids0[a].0 as int]);
                    assert(s1[ids0[a].1 as int] == s0[ids0[a].1 as int]);
                } else {
                    assert(s1[w_id as int] == w);
                }
            }
        }
        i += 1;
    }
    Ok(ids)
}

/// The transitions of the trap states `trap` (named by `trap_ids`): for each, by direction,
/// the id of the state after each allowed king move, interning new states.
fn trap_transitions<D: DomainLike, L: LawsLike, P>(
    scn: &Scenario<D, L, P>,
    trap: &Vec<State>,
    trap_ids: &Vec<u32>,
    states: &mut Vec<State>,
    id_of: &mut StateIndex,
) -> (r: Result<Vec<(u32, [u32; 8])>, SearchError>)
    requires
        scn.rules_ok(),
        forall|i: int| 0 <= i < trap@.len() ==> scn.state_fits(#[trigger] trap@[i]),
        indexes(old(id_of).view_map(), old(states)@),
        old(states)@.len() <= u32::MAX + 1,
        ids_name(old(states)@, trap_ids@, trap@),
    ensures
        indexes(final(id_of).view_map(), final(states)@),
        final(states)@.len() <= u32::MAX + 1,
        grows(old(states)@, final(states)@),
        r matches Ok(t) ==> t@.len() == trap@.len() && forall|i: int| 0 <= i < t@.len() ==> (#[trigger] t@[i]).0 == trap_ids@[i]
            && scn.transition_ok(trap@[i], t@[i].1@, final(states)@),
        forall|x: State| #[trigger] final(states)@.contains(x) ==> old(states)@.contains(x) || move_target(*scn, trap@, x),
        r is Err ==> final(states)@.len() > u32::MAX,
        r is Err ==> r->Err_0 is InvalidScenario,
{
    let ghost start = states@;
    let mut out: Vec<(u32, [u32; 8])> = Vec::new();
    let mut i: usize = 0;
    while i < trap.len()
        invariant
            i <= trap@.len(),
            scn.rules_ok(),
            forall|a: int| 0 <= a < trap@.len() ==> scn.state_fits(#[trigger] trap@[a]),
            indexes(id_of.view_map(), states@),
            states@.len() <= u32::MAX + 1,
            grows(old(states)@, states@),
            ids_name(start, trap_ids@, trap@),
            out@.len() == i,
            forall|a: int| 0 <= a < i ==> (#[trigger] out@[a]).0 == trap_ids@[a] && scn.transition_ok(trap@[a], out@[a].1@, states@),
            forall|x: State| #[trigger] states@.contains(x) ==> old(states)@.contains(x) || move_target(*scn, trap@, x),
        decreases trap@.len() - i,
    {
        let b = trap[i];
        let b_id = trap_ids[i];
        let moves = scn.rules.black_moves_with_delta(&b.pos);
        let ghost spec_moves = scn.rules.black_moves_spec(b.pos);
        let ghost s_in = states@;
        let mut next: [u32; 8] = [u32::MAX; 8];
        let mut k: usize = 0;
        while k < moves.len()
            invariant
                k <= moves@.len(),
                scn.rules_ok(),
                scn.state_fits(b),
                crate::chess::rules::black_moves_match(moves@, spec_moves, b.pos.len_spec()),
                spec_moves == scn.rules.black_moves_spec(b.pos),
                forall|j: int| 0 <= j < moves@.len() ==> -1 <= (#[trigger] moves@[j]).0.x <= 1 && -1 <= moves@[j].0.y <= 1,
                indexes(id_of.view_map(), states@),
                states@.len() <= u32::MAX + 1,
                grows(s_in, states@),
                grows(old(states)@, states@),
                next@.len() == 8,
                forall|d: int| 0 <= d < 8 && next@[d] != u32::MAX ==> (#[trigger] next@[d]) < states@.len() && exists|k2: int|
                    0 <= k2 < spec_moves.len() && spec_moves[k2].0 == dir_delta_spec(d) && scn.black_move_allowed(b, spec_moves[k2])
                        && states@[next@[d] as int] == scn.black_target(b, #[trigger] spec_moves[k2]),
                forall|k2: int, d: int| 0 <= k2 < k && 0 <= d < 8 && (#[trigger] spec_moves[k2]).0 == dir_delta_spec(d)
                    && scn.black_move_allowed(b, spec_moves[k2]) ==> #[trigger] next@[d] != u32::MAX,
                forall|x: State| #[trigger] states@.contains(x) ==> old(states)@.contains(x) || move_target(*scn, trap@, x),
                i < trap@.len(),
                b == trap@[i as int],
                moves@.len() == spec_moves.len(),
            decreases moves@.len() - k,
        {
            let (delta, pos2) = moves[k];
            proof {
                crate::board::position::lemma_position_of(pos2);
                assert(delta == spec_moves[k as int].0);
                assert(moves@[k as int] == (delta, pos2));
            }
            let anchor = if scn.track_abs_king { b.abs_king.plus(delta) } else { b.abs_king };
            let to = State { abs_king: anchor, pos: pos2 };
            proof {
                assert(to == scn.black_target(b, spec_moves[k as int]));
                assert(move_target(*scn, trap@, to));
            }
            if scn.laws.allow_black_move(&b, &to, delta) && scn.laws.allow_state(&to) {
                if let Some(dir) = dir_index(delta) {
                    let ghost s0 = states@;
                    let ghost n0 = next@;
                    let w_id = intern_state(states, id_of, to)?;
                    if w_id == u32::MAX {
                        return Err(invalid("too many states to index with u32"));
                    }
                    next[dir] = w_id;
                    proof {
                        assert forall|d: int| 0 <= d < 8 && next@[d] != u32::MAX implies (#[trigger] next@[d]) < states@.len() && exists|k2: int|
                            0 <= k2 < spec_moves.len() && spec_moves[k2].0 == dir_delta_spec(d) && scn.black_move_allowed(b, spec_moves[k2])
                                && states@[next@[d] as int] == scn.black_target(b, #[trigger] spec_moves[k2]) by {
                            if d == dir {
                                assert(spec_moves[k as int].0 == dir_delta_spec(d));
                                assert(states@[next@[d] as int] == scn.black_target(b, spec_moves[k as int]));
                            } else {
                                assert(next@[d] == n0[d]);
                                let k2 = choose|k2: int| 0 <= k2 < spec_moves.len() && spec_moves[k2].0 == dir_delta_spec(d)
                                    && scn.black_move_allowed(b, spec_moves[k2]) && s0[n0[d] as int] == scn.black_target(b, #[trigger] spec_moves[k2]);
                                assert(states@[next@[d] as int] == s0[n0[d] as int]);
                            }
                        }
                        assert forall|k2: int, d: int| 0 <= k2 < k + 1 && 0 <= d < 8 && (#[trigger] spec_moves[k2]).0 == dir_delta_spec(d)
                            && scn.black_move_allowed(b, spec_moves[k2]) implies #[trigger] next@[d] != u32::MAX by {
                            if d != dir {
                                assert(next@[d] == n0[d]);
                                if k2 == k {
                                    assert(dir_delta_spec(d) == dir_delta_spec(dir as int));
                                }
                            }
                        }
                    }
                } else {
                    proof {
                        assert forall|k2: int, d: int| 0 <= k2 < k + 1 && 0 <= d < 8 && (#[trigger] spec_moves[k2]).0 == dir_delta_spec(d)
                            && scn.black_move_allowed(b, spec_moves[k2]) implies #[trigger] next@[d] != u32::MAX by {
                            if k2 == k {
                                assert(dir_delta_spec(d) != delta);
                            }
                        }
                    }
                }
            }
            k += 1;
        }
        proof {
            assert(b == trap@[i as int]);
            assert(scn.transition_ok(b, next@, states@));
        }
        let ghost out0 = out@;
        out.push((b_id, next));
        proof {
            assert forall|a: int| 0 <= a < i + 1 implies (#[trigger] out@[a]).0 == trap_ids@[a] && scn.transition_ok(trap@[a], out@[a].1@, states@) by {
                if a < i {
                    assert(out@[a] == out0[a]);
                    let ta = trap@[a];
                    let nx = out0[a].1@;
                    let mv = scn.rules.black_moves_spec(ta.pos);
                    assert forall|d: int| 0 <= d < 8 && nx[d] != u32::MAX implies (#[trigger] nx[d]) < states@.len() && exists|k2: int|
                        0 <= k2 < mv.len() && mv[k2].0 == dir_delta_spec(d) && scn.black_move_allowed(ta, mv[k2])
                            && states@[nx[d] as int] == scn.black_target(ta, #[trigger] mv[k2]) by {
                        assert(states@[nx[d] as int] == s_in[nx[d] as int]);
                    }
                }
            }
        }
        i += 1;
    }
    Ok(out)
}

/// The bound recommended for viewing the trap `t`: at least 2, at least the L∞ norm of every
/// piece square of its states, and one of those norms when above 2.
pub open spec fn view_bound_ok(t: Set<State>, rb: int) -> bool {
    &&& rb >= 2
    &&& forall|s: State, j: int| t.contains(s) && 0 <= j < s.pos@.len() && !(#[trigger] s.pos@[j]).is_none_spec() ==> s.pos@[j].coord_spec().norm_spec() <= rb
    &&& rb > 2 ==> exists|s: State, j: int| t.contains(s) && 0 <= j < s.pos@.len() && !(#[trigger] s.pos@[j]).is_none_spec()
        && s.pos@[j].coord_spec().norm_spec() == rb
}

/// What the maximum over the squares is.
proof fn lemma_max_square_norm(sq: Seq<crate::board::square::Square>)
    ensures
        max_square_norm(sq) >= 0,
        forall|j: int| 0 <= j < sq.len() && !(#[trigger] sq[j]).is_none_spec() ==> sq[j].coord_spec().norm_spec() <= max_square_norm(sq),
        max_square_norm(sq) > 0 ==> exists|j: int| 0 <= j < sq.len() && !(#[trigger] sq[j]).is_none_spec() && sq[j].coord_spec().norm_spec() == max_square_norm(sq),
    decreases sq.len(),
{
    if sq.len() > 0 {
        let p = sq.drop_last();
        lemma_max_square_norm(p);
        assert forall|j: int| 0 <= j < sq.len() && !(#[trigger] sq[j]).is_none_spec() implies sq[j].coord_spec().norm_spec() <= max_square_norm(sq) by {
            if j < sq.len() - 1 {
                assert(p[j] == sq[j]);
            }
        }
        if max_square_norm(sq) > 0 {
            if max_square_norm(sq) == max_square_norm(p) && max_square_norm(p) > 0 {
                let j = choose|j: int| 0 <= j < p.len() && !(#[trigger] p[j]).is_none_spec() && p[j].coord_spec().norm_spec() == max_square_norm(p);
                assert(sq[j] == p[j]);
            } else {
                assert(sq[sq.len() - 1] == sq.last());
            }
        }
    }
}

/// What the maximum over the states is.
proof fn lemma_max_piece_norm(list: Seq<State>)
    ensures
        max_piece_norm(list) >= 0,
        forall|i: int, j: int| 0 <= i < list.len() && 0 <= j < list[i].pos@.len() && !(#[trigger] list[i].pos@[j]).is_none_spec()
            ==> list[i].pos@[j].coord_spec().norm_spec() <= max_piece_norm(list),
        max_piece_norm(list) > 0 ==> exists|i: int, j: int| 0 <= i < list.len() && 0 <= j < list[i].pos@.len()
            && !(#[trigger] list[i].pos@[j]).is_none_spec() && list[i].pos@[j].coord_spec().norm_spec() == max_piece_norm(list),
    decreases list.len(),
{
    if list.len() > 0 {
        let p = list.drop_last();
        let last = list.last();
        lemma_max_piece_norm(p);
        lemma_max_square_norm(last.pos@);
        assert(list[list.len() - 1] == last);
        assert forall|i: int, j: int| 0 <= i < list.len() && 0 <= j < list[i].pos@.len() && !(#[trigger] list[i].pos@[j]).is_none_spec()
            implies list[i].pos@[j].coord_spec().norm_spec() <= max_piece_norm(list) by {
            if i < list.len() - 1 {
                assert(p[i] == list[i]);
            }
        }
        if max_piece_norm(list) > 0 {
            if max_piece_norm(list) == max_piece_norm(p) && max_piece_norm(p) > 0 {
                let (i, j) = choose|i: int, j: int| 0 <= i < p.len() && 0 <= j < p[i].pos@.len()
                    && !(#[trigger] p[i].pos@[j]).is_none_spec() && p[i].pos@[j].coord_spec().norm_spec() == max_piece_norm(p);
                assert(list[i] == p[i]);
            } else {
                let j = choose|j: int| 0 <= j < last.pos@.len() && !(#[trigger] last.pos@[j]).is_none_spec()
                    && last.pos@[j].coord_spec().norm_spec() == max_square_norm(last.pos@);
                assert(list[list.len() - 1].pos@[j] == last.pos@[j]);
            }
        }
    }
}

/// Everything an exported bundle states, given the scenario's maximal trap `t`.
pub open spec fn bundle_ok<D: DomainLike, L: LawsLike, P>(
    scn: Scenario<D, L, P>,
    options: ExportOptions,
    created_unix_secs: u64,
    t: Set<State>,
    bd: SolutionBundle,
) -> bool {
    let st = bd.data.states@;
    let m = bd.manifest;
    let trap_ids = bd.data.trap_set_ids@;
    let tr = bd.data.transitions@;
    &&& st.no_duplicates()
    &&& st.len() <= u32::MAX
    &&& ids_cover(st, trap_ids, t)
    &&& m.start.to_move == ManifestSide::Black
    &&& m.start.state_id < st.len()
    &&& t.contains(st[m.start.state_id as int])
    &&& (t.contains(scn.start.state) && scn.legal_black_spec(scn.laws, scn.start.state).len() > 0 ==> st[m.start.state_id as int] == scn.start.state)
    &&& tr.len() == trap_ids.len()
    &&& forall|i: int| 0 <= i < tr.len() ==> (#[trigger] tr[i]).0 == trap_ids[i] && scn.transition_ok(st[trap_ids[i] as int], tr[i].1@, st)
    &&& exists|mt: Map<State, State>| #[trigger] pairs_name(st, bd.data.strategy_trap@, mt) && replies_stay(scn, t, mt) && covers_stays(scn, t, mt)
    &&& exists|tt: Set<State>, mm: Map<State, State>| {
        &&& #[trigger] ids_cover(st, bd.data.tempo_set_ids@, tt)
        &&& #[trigger] pairs_name(st, bd.data.strategy_tempo@, mm)
        &&& tt.subset_of(t)
        &&& options.compute_tempo ==> tempo_step_ok(scn, t, tt) && strategy_keeps(scn, tt, mm)
        &&& !options.compute_tempo ==> tt.is_empty() && mm.dom().is_empty()
    }
    &&& m.counts.states == st.len()
    &&& m.counts.trap == trap_ids.len()
    &&& m.counts.tempo == bd.data.tempo_set_ids@.len()
    &&& m.counts.trap_strategy == bd.data.strategy_trap@.len()
    &&& m.counts.tempo_strategy == bd.data.strategy_tempo@.len()
    &&& m.format_version == FORMAT_VERSION
    &&& m.created_unix_secs == created_unix_secs
    &&& m.scenario_name@ == scn.name@
    &&& m.rules == rules_manifest_spec(scn.rules)
    &&& m.params == (ParamsManifest { white_can_pass: scn.white_can_pass, track_abs_king: scn.track_abs_king, remove_stalemates: scn.remove_stalemates })
    &&& m.view.default_mode == ViewMode::Relative
    &&& match options.view_bound {
        Some(b) => m.view.recommended_bound == b,
        None => match scn.candidates {
            CandidateGeneration::InLinfBound { bound, .. } => m.view.recommended_bound == bound,
            _ => view_bound_ok(t, m.view.recommended_bound as int),
        },
    }
    &&& m.files.data_bin@ == DATA_FILENAME@
}

/// The states a bundle of the trap `t` can name: those of `t`, those reached by a black move
/// from `t`, and those reached by a king move from `t`.
pub open spec fn bundle_names<D, L: LawsLike, P>(scn: Scenario<D, L, P>, t: Set<State>) -> Set<State> {
    Set::new(|x: State| t.contains(x) || black_move_from(scn, t, x)
        || exists|b: State, k: int| t.contains(b) && 0 <= k < scn.rules.black_moves_spec(b.pos).len()
            && x == scn.black_target(b, #[trigger] scn.rules.black_moves_spec(b.pos)[k]))
}

/// More than `u32::MAX` distinct states lie in `names`: too many to number with u32 ids.
pub open spec fn more_than_u32_states(names: Set<State>) -> bool {
    exists|q: Seq<State>| #[trigger] q.no_duplicates() && q.len() > u32::MAX
        && forall|i: int| 0 <= i < q.len() ==> names.contains(q[i])
}

proof fn lemma_too_many(q: Seq<State>, names: Set<State>)
    requires
        q.no_duplicates(),
        q.len() > u32::MAX,
        forall|x: State| #[trigger] q.contains(x) ==> names.contains(x),
    ensures
        more_than_u32_states(names),
{
    assert forall|i: int| 0 <= i < q.len() implies names.contains(q[i]) by {
        assert(q.contains(q[i]));
    }
}

proof fn lemma_indexed_no_dup(idx: Map<State, usize>, list: Seq<State>)
    requires
        indexes(idx, list),
    ensures
        list.no_duplicates(),
{
    assert forall|i: int, j: int| 0 <= i < list.len() && 0 <= j < list.len() && i != j implies list[i] != list[j] by {
        assert(idx.contains_key(list[i]));
        assert(idx.contains_key(list[j]));
    }
}

/// States interned for the transitions of the trap states are named by the bundle.
proof fn lemma_targets_named<D, L: LawsLike, P>(scn: Scenario<D, L, P>, t: Set<State>, trap: Seq<State>, before: Seq<State>, after: Seq<State>)
    requires
        forall|i: int| 0 <= i < trap.len() ==> t.contains(#[trigger] trap[i]),
        forall|x: State| #[trigger] before.contains(x) ==> bundle_names(scn, t).contains(x),
        forall|x: State| #[trigger] after.contains(x) ==> before.contains(x) || move_target(scn, trap, x),
    ensures
        forall|x: State| #[trigger] after.contains(x) ==> bundle_names(scn, t).contains(x),
{
    assert forall|x: State| #[trigger] after.contains(x) implies bundle_names(scn, t).contains(x) by {
        if !before.contains(x) {
            let (i, k) = choose|i: int, k: int| 0 <= i < trap.len() && 0 <= k < scn.rules.black_moves_spec(trap[i].pos).len()
                && x == scn.black_target(trap[i], #[trigger] scn.rules.black_moves_spec(trap[i].pos)[k]);
            assert(t.contains(trap[i]));
        }
    }
}

/// States interned for the pairs of a strategy that replies from black moves of `t` into `t`
/// are named by the bundle.
proof fn lemma_pairs_named<D, L: LawsLike, P>(scn: Scenario<D, L, P>, t: Set<State>, m: Map<State, State>, pairs: Seq<(State, State)>, before: Seq<State>, after: Seq<State>)
    requires
        forall|w: State| #[trigger] m.contains_key(w) ==> black_move_from(scn, t, w) && t.contains(m[w]),
        forall|i: int| 0 <= i < pairs.len() ==> #[trigger] m.contains_key(pairs[i].0) && m[pairs[i].0] == pairs[i].1,
        forall|x: State| #[trigger] before.contains(x) ==> bundle_names(scn, t).contains(x),
        forall|x: State| #[trigger] after.contains(x) ==> before.contains(x) || pair_member(pairs, x),
    ensures
        forall|x: State| #[trigger] after.contains(x) ==> bundle_names(scn, t).contains(x),
{
    assert forall|x: State| #[trigger] after.contains(x) implies bundle_names(scn, t).contains(x) by {
        if !before.contains(x) {
            let i = choose|i: int| 0 <= i < pairs.len() && (#[trigger] pairs[i].0 == x || pairs[i].1 == x);
            assert(m.contains_key(pairs[i].0));
        }
    }
}

/// A strategy with more than `u32::MAX` entries names more than `u32::MAX` states.
proof fn lemma_keys_many<D, L: LawsLike, P>(scn: Scenario<D, L, P>, t: Set<State>, m: Map<State, State>, pairs: Seq<(State, State)>)
    requires
        forall|w: State| #[trigger] m.contains_key(w) ==> black_move_from(scn, t, w),
        forall|i: int| 0 <= i < pairs.len() ==> #[trigger] m.contains_key(pairs[i].0),
        forall|i: int, j: int| 0 <= i < j < pairs.len() ==> #[trigger] pairs[i].0 != #[trigger] pairs[j].0,
        pairs.len() > u32::MAX,
    ensures
        more_than_u32_states(bundle_names(scn, t)),
{
    let q = Seq::new(pairs.len(), |i: int| pairs[i].0);
    assert(q.no_duplicates()) by {
        assert forall|i: int, j: int| 0 <= i < q.len() && 0 <= j < q.len() && i != j implies q[i] != q[j] by {
            if i < j {
                assert(pairs[i].0 != pairs[j].0);
            } else {
                assert(pairs[j].0 != pairs[i].0);
            }
        }
    }
    assert forall|x: State| #[trigger] q.contains(x) implies bundle_names(scn, t).contains(x) by {
        let i = choose|i: int| 0 <= i < q.len() && q[i] == x;
        assert(m.contains_key(pairs[i].0));
    }
    lemma_too_many(q, bundle_names(scn, t));
}

/// Solves the scenario (Black to move first) and builds its bundle: the maximal trap, its
/// transitions and White's strategy for staying in it, and, when `options.compute_tempo` is
/// set, the tempo trap and its strategy; states are numbered as they are first met, starting
/// with the state where play starts. `created_unix_secs` is stored in the manifest.
pub fn export_bundle<D: DomainLike, L: LawsLike, P: PreferencesLike>(
    scn: &Scenario<D, L, P>,
    options: ExportOptions,
    created_unix_secs: u64,
) -> (r: Result<SolutionBundle, SearchError>)
    ensures
        !scn.valid_spec() ==> r matches Err(SearchError::InvalidScenario { .. }),
        scn.valid_spec() && scn.start.to_move != Side::Black ==> r matches Err(SearchError::InvalidScenario { .. }),
        r is Err ==> over_budget_or_alloc(scn.limits, r->Err_0) || r->Err_0 is InvalidScenario
            || (scn.candidates matches CandidateGeneration::ReachableFromStart { max_queue } && queue_overflow(max_queue, r->Err_0)),
        r matches Err(SearchError::InvalidScenario { .. }) ==> !scn.valid_spec() || scn.start.to_move != Side::Black
            || candidates_invalid(*scn) || anchors_invalid(*scn) || options.compute_tempo
            || exists|t: Set<State>, c: Set<State>| {
                &&& all_generated(*scn, c)
                &&& scn.candidates_complete(c)
                &&& #[trigger] scn.greatest_trap_in(c, t)
                &&& (t.is_empty() || more_than_u32_states(bundle_names(*scn, t)))
            },
        r matches Ok(bd) ==> exists|t: Set<State>, c: Set<State>| {
            &&& all_generated(*scn, c)
            &&& scn.candidates_complete(c)
            &&& #[trigger] scn.greatest_trap_in(c, t)
            &&& bundle_ok(*scn, options, created_unix_secs, t, bd)
        },
{
    scn.validate()?;
    if scn.start.to_move != Side::Black {
        return Err(invalid("export_bundle currently requires start.to_move == Black"));
    }
    proof {
        use_type_invariant(&scn.rules.layout);
    }
    let trap = maximal_inescapable_trap(scn)?;
    let ghost t = trap.view_set();
    let ghost c = choose|c: Set<State>| {
        &&& all_generated(*scn, c)
        &&& scn.candidates_complete(c)
        &&& #[trigger] scn.greatest_trap_in(c, t)
    };
    proof {
        assert forall|s: State| #[trigger] t.contains(s) implies scn.state_fits(s) by {
            assert(c.contains(s));
            assert(scn.generated(s));
        }
    }
    let (tempo, tempo_strategy) = if options.compute_tempo {
        tempo_trap_buchi_with_strategy(scn, &trap)?
    } else {
        (StateSet::new(), StateMoves::new())
    };
    let play_start = if trap.contains(&scn.start.state) && has_any_legal_black_move(scn, &scn.start.state) {
        scn.start.state
    } else {
        choose_play_start(scn, &trap, &tempo)?
    };
    let trap_strategy = extract_white_stay_strategy(scn, &trap)?;
    let rules_manifest = rules_manifest_from_rules(&scn.rules);
    let params_manifest = ParamsManifest {
        white_can_pass: scn.white_can_pass,
        track_abs_king: scn.track_abs_king,
        remove_stalemates: scn.remove_stalemates,
    };
    let ghost names = bundle_names(*scn, t);
    let mut states: Vec<State> = Vec::new();
    let mut id_of = StateIndex::new();
    proof {
        assert(indexes(id_of.view_map(), states@));
    }
    let start_id = match intern_state(&mut states, &mut id_of, play_start) {
        Ok(id) => id,
        Err(e) => {
            proof {
                assert(!states@.contains(play_start));
                assert(states@ =~= Seq::<State>::empty());
            }
            return Err(e);
        },
    };
    proof {
        assert forall|x: State| #[trigger] states@.contains(x) implies names.contains(x) by {
            assert(t.contains(play_start));
        }
    }
    let trap_list = trap.to_vec();
    let ghost s_start = states@;
    let trap_set_ids = match intern_all(&mut states, &mut id_of, &trap_list) {
        Ok(ids) => ids,
        Err(e) => {
            proof {
                lemma_indexed_no_dup(id_of.view_map(), states@);
                assert forall|x: State| #[trigger] states@.contains(x) implies names.contains(x) by {
                    if trap_list@.contains(x) {
                        assert(trap_list@.to_set().contains(x));
                    }
                }
                lemma_too_many(states@, names);
                assert(scn.greatest_trap_in(c, t));
            }
            return Err(e);
        },
    };
    proof {
        assert forall|i: int| 0 <= i < trap_list@.len() implies scn.state_fits(#[trigger] trap_list@[i]) by {
            assert(trap_list@.to_set().contains(trap_list@[i]));
        }
        assert forall|x: State| #[trigger] states@.contains(x) implies names.contains(x) by {
            if trap_list@.contains(x) {
                assert(trap_list@.to_set().contains(x));
            }
        }
    }
    let ghost s_trap = states@;
    let ghost sv_trans = states@;
    let transitions = match trap_transitions(scn, &trap_list, &trap_set_ids, &mut states, &mut id_of) {
        Ok(tr) => tr,
        Err(e) => {
            proof {
                lemma_indexed_no_dup(id_of.view_map(), states@);
                lemma_targets_named(*scn, t, trap_list@, sv_trans, states@);
                lemma_too_many(states@, names);
                assert(scn.greatest_trap_in(c, t));
            }
            return Err(e);
        },
    };
    proof {
        lemma_targets_named(*scn, t, trap_list@, sv_trans, states@);
    }
    let ghost s_trans = states@;
    let trap_pairs = trap_strategy.to_vec();
    let strategy_trap = match intern_pairs(&mut states, &mut id_of, &trap_pairs) {
        Ok(ids) => ids,
        Err(e) => {
            proof {
                lemma_indexed_no_dup(id_of.view_map(), states@);
                lemma_pairs_named(*scn, t, trap_strategy.view_map(), trap_pairs@, s_trans, states@);
                lemma_too_many(states@, names);
                assert(scn.greatest_trap_in(c, t));
            }
            return Err(e);
        },
    };
    proof {
        lemma_pairs_named(*scn, t, trap_strategy.view_map(), trap_pairs@, s_trans, states@);
    }
    let ghost s_st = states@;
    let tempo_pairs = tempo_strategy.to_vec();
    let strategy_tempo = match intern_pairs(&mut states, &mut id_of, &tempo_pairs) {
        Ok(ids) => ids,
        Err(e) => {
            proof {
                lemma_indexed_no_dup(id_of.view_map(), states@);
                lemma_pairs_named(*scn, t, tempo_strategy.view_map(), tempo_pairs@, s_st, states@);
                lemma_too_many(states@, names);
                assert(scn.greatest_trap_in(c, t));
            }
            return Err(e);
        },
    };
    proof {
        lemma_pairs_named(*scn, t, tempo_strategy.view_map(), tempo_pairs@, s_st, states@);
    }
    let ghost s_tt = states@;
    let tempo_list = tempo.to_vec();
    let tempo_set_ids = match intern_all(&mut states, &mut id_of, &tempo_list) {
        Ok(ids) => ids,
        Err(e) => {
            proof {
                lemma_indexed_no_dup(id_of.view_map(), states@);
                assert forall|x: State| #[trigger] states@.contains(x) implies names.contains(x) by {
                    if tempo_list@.contains(x) {
                        assert(tempo_list@.to_set().contains(x));
                    }
                }
                lemma_too_many(states@, names);
                assert(scn.greatest_trap_in(c, t));
            }
            return Err(e);
        },
    };
    proof {
        lemma_indexed_no_dup(id_of.view_map(), states@);
        assert forall|x: State| #[trigger] states@.contains(x) implies names.contains(x) by {
            if tempo_list@.contains(x) {
                assert(tempo_list@.to_set().contains(x));
            }
        }
    }
    let mut recommended_bound = match scn.candidates {
        CandidateGeneration::InLinfBound { bound, .. } => bound,
        _ => {
            let b = compute_recommended_bound(&trap_list);
            if b > 2 { b } else { 2 }
        },
    };
    if let Some(b) = options.view_bound {
        recommended_bound = b;
    }
    let n_states = match codec::to_u32_len(states.len(), "manifest_counts_states") {
        Ok(n) => n,
        Err(e) => {
            proof {
                lemma_too_many(states@, names);
                assert(scn.greatest_trap_in(c, t));
            }
            return Err(e);
        },
    };
    let n_trap = match codec::to_u32_len(trap_set_ids.len(), "manifest_counts_trap") {
        Ok(n) => n,
        Err(e) => {
            proof {
                assert forall|x: State| #[trigger] trap_list@.contains(x) implies names.contains(x) by {
                    assert(trap_list@.to_set().contains(x));
                }
                lemma_too_many(trap_list@, names);
                assert(scn.greatest_trap_in(c, t));
            }
            return Err(e);
        },
    };
    let n_tempo = match codec::to_u32_len(tempo_set_ids.len(), "manifest_counts_tempo") {
        Ok(n) => n,
        Err(e) => {
            proof {
                assert forall|x: State| #[trigger] tempo_list@.contains(x) implies names.contains(x) by {
                    assert(tempo_list@.to_set().contains(x));
                }
                lemma_too_many(tempo_list@, names);
                assert(scn.greatest_trap_in(c, t));
            }
            return Err(e);
        },
    };
    let n_trap_strategy = match codec::to_u32_len(strategy_trap.len(), "manifest_counts_trap_strategy") {
        Ok(n) => n,
        Err(e) => {
            proof {
                lemma_keys_many(*scn, t, trap_strategy.view_map(), trap_pairs@);
                assert(scn.greatest_trap_in(c, t));
            }
            return Err(e);
        },
    };
    let n_tempo_strategy = match codec::to_u32_len(strategy_tempo.len(), "manifest_counts_tempo_strategy") {
        Ok(n) => n,
        Err(e) => {
            proof {
                lemma_keys_many(*scn, t, tempo_strategy.view_map(), tempo_pairs@);
                assert(scn.greatest_trap_in(c, t));
            }
            return Err(e);
        },
    };
    let counts = CountsManifest {
        states: n_states,
        trap: n_trap,
        tempo: n_tempo,
        trap_strategy: n_trap_strategy,
        tempo_strategy: n_tempo_strategy,
    };
    let manifest = SolutionManifest {
        format_version: FORMAT_VERSION,
        created_unix_secs,
        scenario_name: scn.name.to_owned(),
        rules: rules_manifest,
        params: params_manifest,
        start: StartManifest { to_move: ManifestSide::Black, state_id: start_id },
        view: ViewManifest { default_mode: ViewMode::Relative, recommended_bound },
        counts,
        files: FilesManifest { data_bin: DATA_FILENAME.to_owned() },
    };
    let ghost s_final = states@;
    let data = SolutionData { states, trap_set_ids, tempo_set_ids, transitions, strategy_trap, strategy_tempo };
    let bd = SolutionBundle { manifest, data };
    proof {
        let st = bd.data.states@;
        assert(st.no_duplicates()) by {
            assert forall|i: int, j: int| 0 <= i < st.len() && 0 <= j < st.len() && i != j implies st[i] != st[j] by {
                assert(st == s_final);
                assert(id_of.view_map().contains_key(s_final[i]));
                assert(id_of.view_map().contains_key(s_final[j]));
            }
        }
        // trap ids
        assert(ids_cover(st, trap_set_ids@, t)) by {
            assert forall|i: int| 0 <= i < trap_set_ids@.len() implies (#[trigger] trap_set_ids@[i]) < st.len() && t.contains(st[trap_set_ids@[i] as int]) by {
                assert(s_trap[trap_set_ids@[i] as int] == trap_list@[i]);
                assert(trap_list@.to_set().contains(trap_list@[i]));
            }
            assert forall|s: State| #[trigger] t.contains(s) implies exists|i: int| 0 <= i < trap_set_ids@.len() && st[trap_set_ids@[i] as int] == s by {
                assert(trap_list@.to_set().contains(s));
                let i = choose|i: int| 0 <= i < trap_list@.len() && trap_list@[i] == s;
                assert(s_trap[trap_set_ids@[i] as int] == trap_list@[i]);
            }
        }
        // start
        assert(st[start_id as int] == play_start);
        // transitions
        assert forall|i: int| 0 <= i < transitions@.len() implies (#[trigger] transitions@[i]).0 == trap_set_ids@[i]
            && scn.transition_ok(st[trap_set_ids@[i] as int], transitions@[i].1@, st) by {
            assert(s_trans[trap_set_ids@[i] as int] == trap_list@[i]);
            let b = trap_list@[i];
            let nx = transitions@[i].1@;
            let mv = scn.rules.black_moves_spec(b.pos);
            assert forall|d: int| 0 <= d < 8 && nx[d] != u32::MAX implies (#[trigger] nx[d]) < st.len() && exists|k2: int|
                0 <= k2 < mv.len() && mv[k2].0 == dir_delta_spec(d) && scn.black_move_allowed(b, mv[k2])
                    && st[nx[d] as int] == scn.black_target(b, #[trigger] mv[k2]) by {
                assert(st[nx[d] as int] == s_trans[nx[d] as int]);
            }
        }
        // trap strategy
        let mt = trap_strategy.view_map();
        assert(pairs_name(st, strategy_trap@, mt)) by {
            assert forall|i: int| 0 <= i < strategy_trap@.len() implies (#[trigger] strategy_trap@[i]).0 < st.len() && strategy_trap@[i].1 < st.len()
                && mt.contains_key(st[strategy_trap@[i].0 as int]) && mt[st[strategy_trap@[i].0 as int]] == st[strategy_trap@[i].1 as int] by {
                assert(st[strategy_trap@[i].0 as int] == s_st[strategy_trap@[i].0 as int]);
                assert(st[strategy_trap@[i].1 as int] == s_st[strategy_trap@[i].1 as int]);
                assert(mt.contains_key(trap_pairs@[i].0));
            }
            assert forall|w: State| #[trigger] mt.contains_key(w) implies exists|i: int| 0 <= i < strategy_trap@.len() && st[strategy_trap@[i].0 as int] == w by {
                let i = choose|i: int| 0 <= i < trap_pairs@.len() && trap_pairs@[i].0 == w;
                assert(st[strategy_trap@[i].0 as int] == s_st[strategy_trap@[i].0 as int]);
            }
        }
        // tempo
        let tt = tempo.view_set();
        let mm = tempo_strategy.view_map();
        assert(ids_cover(st, tempo_set_ids@, tt)) by {
            assert forall|i: int| 0 <= i < tempo_set_ids@.len() implies (#[trigger] tempo_set_ids@[i]) < st.len() && tt.contains(st[tempo_set_ids@[i] as int]) by {
                assert(tempo_list@.to_set().contains(tempo_list@[i]));
            }
            assert forall|s: State| #[trigger] tt.contains(s) implies exists|i: int| 0 <= i < tempo_set_ids@.len() && st[tempo_set_ids@[i] as int] == s by {
                assert(tempo_list@.to_set().contains(s));
                let i = choose|i: int| 0 <= i < tempo_list@.len() && tempo_list@[i] == s;
                assert(st[tempo_set_ids@[i] as int] == tempo_list@[i]);
            }
        }
        assert(pairs_name(st, strategy_tempo@, mm)) by {
            assert forall|i: int| 0 <= i < strategy_tempo@.len() implies (#[trigger] strategy_tempo@[i]).0 < st.len() && strategy_tempo@[i].1 < st.len()
                && mm.contains_key(st[strategy_tempo@[i].0 as int]) && mm[st[strategy_tempo@[i].0 as int]] == st[strategy_tempo@[i].1 as int] by {
                assert(st[strategy_tempo@[i].0 as int] == s_tt[strategy_tempo@[i].0 as int]);
                assert(st[strategy_tempo@[i].1 as int] == s_tt[strategy_tempo@[i].1 as int]);
                assert(mm.contains_key(tempo_pairs@[i].0));
            }
            assert forall|w: State| #[trigger] mm.contains_key(w) implies exists|i: int| 0 <= i < strategy_tempo@.len() && st[strategy_tempo@[i].0 as int] == w by {
                let i = choose|i: int| 0 <= i < tempo_pairs@.len() && tempo_pairs@[i].0 == w;
                assert(st[strategy_tempo@[i].0 as int] == s_tt[strategy_tempo@[i].0 as int]);
            }
        }
        if !options.compute_tempo {
            assert(tt =~= Set::<State>::empty());
            assert(mm.dom() =~= Set::<State>::empty());
        }
        // view bound
        if options.view_bound is None && !(scn.candidates is InLinfBound) {
            lemma_max_piece_norm(trap_list@);
            let rb = recommended_bound as int;
            assert forall|s: State, j: int| t.contains(s) && 0 <= j < s.pos@.len() && !(#[trigger] s.pos@[j]).is_none_spec()
                implies s.pos@[j].coord_spec().norm_spec() <= rb by {
                assert(trap_list@.to_set().contains(s));
                let i = choose|i: int| 0 <= i < trap_list@.len() && trap_list@[i] == s;
                assert(trap_list@[i].pos@[j] == s.pos@[j]);
            }
            if rb > 2 {
                let (i, j) = choose|i: int, j: int| 0 <= i < trap_list@.len() && 0 <= j < trap_list@[i].pos@.len()
                    && !(#[trigger] trap_list@[i].pos@[j]).is_none_spec() && trap_list@[i].pos@[j].coord_spec().norm_spec() == max_piece_norm(trap_list@);
                assert(trap_list@.to_set().contains(trap_list@[i]));
            }
        }
        assert(st.len() <= u32::MAX);
        assert(t.contains(st[bd.manifest.start.state_id as int]));
        assert(t.contains(scn.start.state) && scn.legal_black_spec(scn.laws, scn.start.state).len() > 0 ==> st[bd.manifest.start.state_id as int] == scn.start.state);
        assert(bd.data.strategy_trap@ == strategy_trap@);
        assert(pairs_name(st, bd.data.strategy_trap@, mt));
        assert(replies_stay(*scn, t, mt));
        assert(covers_stays(*scn, t, mt));
        assert(exists|mt: Map<State, State>| #[trigger] pairs_name(st, bd.data.strategy_trap@, mt) && replies_stay(*scn, t, mt) && covers_stays(*scn, t, mt));
        assert(tt.subset_of(t));
        assert(options.compute_tempo ==> tempo_step_ok(*scn, t, tt) && strategy_keeps(*scn, tt, mm));
        assert(bd.data.tempo_set_ids@ == tempo_set_ids@);
        assert(bd.data.strategy_tempo@ == strategy_tempo@);
        assert(ids_cover(st, bd.data.tempo_set_ids@, tt));
        assert(pairs_name(st, bd.data.strategy_tempo@, mm));
        assert(bd.manifest.rules == rules_manifest_spec(scn.rules));
        assert(bd.manifest.scenario_name@ == scn.name@);
        assert(bd.manifest.files.data_bin@ == DATA_FILENAME@);
        assert(bundle_ok(*scn, options, created_unix_secs, t, bd));
    }
    Ok(bd)
}

/// A loaded bundle, with indices for fast play.
pub struct LoadedSolution {
    pub manifest: SolutionManifest,
    pub rules: Rules,
    pub states: Vec<State>,
    pub id_of: StateIds,
    pub trap_ids: IdSet,
    pub tempo_ids: IdSet,
    pub transitions: Vec<[u32; 8]>,
    pub strat_trap: IdMap,
    pub strat_tempo: IdMap,
}

/// The id of each state of `states` (the last index, for a state listed twice).
pub open spec fn ids_of(states: Seq<State>) -> Map<State, u32>
    decreases states.len(),
{
    if states.len() == 0 {
        Map::empty()
    } else {
        ids_of(states.drop_last()).insert(states.last(), (states.len() - 1) as u32)
    }
}

/// The map given by the pairs, later pairs overriding earlier ones.
pub open spec fn pairs_map(pairs: Seq<(u32, u32)>) -> Map<u32, u32>
    decreases pairs.len(),
{
    if pairs.len() == 0 {
        Map::empty()
    } else {
        pairs_map(pairs.drop_last()).insert(pairs.last().0, pairs.last().1)
    }
}

/// The transition table of `n` states given by the records, later records overriding
/// earlier ones; states without a record have no move.
pub open spec fn transition_table(n: nat, records: Seq<(u32, [u32; 8])>) -> Seq<Seq<u32>>
    decreases records.len(),
{
    if records.len() == 0 {
        Seq::new(n, |i: int| Seq::new(8, |d: int| u32::MAX))
    } else {
        let prev = transition_table(n, records.drop_last());
        if (records.last().0 as int) < n {
            prev.update(records.last().0 as int, records.last().1@)
        } else {
            prev
        }
    }
}

/// Every record names a state below `n`.
pub open spec fn records_in_range(n: nat, records: Seq<(u32, [u32; 8])>) -> bool {
    forall|i: int| 0 <= i < records.len() ==> (#[trigger] records[i]).0 < n
}

/// A set holding the ids of `ids`.
fn id_set_of(ids: &Vec<u32>) -> (s: IdSet)
    ensures
        s.view_set() == ids@.to_set(),
{
    let mut s = IdSet::new();
    let mut i: usize = 0;
    while i < ids.len()
        invariant
            i <= ids@.len(),
            s.view_set() == ids@.take(i as int).to_set(),
        decreases ids@.len() - i,
    {
        s.insert(ids[i]);
        proof {
            let t0 = ids@.take(i as int);
            let t1 = ids@.take(i + 1);
            assert forall|x: u32| t1.to_set().contains(x) <==> t0.to_set().insert(ids@[i as int]).contains(x) by {
                if t1.to_set().contains(x) {
                    let a = choose|a: int| 0 <= a < t1.len() && t1[a] == x;
                    if a < i {
                        assert(t0[a] == x);
                    }
                }
                if t0.to_set().contains(x) {
                    let a = choose|a: int| 0 <= a < t0.len() && t0[a] == x;
                    assert(t1[a] == x);
                }
                if x == ids@[i as int] {
                    assert(t1[i as int] == x);
                }
            }
            assert(t1.to_set() =~= t0.to_set().insert(ids@[i as int]));
        }
        i += 1;
    }
    proof {
        assert(ids@.take(ids@.len() as int) =~= ids@);
    }
    s
}

/// A map holding the pairs, later pairs overriding earlier ones.
fn id_map_of(pairs: &Vec<(u32, u32)>) -> (m: IdMap)
    ensures
        m.view_map() == pairs_map(pairs@),
{
    let mut m = IdMap::new();
    proof {
        assert(m.view_map() =~= pairs_map(pairs@.take(0)));
    }
    let mut i: usize = 0;
    while i < pairs.len()
        invariant
            i <= pairs@.len(),
            m.view_map() == pairs_map(pairs@.take(i as int)),
        decreases pairs@.len() - i,
    {
        let (k, v) = pairs[i];
        m.insert(k, v);
        proof {
            assert(pairs@.take(i + 1).drop_last() =~= pairs@.take(i as int));
        }
        i += 1;
    }
    proof {
        assert(pairs@.take(pairs@.len() as int) =~= pairs@);
    }
    m
}

/// The rules of a manifest of the supported version.
pub fn manifest_rules(manifest: &SolutionManifest) -> (r: Result<Rules, SearchError>)
    requires
        manifest.format_version == FORMAT_VERSION ==> manifest.rules.move_bound >= 1,
    ensures
        manifest.format_version != FORMAT_VERSION ==> r matches Err(SearchError::InvalidScenario { .. }),
        manifest.format_version == FORMAT_VERSION && manifest_piece_count(manifest.rules) <= MAX_PIECES ==> (r matches Ok(x)
            && x.move_bound == manifest.rules.move_bound && x.layout.kinds_spec() == layout_kinds_spec(manifest.rules.white_king,
            manifest.rules.queens as nat, manifest.rules.rooks as nat, manifest.rules.bishops as nat, manifest.rules.knights as nat)),
        manifest.format_version == FORMAT_VERSION && manifest_piece_count(manifest.rules) > MAX_PIECES ==> r matches Err(SearchError::InvalidScenario { .. }),
{
    if manifest.format_version != FORMAT_VERSION {
        let mut t: Vec<char> = Vec::new();
        push_str_chars(&mut t, "unsupported solution format_version ");
        push_decimal_u64(&mut t, manifest.format_version as u64);
        push_str_chars(&mut t, " (expected 1)");
        return Err(SearchError::InvalidScenario { reason: string_from_chars(t) });
    }
    rules_from_manifest(&manifest.rules)
}

/// Loads a bundle from its manifest and the bytes of its data table (read from
/// `data_path`): checks the version and the rules, decodes the table for the rules' piece
/// count, and builds the indices. Fails when a transition names a state out of range.
pub fn load_bundle(manifest: SolutionManifest, data_bytes: &[u8], data_path: &str) -> (r: Result<LoadedSolution, SearchError>)
    requires
        manifest.format_version == FORMAT_VERSION ==> manifest.rules.move_bound >= 1,
    ensures
        manifest.format_version != FORMAT_VERSION ==> r matches Err(SearchError::InvalidScenario { .. }),
        r matches Ok(l) ==> {
            let pc = manifest_piece_count(manifest.rules);
            &&& manifest.format_version == FORMAT_VERSION
            &&& pc <= MAX_PIECES
            &&& l.rules.move_bound == manifest.rules.move_bound
            &&& l.rules.layout.kinds_spec() == layout_kinds_spec(manifest.rules.white_king, manifest.rules.queens as nat,
                manifest.rules.rooks as nat, manifest.rules.bishops as nat, manifest.rules.knights as nat)
            &&& exists|tr: Seq<u32>, te: Seq<u32>, tn: Seq<(u32, [u32; 8])>, sa: Seq<(u32, u32)>, sb: Seq<(u32, u32)>, rest: Seq<u8>| {
                &&& #[trigger] codec::encodes(data_bytes@, pc, l.states@, tr, te, tn, sa, sb, rest)
                &&& records_in_range(l.states@.len(), tn)
                &&& l.id_of.view_map() == ids_of(l.states@)
                &&& l.trap_ids.view_set() == tr.to_set()
                &&& l.tempo_ids.view_set() == te.to_set()
                &&& l.transitions@.len() == l.states@.len()
                &&& forall|i: int| 0 <= i < l.states@.len() ==> (#[trigger] l.transitions@[i])@ == transition_table(l.states@.len(), tn)[i]
                &&& l.strat_trap.view_map() == pairs_map(sa)
                &&& l.strat_tempo.view_map() == pairs_map(sb)
            }
        },
        forall|st: Seq<State>, tr: Seq<u32>, te: Seq<u32>, tn: Seq<(u32, [u32; 8])>, sa: Seq<(u32, u32)>, sb: Seq<(u32, u32)>, rest: Seq<u8>|
            manifest.format_version == FORMAT_VERSION && #[trigger] codec::encodes(data_bytes@, manifest_piece_count(manifest.rules), st, tr, te, tn, sa, sb, rest)
                ==> (r is Ok <==> records_in_range(st.len(), tn)),
{
    let rules = match manifest_rules(&manifest) {
        Ok(x) => x,
        Err(e) => {
            proof {
                reveal(codec::encodes);
            }
            return Err(e);
        },
    };
    let piece_count = rules.layout.piece_count();
    proof {
        use_type_invariant(&rules.layout);
        crate::chess::layout::lemma_layout_kinds_len(manifest.rules.white_king, manifest.rules.queens as nat,
            manifest.rules.rooks as nat, manifest.rules.bishops as nat, manifest.rules.knights as nat);
        assert(piece_count == manifest_piece_count(manifest.rules));
    }
    let data = codec::read_data(data_bytes, piece_count, data_path)?;
    let n = data.states.len();
    let mut id_of = StateIds::new();
    let mut i: usize = 0;
    proof {
        assert(data.states@.take(0) =~= Seq::<State>::empty());
        assert(id_of.view_map() =~= ids_of(data.states@.take(0)));
        reveal(codec::encodes);
    }
    while i < n
        invariant
            i <= n,
            n == data.states@.len(),
            n <= u32::MAX,
            id_of.view_map() == ids_of(data.states@.take(i as int)),
        decreases n - i,
    {
        if i > 0xffff_ffff {
            return Err(invalid("solution has too many states for u32 indexing"));
        }
        id_of.insert(data.states[i], i as u32);
        proof {
            assert(data.states@.take(i + 1).drop_last() =~= data.states@.take(i as int));
        }
        i += 1;
    }
    proof {
        assert(data.states@.take(n as int) =~= data.states@);
    }
    let trap_ids = id_set_of(&data.trap_set_ids);
    let tempo_ids = id_set_of(&data.tempo_set_ids);
    let mut transitions: Vec<[u32; 8]> = Vec::new();
    let mut j: usize = 0;
    while j < n
        invariant
            j <= n,
            transitions@.len() == j,
            forall|a: int| 0 <= a < j ==> (#[trigger] transitions@[a])@ == Seq::new(8, |d: int| u32::MAX),
        decreases n - j,
    {
        let row: [u32; 8] = [u32::MAX; 8];
        proof {
            assert(row@ =~= Seq::new(8, |d: int| u32::MAX));
        }
        transitions.push(row);
        j += 1;
    }
    let mut k: usize = 0;
    proof {
        assert(data.transitions@.take(0) =~= Seq::<(u32, [u32; 8])>::empty());
        assert forall|st: Seq<State>, tr: Seq<u32>, te: Seq<u32>, tn: Seq<(u32, [u32; 8])>, sa: Seq<(u32, u32)>, sb: Seq<(u32, u32)>, rest: Seq<u8>|
            #[trigger] codec::encodes(data_bytes@, manifest_piece_count(manifest.rules), st, tr, te, tn, sa, sb, rest)
            implies data.states@ == st && data.transitions@ == tn by {
            assert(codec::encodes(data_bytes@, piece_count as nat, st, tr, te, tn, sa, sb, rest));
        }
    }
    while k < data.transitions.len()
        invariant
            forall|st: Seq<State>, tr: Seq<u32>, te: Seq<u32>, tn: Seq<(u32, [u32; 8])>, sa: Seq<(u32, u32)>, sb: Seq<(u32, u32)>, rest: Seq<u8>|
                #[trigger] codec::encodes(data_bytes@, manifest_piece_count(manifest.rules), st, tr, te, tn, sa, sb, rest)
                ==> data.states@ == st && data.transitions@ == tn,
            k <= data.transitions@.len(),
            n == data.states@.len(),
            transitions@.len() == n,
            records_in_range(n as nat, data.transitions@.take(k as int)),
            forall|a: int| 0 <= a < n ==> (#[trigger] transitions@[a])@ == transition_table(n as nat, data.transitions@.take(k as int))[a],
        decreases data.transitions@.len() - k,
    {
        let (state_id, next) = data.transitions[k];
        let idx = state_id as usize;
        if idx >= transitions.len() {
            proof {
                assert(data.transitions@[k as int].0 >= n);
                assert(!records_in_range(n as nat, data.transitions@));
                assert forall|st: Seq<State>, tr: Seq<u32>, te: Seq<u32>, tn: Seq<(u32, [u32; 8])>, sa: Seq<(u32, u32)>, sb: Seq<(u32, u32)>, rest: Seq<u8>|
                    #[trigger] codec::encodes(data_bytes@, manifest_piece_count(manifest.rules), st, tr, te, tn, sa, sb, rest)
                    implies !records_in_range(st.len(), tn) by {
                }
            }
            return Err(invalid("transition references out-of-range state_id"));
        }
        let ghost before = transitions@;
        transitions.set(idx, next);
        proof {
            let t0 = data.transitions@.take(k as int);
            let t1 = data.transitions@.take(k + 1);
            assert(t1.drop_last() =~= t0);
            assert(t1.last() == (state_id, next));
            assert forall|a: int| 0 <= a < n implies (#[trigger] transitions@[a])@ == transition_table(n as nat, t1)[a] by {
                lemma_transition_table_len(n as nat, t0);
            }
            assert forall|a: int| 0 <= a < t1.len() implies (#[trigger] t1[a]).0 < n by {
                if a < k {
                    assert(t1[a] == t0[a]);
                }
            }
        }
        k += 1;
    }
    proof {
        assert(data.transitions@.take(data.transitions@.len() as int) =~= data.transitions@);
    }
    let strat_trap = id_map_of(&data.strategy_trap);
    let strat_tempo = id_map_of(&data.strategy_tempo);
    let ghost dd = data;
    let loaded = LoadedSolution {
        manifest,
        rules,
        states: data.states,
        id_of,
        trap_ids,
        tempo_ids,
        transitions,
        strat_trap,
        strat_tempo,
    };
    proof {
        let rest = choose|rest: Seq<u8>| #[trigger] codec::encodes(data_bytes@, piece_count as nat, dd.states@, dd.trap_set_ids@,
            dd.tempo_set_ids@, dd.transitions@, dd.strategy_trap@, dd.strategy_tempo@, rest);
        assert(codec::encodes(data_bytes@, manifest_piece_count(loaded.manifest.rules), loaded.states@, dd.trap_set_ids@,
            dd.tempo_set_ids@, dd.transitions@, dd.strategy_trap@, dd.strategy_tempo@, rest));
    }
    Ok(loaded)
}

/// The transition table has one row per state.
proof fn lemma_transition_table_len(n: nat, records: Seq<(u32, [u32; 8])>)
    ensures
        transition_table(n, records).len() == n,
    decreases records.len(),
{
    if records.len() > 0 {
        lemma_transition_table_len(n, records.drop_last());
    } else {
        assert(transition_table(n, records) == Seq::new(n, |i: int| Seq::new(8, |d: int| u32::MAX)));
    }
}

} // verus!
