//! Data-backed scenario: bishops and a knight against the king, from a reference set of trap
//! states.
//!
//! The data lists integers in groups of eight: the absolute black king, the knight, the first
//! bishop and the second bishop, each as `x y`. The scenario tracks the absolute king anchor.

use vstd::prelude::*;

use crate::board::coord::{in_i32, Coord};
use crate::board::position::{canonical_slots, Position, MAX_PIECES};
use crate::board::square::Square;
use crate::chess::layout::{layout_kinds_spec, PieceLayout};
use crate::chess::rules::{coord_limit, legal_spec, Rules};
use crate::scenario::{
    invalid, CacheMode, CandidateGeneration, NoLaws, NoPreferences, ResourceLimits, Scenario,
    SearchError, Side, StartState, State,
};
use crate::scenarios::BuiltinDomain;

verus! {

/// Where the number scanner stands: inside a number or not, the number's sign and digits so
/// far, and the numbers read.
pub struct ScanState {
    pub in_num: bool,
    pub sign: i32,
    pub acc: i32,
    pub nums: Seq<i32>,
}

/// `a * 10 + d`, saturating at `i32::MAX`.
pub open spec fn sat_digit(a: i32, d: int) -> i32 {
    if a * 10 + d > i32::MAX { i32::MAX } else { (a * 10 + d) as i32 }
}

/// One byte of scanning: `-` starts a negative number, a digit starts (or extends) a number,
/// anything else ends the current number.
pub open spec fn scan_step(st: ScanState, b: u8) -> ScanState {
    if b == 45u8 {
        ScanState { in_num: true, sign: -1i32, acc: 0i32, nums: st.nums }
    } else if 48u8 <= b <= 57u8 {
        let (sign, acc) = if st.in_num { (st.sign, st.acc) } else { (1i32, 0i32) };
        ScanState { in_num: true, sign, acc: sat_digit(acc, b - 48), nums: st.nums }
    } else if st.in_num {
        ScanState { in_num: false, sign: 1, acc: 0, nums: st.nums.push((st.sign * st.acc) as i32) }
    } else {
        st
    }
}

/// The scanner after `bytes`.
pub open spec fn scan(bytes: Seq<u8>) -> ScanState
    decreases bytes.len(),
{
    if bytes.len() == 0 {
        ScanState { in_num: false, sign: 1, acc: 0, nums: Seq::empty() }
    } else {
        scan_step(scan(bytes.drop_last()), bytes.last())
    }
}

/// The integers in `bytes`, in order (a number at the very end counts too).
pub open spec fn numbers(bytes: Seq<u8>) -> Seq<i32> {
    let st = scan(bytes);
    if st.in_num { st.nums.push((st.sign * st.acc) as i32) } else { st.nums }
}

/// A relative coordinate component that the rules accept.
pub open spec fn rel_ok(d: int) -> bool {
    -coord_limit() < d < coord_limit()
}

/// Slots holding the squares of three coordinates, the rest captured.
pub open spec fn triple_slots(c0: Coord, c1: Coord, c2: Coord) -> Seq<Square> {
    Seq::new(MAX_PIECES as nat, |i: int| if i == 0 {
        Square::from_coord_spec(c0)
    } else if i == 1 {
        Square::from_coord_spec(c1)
    } else if i == 2 {
        Square::from_coord_spec(c2)
    } else {
        Square(i64::MIN)
    })
}

/// The state described by the eight numbers starting at `t[k]` (`kx ky nx ny b1x b1y b2x b2y`),
/// when its relative coordinates fit the coordinate limits.
pub open spec fn group_state(t: Seq<i32>, k: int, layout: PieceLayout) -> Option<State> {
    let kx = t[k] as int;
    let ky = t[k + 1] as int;
    let b1x = t[k + 4] - kx;
    let b1y = t[k + 5] - ky;
    let b2x = t[k + 6] - kx;
    let b2y = t[k + 7] - ky;
    let nx = t[k + 2] - kx;
    let ny = t[k + 3] - ky;
    if rel_ok(b1x) && rel_ok(b1y) && rel_ok(b2x) && rel_ok(b2y) && rel_ok(nx) && rel_ok(ny) {
        Some(State {
            abs_king: Coord { x: t[k], y: t[k + 1] },
            pos: crate::board::position::position_of(
                canonical_slots(
                    triple_slots(
                        Coord { x: b1x as i32, y: b1y as i32 },
                        Coord { x: b2x as i32, y: b2y as i32 },
                        Coord { x: nx as i32, y: ny as i32 },
                    ),
                    layout.runs_spec(),
                    layout.runs_spec().len(),
                ),
                3,
            ),
        })
    } else {
        None
    }
}

/// The legal states of the first `g` complete groups of eight numbers of `t`, in order.
pub open spec fn group_states(t: Seq<i32>, g: nat, rules: Rules) -> Seq<State>
    decreases g,
{
    if g == 0 {
        Seq::empty()
    } else {
        let prev = group_states(t, (g - 1) as nat, rules);
        match group_state(t, 8 * (g - 1), rules.layout) {
            Some(s) => if legal_spec(rules.layout.king_index_spec(), s.pos@) { prev.push(s) } else { prev },
            None => prev,
        }
    }
}

/// The trap states listed in `bytes`, for the layout `B, B, N`.
pub open spec fn parsed_states(bytes: Seq<u8>, rules: Rules) -> Seq<State> {
    group_states(numbers(bytes), numbers(bytes).len() / 8, rules)
}

/// The state of the group `g` (numbers `kx ky nx ny b1x b1y b2x b2y`), or `None` when a
/// relative coordinate is beyond the coordinate limits.
fn make_group_state(g: &[i32; 8], layout: &PieceLayout) -> (r: Option<State>)
    requires
        layout.kinds_spec().len() == 3,
    ensures
        r == group_state(g@, 0, *layout),
        r matches Some(s) ==> s.pos.len_spec() == 3 && crate::chess::rules::squares_within(s.pos@, coord_limit()),
{
    let kx = g[0] as i64;
    let ky = g[1] as i64;
    let b1x = g[4] as i64 - kx;
    let b1y = g[5] as i64 - ky;
    let b2x = g[6] as i64 - kx;
    let b2y = g[7] as i64 - ky;
    let nx = g[2] as i64 - kx;
    let ny = g[3] as i64 - ky;
    let lim: i64 = 0x2000_0000;
    if !(-lim < b1x && b1x < lim && -lim < b1y && b1y < lim && -lim < b2x && b2x < lim && -lim < b2y
        && b2y < lim && -lim < nx && nx < lim && -lim < ny && ny < lim) {
        return None;
    }
    let c0 = Coord::new(b1x as i32, b1y as i32);
    let c1 = Coord::new(b2x as i32, b2y as i32);
    let c2 = Coord::new(nx as i32, ny as i32);
    let mut squares = [Square::none(); MAX_PIECES];
    squares[0] = Square::from_coord(c0);
    squares[1] = Square::from_coord(c1);
    squares[2] = Square::from_coord(c2);
    let ghost slots = triple_slots(c0, c1, c2);
    proof {
        assert(squares@ =~= slots);
    }
    let mut pos = Position::new(3, squares);
    pos.canonicalize(layout);
    proof {
        use_type_invariant(layout);
        crate::board::position::lemma_position_of(pos);
        let lim_p = |q: Square| crate::chess::rules::present(q) ==> crate::chess::rules::within(q.coord_spec(), coord_limit());
        crate::board::square::lemma_pack_unpack(c0.x, c0.y);
        crate::board::square::lemma_pack_unpack(c1.x, c1.y);
        crate::board::square::lemma_pack_unpack(c2.x, c2.y);
        assert(lim_p(slots[0]));
        assert(lim_p(slots[1]));
        assert(lim_p(slots[2]));
        assert forall|r: int| 0 <= r < layout.runs_spec().len() implies #[trigger] layout.runs_spec()[r].start
            <= layout.runs_spec()[r].end <= 3 by {
            let runs = layout.runs_spec();
            if r < runs.len() - 1 {
                assert(runs[r].end <= runs[runs.len() - 1].start);
            }
        }
        crate::board::position::lemma_canonical_elements(slots, layout.runs_spec(), layout.runs_spec().len(), 3, lim_p);
        assert forall|j: int| 0 <= j < pos@.len() && crate::chess::rules::present(pos@[j])
            implies crate::chess::rules::within(#[trigger] pos@[j].coord_spec(), coord_limit()) by {
            assert(pos@[j] == pos.slots()[j]);
            assert(lim_p(pos.slots()[j]));
        }
    }
    Some(State { abs_king: Coord::new(g[0], g[1]), pos })
}

/// Records the number `x`: it joins the current group, and a complete group of eight becomes a
/// state, kept when it is legal.
fn push_int(
    x: i32,
    rules: &Rules,
    buf: &mut [i32; 8],
    buf_len: &mut usize,
    out: &mut Vec<State>,
    Ghost(nums): Ghost<Seq<i32>>,
)
    requires
        rules.layout.kinds_spec().len() == 3,
        rules.layout.king_index_spec() is None,
        *old(buf_len) == nums.len() % 8,
        forall|j: int| 0 <= j < *old(buf_len) ==> old(buf)@[j] == #[trigger] nums[nums.len() - *old(buf_len) + j],
        old(out)@ == group_states(nums, nums.len() / 8, *rules),
    ensures
        *final(buf_len) == nums.push(x).len() % 8,
        forall|j: int| 0 <= j < *final(buf_len) ==> final(buf)@[j] == #[trigger] nums.push(x)[nums.push(x).len() - *final(buf_len) + j],
        final(out)@ == group_states(nums.push(x), nums.push(x).len() / 8, *rules),
{
    let ghost n2 = nums.push(x);
    buf[*buf_len] = x;
    *buf_len = *buf_len + 1;
    if *buf_len == 8 {
        let g = make_group_state(buf, &rules.layout);
        proof {
            let k = 8 * (n2.len() / 8 - 1);
            assert(n2.len() == 8 * (n2.len() / 8));
            assert forall|j: int| 0 <= j < 8 implies buf@[j] == #[trigger] n2[k + j] by {
                if j < 7 {
                    assert(buf@[j] == nums[nums.len() - 7 + j]);
                }
            }
            assert(buf@[0] == n2[k + 0] && buf@[1] == n2[k + 1] && buf@[2] == n2[k + 2] && buf@[3] == n2[k + 3]);
            assert(buf@[4] == n2[k + 4] && buf@[5] == n2[k + 5] && buf@[6] == n2[k + 6] && buf@[7] == n2[k + 7]);
            assert(group_state(buf@, 0, rules.layout) == group_state(n2, k, rules.layout));
            assert(nums.len() / 8 == n2.len() / 8 - 1);
            assert(group_states(nums, nums.len() / 8, *rules) == group_states(n2, (n2.len() / 8 - 1) as nat, *rules)) by {
                lemma_group_states_prefix(nums, n2, nums.len() / 8, *rules);
            }
        }
        match g {
            Some(s) => {
                if rules.is_legal_position(&s.pos) {
                    out.push(s);
                }
            },
            None => {},
        }
        *buf_len = 0;
    } else {
        proof {
            assert(n2.len() / 8 == nums.len() / 8);
            lemma_group_states_prefix(nums, n2, nums.len() / 8, *rules);
            assert forall|j: int| 0 <= j < *buf_len implies buf@[j] == #[trigger] n2[n2.len() - *buf_len + j] by {
                if j < *buf_len - 1 {
                    assert(buf@[j] == nums[nums.len() - (*buf_len - 1) + j]);
                }
            }
        }
    }
}

/// The groups of a prefix of the numbers are the same.
proof fn lemma_group_states_prefix(t: Seq<i32>, t2: Seq<i32>, g: nat, rules: Rules)
    requires
        8 * g <= t.len() <= t2.len(),
        forall|i: int| 0 <= i < t.len() ==> #[trigger] t2[i] == t[i],
    ensures
        group_states(t, g, rules) == group_states(t2, g, rules),
    decreases g,
{
    if g > 0 {
        lemma_group_states_prefix(t, t2, (g - 1) as nat, rules);
        let k = 8 * (g - 1);
        assert forall|j: int| 0 <= j < 8 implies #[trigger] t2[k + j] == t[k + j] by {}
        assert(group_state(t, k, rules.layout) == group_state(t2, k, rules.layout));
    }
}

/// The trap states listed in `bytes`: integers are read in order (a `-` starts a negative
/// number, other non-digits separate numbers, digits beyond `i32::MAX` saturate), taken in
/// groups of eight as `kx ky nx ny b1x b1y b2x b2y`, and each group becomes the canonical
/// state with the king anchored at `(kx, ky)` and bishops, bishops and knight relative to it;
/// illegal positions are dropped.
pub fn parse_k_nbb_trap_bytes(bytes: &[u8], rules: &Rules) -> (out: Vec<State>)
    requires
        rules.layout.kinds_spec().len() == 3,
        rules.layout.king_index_spec() is None,
    ensures
        out@ == parsed_states(bytes@, *rules),
{
    let mut out: Vec<State> = Vec::new();
    let mut buf = [0i32; 8];
    let mut buf_len: usize = 0;
    let mut in_num = false;
    let mut sign: i32 = 1;
    let mut acc: i32 = 0;
    let ghost mut nums: Seq<i32> = Seq::empty();
    let mut i: usize = 0;
    proof {
        assert(bytes@.take(0) =~= Seq::<u8>::empty());
    }
    while i < bytes.len()
        invariant
            i <= bytes@.len(),
            rules.layout.kinds_spec().len() == 3,
            rules.layout.king_index_spec() is None,
            scan(bytes@.take(i as int)) == (ScanState { in_num, sign, acc, nums }),
            sign == 1 || sign == -1,
            acc >= 0,
            buf_len == nums.len() % 8,
            forall|j: int| 0 <= j < buf_len ==> buf@[j] == #[trigger] nums[nums.len() - buf_len + j],
            out@ == group_states(nums, nums.len() / 8, *rules),
        decreases bytes@.len() - i,
    {
        let b = bytes[i];
        proof {
            assert(bytes@.take(i as int + 1).drop_last() =~= bytes@.take(i as int));
        }
        if b == 45u8 {
            in_num = true;
            sign = -1;
            acc = 0;
        } else if 48u8 <= b && b <= 57u8 {
            if !in_num {
                in_num = true;
                sign = 1;
                acc = 0;
            }
            let v: i64 = acc as i64 * 10 + (b - 48u8) as i64;
            acc = if v > 0x7fff_ffff { 0x7fff_ffffi32 } else { v as i32 };
        } else if in_num {
            let x = if sign < 0 { -acc } else { acc };
            push_int(x, rules, &mut buf, &mut buf_len, &mut out, Ghost(nums));
            proof {
                assert(x == sign * acc) by (nonlinear_arith)
                    requires
                        sign == 1 || sign == -1,
                        x == (if sign < 0 { -acc } else { acc as int }),
                ;
                nums = nums.push(x);
            }
            in_num = false;
            sign = 1;
            acc = 0;
        }
        i += 1;
    }
    proof {
        assert(bytes@.take(bytes@.len() as int) =~= bytes@);
    }
    if in_num {
        let x = if sign < 0 { -acc } else { acc };
        assert(x == sign * acc) by (nonlinear_arith)
            requires
                sign == 1 || sign == -1,
                x == (if sign < 0 { -acc } else { acc as int }),
        ;
        push_int(x, rules, &mut buf, &mut buf_len, &mut out, Ghost(nums));
    }
    out
}

/// Limits for the data-backed scenario.
pub fn nbb_limits() -> (l: ResourceLimits)
    ensures
        l.max_states == 500_000,
        l.max_edges == 200_000_000,
        l.max_cache_entries == 250_000,
        l.max_cached_moves == 3_000_000,
        l.max_runtime_steps == 500_000_000,
{
    ResourceLimits {
        max_states: 500_000,
        max_edges: 200_000_000,
        max_cache_entries: 250_000,
        max_cached_moves: 3_000_000,
        max_runtime_steps: 500_000_000,
    }
}

/// Two bishops and a knight (slides of up to 23 squares), candidates given by the trap states
/// listed in `bytes`, the anchor tracked, White may pass, stalemates removed, black-move cache;
/// the first listed state is the start (Black to move). Fails when the data lists no legal
/// state.
pub fn nbb20_from_file(bytes: &[u8]) -> (r: Result<Scenario<BuiltinDomain, NoLaws, NoPreferences>, SearchError>)
    ensures
        r is Err ==> r->Err_0 is InvalidScenario,
        r is Ok ==> {
            let s = r->Ok_0;
            &&& s.rules.layout.kinds_spec() == layout_kinds_spec(false, 0, 0, 2, 1)
            &&& s.rules.move_bound == 23
            &&& s.candidates matches CandidateGeneration::FromStates { states } && states@ == parsed_states(bytes@, s.rules)
            &&& states_first(s)
            &&& s.white_can_pass && s.track_abs_king && s.remove_stalemates
            &&& s.cache_mode == CacheMode::BlackOnly
            &&& s.domain is All
        },
{
    let layout = PieceLayout::from_counts(false, 0, 0, 2, 1);
    let rules = Rules::new(layout.clone(), 23);
    proof {
        assert(rules.layout.kinds_spec() =~= layout_kinds_spec(false, 0, 0, 2, 1));
    }
    let states = parse_k_nbb_trap_bytes(bytes, &rules);
    if states.len() == 0 {
        return Err(invalid("NBB trap file parsed to an empty set"));
    }
    let start = states[0];
    Ok(Scenario {
        name: "nbb20_from_file",
        rules,
        white_can_pass: true,
        track_abs_king: true,
        start: StartState { to_move: Side::Black, state: start },
        candidates: CandidateGeneration::FromStates { states },
        domain: BuiltinDomain::All,
        laws: NoLaws,
        preferences: NoPreferences,
        limits: nbb_limits(),
        cache_mode: CacheMode::BlackOnly,
        remove_stalemates: true,
    })
}

/// The start of `s` is its first candidate state, with Black to move.
pub open spec fn states_first(s: Scenario<BuiltinDomain, NoLaws, NoPreferences>) -> bool {
    s.start.to_move == Side::Black && match s.candidates {
        CandidateGeneration::FromStates { states } => states@.len() > 0 && s.start.state == states@[0],
        _ => false,
    }
}

} // verus!
